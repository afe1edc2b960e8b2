use transit_ingest::error::{ConfigError, Error, FeedError, Violation};
use transit_ingest::fnv;
use transit_ingest::keys::KeyIndex;
use transit_ingest::text::{
    chars_of, decimal_text, hex_text, not_after, read_digits, same, same_ignoring_case, split, trim,
    two_wide_text, white,
};
use transit_ingest::zone::{Timezone, UtcInstant};

#[test]
fn white_space_is_what_std_says_it_is() {
    for c in (0..=0x10ffff).filter_map(char::from_u32) {
        assert_eq!(white(c), c.is_whitespace(), "{c:?}");
    }
}

#[test]
fn texts_are_trimmed_as_std_trims_them() {
    for text in ["", " ", "a", " a ", "\u{3000}a b\u{a0}\n", "\u{200b}a", "é \u{85}"] {
        assert_eq!(trim(text), text.trim());
    }
}

#[test]
fn digits_are_read_where_there_are_one_or_two() {
    for n in 0..10 {
        assert_eq!(read_digits(&chars_of(&format!("{n}")), 1), Some(n));
        assert_eq!(read_digits(&chars_of(&format!("{n}")), 2), None);
    }
    for n in 0..100 {
        assert_eq!(read_digits(&chars_of(&format!("{n:02}")), 1), Some(n));
        assert_eq!(read_digits(&chars_of(&format!("{n:02}")), 2), Some(n));
    }
    for text in ["", "000", "+1", "-1", "1 ", " 1", "a", "1a", "a1", "\u{0661}"] {
        assert_eq!(read_digits(&chars_of(text), 1), None, "{text}");
    }
}

#[test]
fn texts_split_at_every_separator() {
    for text in ["", ":", "a:b", "a::b:", "ab"] {
        let expected: Vec<Vec<char>> = text.split(':').map(|p| p.chars().collect()).collect();
        assert_eq!(split(&chars_of(text), ':'), expected);
    }
}

#[test]
fn numbers_are_written_as_std_writes_them() {
    for n in [0, 7, 10, 99, 100, u64::MAX] {
        assert_eq!(decimal_text(n), n.to_string());
        assert_eq!(hex_text(n, 16), format!("{n:016x}"));
    }
    for n in [0, 7, 10, 123, -1, -9, -10, i64::from(i32::MIN)] {
        assert_eq!(two_wide_text(n), format!("{n:02}"));
    }
}

#[test]
fn texts_are_ordered_as_std_orders_them() {
    let texts = ["", "A", "a", "aa", "b", "é", "\u{ffff}", "\u{10000}", "a\u{0}"];
    for a in texts {
        for b in texts {
            assert_eq!(not_after(a, b), a <= b, "{a:?} {b:?}");
            assert_eq!(same(a, b), a == b);
        }
    }
}

#[test]
fn case_is_ignored_for_ascii_letters_alone() {
    for (a, b) in [("Stops.TXT", "stops.txt"), ("É", "é"), ("a", "b"), ("a", "aa"), ("[", "{")] {
        assert_eq!(same_ignoring_case(a, b), a.eq_ignore_ascii_case(b), "{a} {b}");
    }
}

#[test]
fn hashing_absorbs_bytes_one_by_one() {
    let whole = fnv::absorb(fnv::OFFSET_BASIS, b"ab");
    assert_eq!(whole, fnv::absorb(fnv::absorb(fnv::OFFSET_BASIS, b"a"), b"b"));
    assert_eq!(fnv::absorb(fnv::OFFSET_BASIS, b""), fnv::OFFSET_BASIS);
    assert_eq!(
        fnv::absorb(fnv::OFFSET_BASIS, b"a"),
        (fnv::OFFSET_BASIS ^ 0x61).wrapping_mul(fnv::MULTIPLIER)
    );
}

#[test]
fn keys_keep_the_order_of_their_first_rows() {
    let mut index = KeyIndex::new();
    for (row, key) in ["b", "a", "b", "c", "a"].iter().enumerate() {
        index.push(key, row);
    }
    assert_eq!(index.key_count(), 3);
    assert_eq!(index.slot_of("b"), Some(0));
    assert_eq!(index.slot_of("c"), Some(2));
    assert_eq!(index.slot_of("d"), None);
    assert_eq!(index.key_at(1), "a");
    assert_eq!(*index.rows_at(1), [1, 4]);
    assert_eq!(*index.rows_at(0), [0, 2]);
}

#[test]
fn instants_have_bounds() {
    assert_eq!(UtcInstant::from_seconds(5).unwrap().micros(), 5_000_000);
    assert_eq!(UtcInstant::from_seconds(-5).unwrap().seconds(), -5);
    assert!(UtcInstant::from_seconds(i64::MAX).is_none());
    assert!(UtcInstant::from_seconds(i64::MIN).is_none());
    assert_eq!(Timezone::named("UTC").unwrap().name(), "UTC");
}

#[test]
fn every_error_says_what_happened() {
    let s = |text: &str| text.to_string();
    for (error, message) in [
        (Error::Config(ConfigError::Read { path: s("p") }), "could not read config at p"),
        (Error::Config(ConfigError::Parse { path: s("p") }), "could not parse config at p"),
        (Error::Feed(FeedError::Download { url: s("u") }), "failed to download u"),
        (Error::Feed(FeedError::HttpStatus { url: s("u"), status: 503 }), "u returned HTTP 503"),
        (Error::Feed(FeedError::Csv { file: s("f"), record: 12 }), "failed to parse `f` at record 12"),
        (Error::Io { path: s("p") }, "i/o error at p"),
    ] {
        assert_eq!(error.message(), message);
    }
    let violation = Violation {
        file: s("stops.txt"),
        field: s("stop_id"),
        value: s("S1"),
        references: s("a unique key"),
        occurrences: 2,
    };
    assert_eq!(
        violation.clone().message(),
        "stops.txt.stop_id = `S1` not found in a unique key (2 row(s))"
    );
}
