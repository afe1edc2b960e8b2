//! Text as sequences of characters: decimal and hexadecimal rendering,
//! trimming, splitting, fields of digits, and the byte order of strings.

use vstd::prelude::*;
use vstd::string::*;
use vstd::utf8::*;

verus! {

// ---------------------------------------------------------------------------
// Characters
// ---------------------------------------------------------------------------

/// The characters of `text`, in order.
pub fn chars_of(text: &str) -> (chars: Vec<char>)
    ensures
        chars@ == text@,
{
    let mut chars: Vec<char> = Vec::new();
    for c in it: text.chars()
        invariant
            chars@ == it.seq().take(it.index()),
            it.seq() == text@,
    {
        proof {
            assert(it.seq().take(it.index() + 1) =~= it.seq().take(it.index()).push(
                it.seq()[it.index()],
            ));
        }
        chars.push(c);
    }
    assert(text@.take(text@.len() as int) =~= text@);
    chars
}

/// A character with an ASCII capital made small.
pub open spec fn lower_char(c: char) -> char {
    if 'A' <= c <= 'Z' {
        (c as int + 32) as char
    } else {
        c
    }
}

/// A text with ASCII capitals made small.
pub open spec fn ascii_lower(s: Seq<char>) -> Seq<char> {
    s.map_values(|c: char| lower_char(c))
}

/// Whether two characters are the same but for the case of ASCII letters.
fn same_char(a: char, b: char) -> (r: bool)
    ensures
        r == (lower_char(a) == lower_char(b)),
{
    let x: u32 = if 'A' <= a && a <= 'Z' {
        a as u32 + 32
    } else {
        a as u32
    };
    let y: u32 = if 'A' <= b && b <= 'Z' {
        b as u32 + 32
    } else {
        b as u32
    };
    x == y
}

/// Whether two texts are the same but for the case of ASCII letters.
pub fn same_ignoring_case(a: &str, b: &str) -> (r: bool)
    ensures
        r == (ascii_lower(a@) == ascii_lower(b@)),
{
    let left: Vec<char> = chars_of(a);
    let right: Vec<char> = chars_of(b);
    if left.len() != right.len() {
        assert(ascii_lower(a@).len() != ascii_lower(b@).len());
        return false;
    }
    let mut i: usize = 0;
    while i < left.len()
        invariant
            left@ == a@,
            right@ == b@,
            left@.len() == right@.len(),
            i <= left@.len(),
            forall|k: int| 0 <= k < i ==> lower_char(#[trigger] left@[k]) == lower_char(right@[k]),
        decreases left@.len() - i,
    {
        if !same_char(left[i], right[i]) {
            assert(ascii_lower(a@)[i as int] != ascii_lower(b@)[i as int]);
            return false;
        }
        i = i + 1;
    }
    assert(ascii_lower(a@) =~= ascii_lower(b@));
    true
}

/// The characters with the Unicode `White_Space` property.
pub open spec fn is_white(c: char) -> bool {
    ||| '\u{9}' <= c <= '\u{d}'
    ||| c == '\u{20}'
    ||| c == '\u{85}'
    ||| c == '\u{a0}'
    ||| c == '\u{1680}'
    ||| '\u{2000}' <= c <= '\u{200a}'
    ||| c == '\u{2028}'
    ||| c == '\u{2029}'
    ||| c == '\u{202f}'
    ||| c == '\u{205f}'
    ||| c == '\u{3000}'
}

/// Whether `c` has the Unicode `White_Space` property.
pub fn white(c: char) -> (r: bool)
    ensures
        r == is_white(c),
{
    ('\u{9}' <= c && c <= '\u{d}') || c == '\u{20}' || c == '\u{85}' || c == '\u{a0}' || c
        == '\u{1680}' || ('\u{2000}' <= c && c <= '\u{200a}') || c == '\u{2028}' || c == '\u{2029}'
        || c == '\u{202f}' || c == '\u{205f}' || c == '\u{3000}'
}

/// `s` without its leading white space.
pub open spec fn without_leading_white(s: Seq<char>) -> Seq<char>
    decreases s.len(),
{
    if s.len() > 0 && is_white(s[0]) {
        without_leading_white(s.drop_first())
    } else {
        s
    }
}

/// `s` without its trailing white space.
pub open spec fn without_trailing_white(s: Seq<char>) -> Seq<char>
    decreases s.len(),
{
    if s.len() > 0 && is_white(s.last()) {
        without_trailing_white(s.drop_last())
    } else {
        s
    }
}

/// `s` without white space at either end.
pub open spec fn trimmed(s: Seq<char>) -> Seq<char> {
    without_trailing_white(without_leading_white(s))
}

/// `text` without white space at either end.
pub fn trim(text: &str) -> (r: &str)
    ensures
        r@ == trimmed(text@),
{
    let chars: Vec<char> = chars_of(text);
    let mut from: usize = 0;
    assert(text@.skip(0) =~= text@);
    while from < chars.len() && white(chars[from])
        invariant
            chars@ == text@,
            from <= chars@.len(),
            without_leading_white(text@) == without_leading_white(text@.skip(from as int)),
        decreases chars@.len() - from,
    {
        assert(text@.skip(from as int).drop_first() =~= text@.skip(from + 1));
        from = from + 1;
    }
    let ghost rest = text@.skip(from as int);
    let mut to: usize = chars.len();
    assert(text@.subrange(from as int, to as int) =~= rest);
    while from < to && white(chars[to - 1])
        invariant
            chars@ == text@,
            from <= to <= chars@.len(),
            trimmed(text@) == without_trailing_white(text@.subrange(from as int, to as int)),
        decreases to,
    {
        let ghost now = text@.subrange(from as int, to as int);
        assert(now.drop_last() =~= text@.subrange(from as int, to - 1));
        assert(now.last() == text@[to - 1]);
        to = to - 1;
    }
    let ghost kept = text@.subrange(from as int, to as int);
    assert(to > from ==> kept.last() == text@[to - 1]);
    text.substring_char(from, to)
}

// ---------------------------------------------------------------------------
// Splitting
// ---------------------------------------------------------------------------

/// The pieces of `s` between the occurrences of `separator`: always one more
/// piece than there are separators.
pub open spec fn split_at(s: Seq<char>, separator: char) -> Seq<Seq<char>>
    decreases s.len(),
{
    if s.len() == 0 {
        seq![Seq::<char>::empty()]
    } else {
        let before = split_at(s.drop_last(), separator);
        if s.last() == separator {
            before.push(Seq::<char>::empty())
        } else {
            before.update(before.len() - 1, before.last().push(s.last()))
        }
    }
}

/// A vector of character vectors as a sequence of texts.
pub open spec fn pieces(v: Seq<Vec<char>>) -> Seq<Seq<char>> {
    v.map_values(|piece: Vec<char>| piece@)
}

/// The pieces of `chars` between the occurrences of `separator`.
pub fn split(chars: &Vec<char>, separator: char) -> (r: Vec<Vec<char>>)
    ensures
        pieces(r@) == split_at(chars@, separator),
        r@.len() > 0,
{
    let mut done: Vec<Vec<char>> = Vec::new();
    let mut current: Vec<char> = Vec::new();
    let mut i: usize = 0;
    assert(pieces(done@).push(current@) =~= split_at(chars@.take(0), separator));
    while i < chars.len()
        invariant
            i <= chars@.len(),
            pieces(done@).push(current@) == split_at(chars@.take(i as int), separator),
        decreases chars@.len() - i,
    {
        let ghost before = pieces(done@).push(current@);
        let ghost upto = chars@.take(i + 1);
        assert(upto.drop_last() =~= chars@.take(i as int));
        assert(upto.last() == chars@[i as int]);
        let c: char = chars[i];
        if c == separator {
            done.push(current);
            current = Vec::new();
            assert(pieces(done@) =~= before);
            assert(pieces(done@).push(current@) =~= before.push(Seq::<char>::empty()));
        } else {
            current.push(c);
            assert(pieces(done@).push(current@) =~= before.update(
                before.len() - 1,
                before.last().push(c),
            ));
        }
        i = i + 1;
    }
    assert(chars@.take(chars@.len() as int) =~= chars@);
    let ghost all = pieces(done@).push(current@);
    done.push(current);
    assert(pieces(done@) =~= all);
    done
}

// ---------------------------------------------------------------------------
// Digits
// ---------------------------------------------------------------------------

/// An ASCII decimal digit.
pub open spec fn is_digit(c: char) -> bool {
    '0' <= c <= '9'
}

/// The value of an ASCII decimal digit.
pub open spec fn digit_value(c: char) -> int {
    c as int - '0' as int
}

/// Whether every character of `s` is an ASCII decimal digit.
pub open spec fn all_digits(s: Seq<char>) -> bool {
    forall|i: int| 0 <= i < s.len() ==> is_digit(#[trigger] s[i])
}

/// The number that a row of decimal digits writes.
pub open spec fn digits_value(s: Seq<char>) -> int
    decreases s.len(),
{
    if s.len() == 0 {
        0
    } else {
        10 * digits_value(s.drop_last()) + digit_value(s.last())
    }
}

/// The number that `s` writes, if it is a row of decimal digits of a length in
/// bounds.
pub open spec fn digits_within(s: Seq<char>, least: int, most: int) -> Option<int> {
    if least <= s.len() <= most && all_digits(s) {
        Some(digits_value(s))
    } else {
        None
    }
}

/// Reads a decimal digit.
fn read_digit(c: char) -> (r: Option<i32>)
    ensures
        match r {
            Some(d) => is_digit(c) && d == digit_value(c) && 0 <= d < 10,
            None => !is_digit(c),
        },
{
    if '0' <= c && c <= '9' {
        Some((c as u32 - '0' as u32) as i32)
    } else {
        None
    }
}

/// Whether `chars` is a row of ASCII decimal digits.
pub fn digits_only(chars: &Vec<char>) -> (r: bool)
    ensures
        r == all_digits(chars@),
{
    let mut i: usize = 0;
    while i < chars.len()
        invariant
            i <= chars@.len(),
            forall|k: int| 0 <= k < i ==> is_digit(#[trigger] chars@[k]),
        decreases chars@.len() - i,
    {
        if let None = read_digit(chars[i]) {
            return false;
        }
        i = i + 1;
    }
    true
}

/// Reads `chars` as a row of at least `least` and at most two decimal digits.
pub fn read_digits(chars: &Vec<char>, least: usize) -> (r: Option<i32>)
    requires
        1 <= least,
    ensures
        match r {
            Some(n) => digits_within(chars@, least as int, 2) == Some(n as int) && 0 <= n < 100,
            None => digits_within(chars@, least as int, 2) is None,
        },
{
    proof {
        reveal_with_fuel(digits_value, 3);
    }
    if chars.len() < least {
        None
    } else if chars.len() == 1 {
        assert(chars@.drop_last() =~= Seq::<char>::empty());
        let r: Option<i32> = read_digit(chars[0]);
        assert(r is None ==> !is_digit(chars@[0]));
        r
    } else if chars.len() == 2 {
        assert(chars@.drop_last().drop_last() =~= Seq::<char>::empty());
        match (read_digit(chars[0]), read_digit(chars[1])) {
            (Some(tens), Some(ones)) => Some(10 * tens + ones),
            _ => {
                assert(!is_digit(chars@[0]) || !is_digit(chars@[1]));
                None
            },
        }
    } else {
        None
    }
}

// ---------------------------------------------------------------------------
// Rendering numbers
// ---------------------------------------------------------------------------

/// The decimal digit that writes `d`.
pub open spec fn digit_char(d: int) -> char {
    ('0' as int + d) as char
}

/// The decimal notation of `n`, without leading zeros.
pub open spec fn decimal(n: nat) -> Seq<char>
    decreases n,
{
    if n < 10 {
        seq![digit_char(n as int)]
    } else {
        decimal(n / 10).push(digit_char((n % 10) as int))
    }
}

/// `s` with zeros put before it up to `width` characters.
pub open spec fn zero_padded(s: Seq<char>, width: nat) -> Seq<char> {
    if s.len() < width {
        Seq::new((width - s.len()) as nat, |i: int| '0') + s
    } else {
        s
    }
}

/// The text of one decimal digit.
fn digit_text(d: u64) -> (r: &'static str)
    requires
        d < 10,
    ensures
        r@ == seq![digit_char(d as int)],
{
    proof {
        reveal_strlit("0");
        reveal_strlit("1");
        reveal_strlit("2");
        reveal_strlit("3");
        reveal_strlit("4");
        reveal_strlit("5");
        reveal_strlit("6");
        reveal_strlit("7");
        reveal_strlit("8");
        reveal_strlit("9");
    }
    let r: &'static str = if d == 0 {
        "0"
    } else if d == 1 {
        "1"
    } else if d == 2 {
        "2"
    } else if d == 3 {
        "3"
    } else if d == 4 {
        "4"
    } else if d == 5 {
        "5"
    } else if d == 6 {
        "6"
    } else if d == 7 {
        "7"
    } else if d == 8 {
        "8"
    } else {
        "9"
    };
    assert(r@ =~= seq![digit_char(d as int)]);
    r
}

/// The decimal notation of `n`.
pub fn decimal_text(n: u64) -> (r: String)
    ensures
        r@ == decimal(n as nat),
    decreases n,
{
    if n < 10 {
        digit_text(n).to_string()
    } else {
        let mut r: String = decimal_text(n / 10);
        let ghost before = r@;
        r.append(digit_text(n % 10));
        assert(r@ =~= before.push(digit_char((n % 10) as int)));
        r
    }
}

/// The two-character field of a number: the decimal notation of `n`, signed
/// when negative, with a zero before a single digit.
pub open spec fn two_wide(n: int) -> Seq<char> {
    if n < 0 {
        seq!['-'] + decimal((-n) as nat)
    } else {
        zero_padded(decimal(n as nat), 2)
    }
}

/// Renders `n` at least two characters wide.
pub fn two_wide_text(n: i64) -> (r: String)
    requires
        n > i64::MIN,
    ensures
        r@ == two_wide(n as int),
{
    if n < 0 {
        let mut r: String = "-".to_string();
        proof {
            reveal_strlit("-");
        }
        r.append(decimal_text((0 - n) as u64).as_str());
        assert(r@ =~= seq!['-'] + decimal((-n) as nat));
        r
    } else if n < 10 {
        let mut r: String = "0".to_string();
        proof {
            reveal_strlit("0");
        }
        r.append(decimal_text(n as u64).as_str());
        assert(r@ =~= zero_padded(decimal(n as nat), 2));
        r
    } else {
        let r: String = decimal_text(n as u64);
        proof {
            lemma_decimal_len(n as nat);
            lemma_decimal_len((n / 10) as nat);
        }
        assert(r@ =~= zero_padded(decimal(n as nat), 2));
        r
    }
}

/// A number below ten is written with one digit, any other with at least two.
pub proof fn lemma_decimal_len(n: nat)
    ensures
        n < 10 ==> decimal(n).len() == 1,
        n >= 10 ==> decimal(n).len() >= 2,
        decimal(n).len() >= 1,
    decreases n,
{
    if n >= 10 {
        lemma_decimal_len(n / 10);
    }
}

/// The decimal notation of a number is made of digits and writes that number.
pub proof fn lemma_decimal_value(n: nat)
    ensures
        all_digits(decimal(n)),
        digits_value(decimal(n)) == n,
    decreases n,
{
    reveal_with_fuel(digits_value, 2);
    if n < 10 {
        assert(decimal(n).drop_last() =~= Seq::<char>::empty());
    } else {
        lemma_decimal_value(n / 10);
        let before = decimal(n / 10);
        let all = decimal(n);
        assert(all.drop_last() =~= before);
        assert forall|i: int| 0 <= i < all.len() implies is_digit(#[trigger] all[i]) by {
            if i < before.len() {
                assert(all[i] == before[i]);
            }
        }
    }
}

/// Leading zeros change nothing.
pub proof fn lemma_padded_value(s: Seq<char>, width: nat)
    requires
        all_digits(s),
    ensures
        all_digits(zero_padded(s, width)),
        digits_value(zero_padded(s, width)) == digits_value(s),
        zero_padded(s, width).len() == (if s.len() < width {
            width
        } else {
            s.len()
        }),
{
    if s.len() < width {
        let zeros = Seq::new((width - s.len()) as nat, |i: int| '0');
        lemma_zeros_value(zeros, s);
        let all = zeros + s;
        assert forall|i: int| 0 <= i < all.len() implies is_digit(#[trigger] all[i]) by {
            if i >= zeros.len() {
                assert(all[i] == s[i - zeros.len()]);
            }
        }
    }
}

proof fn lemma_zeros_value(zeros: Seq<char>, s: Seq<char>)
    requires
        forall|i: int| 0 <= i < zeros.len() ==> zeros[i] == '0',
    ensures
        digits_value(zeros + s) == digits_value(s),
    decreases zeros.len() + s.len(),
{
    let all = zeros + s;
    if s.len() > 0 {
        lemma_zeros_value(zeros, s.drop_last());
        assert(all.drop_last() =~= zeros + s.drop_last());
        assert(all.last() == s.last());
    } else if zeros.len() > 0 {
        assert(zeros.drop_last() + s =~= all.drop_last());
        lemma_zeros_value(zeros.drop_last(), s);
        assert(all.last() == '0');
    } else {
        assert(all =~= s);
    }
}

/// The lower-case hexadecimal digit that writes `d`.
pub open spec fn hex_char(d: int) -> char {
    if d < 10 {
        ('0' as int + d) as char
    } else {
        ('a' as int + (d - 10)) as char
    }
}

/// The last `width` hexadecimal digits of `n`.
pub open spec fn hex(n: nat, width: nat) -> Seq<char>
    decreases width,
{
    if width == 0 {
        Seq::empty()
    } else {
        hex(n / 16, (width - 1) as nat).push(hex_char((n % 16) as int))
    }
}

/// The text of one lower-case hexadecimal digit.
fn hex_digit_text(d: u64) -> (r: &'static str)
    requires
        d < 16,
    ensures
        r@ == seq![hex_char(d as int)],
{
    proof {
        reveal_strlit("a");
        reveal_strlit("b");
        reveal_strlit("c");
        reveal_strlit("d");
        reveal_strlit("e");
        reveal_strlit("f");
    }
    if d < 10 {
        return digit_text(d);
    }
    let r: &'static str = if d == 10 {
        "a"
    } else if d == 11 {
        "b"
    } else if d == 12 {
        "c"
    } else if d == 13 {
        "d"
    } else if d == 14 {
        "e"
    } else {
        "f"
    };
    assert(r@ =~= seq![hex_char(d as int)]);
    r
}

/// Renders the last `width` hexadecimal digits of `n`.
pub fn hex_text(n: u64, width: u32) -> (r: String)
    ensures
        r@ == hex(n as nat, width as nat),
    decreases width,
{
    if width == 0 {
        String::new()
    } else {
        let mut r: String = hex_text(n / 16, width - 1);
        let ghost before = r@;
        r.append(hex_digit_text(n % 16));
        assert(r@ =~= before.push(hex_char((n % 16) as int)));
        r
    }
}

// ---------------------------------------------------------------------------
// Order
// ---------------------------------------------------------------------------

/// Byte-wise lexicographic order.
pub open spec fn bytes_le(a: Seq<u8>, b: Seq<u8>) -> bool
    decreases a.len(),
{
    if a.len() == 0 {
        true
    } else if b.len() == 0 {
        false
    } else if a[0] != b[0] {
        a[0] < b[0]
    } else {
        bytes_le(a.drop_first(), b.drop_first())
    }
}

/// The order of strings: byte-wise on their UTF-8 encodings.
pub open spec fn text_le(a: Seq<char>, b: Seq<char>) -> bool {
    bytes_le(encode_utf8(a), encode_utf8(b))
}

/// Strictly before, in the order of strings.
pub open spec fn text_lt(a: Seq<char>, b: Seq<char>) -> bool {
    text_le(a, b) && a != b
}

/// Byte-wise order is total and antisymmetric.
pub proof fn lemma_bytes_le_total(a: Seq<u8>, b: Seq<u8>)
    ensures
        bytes_le(a, b) || bytes_le(b, a),
        bytes_le(a, b) && bytes_le(b, a) ==> a == b,
    decreases a.len(),
{
    if a.len() == 0 {
        if b.len() == 0 {
            assert(a =~= b);
        }
    } else if b.len() > 0 && a[0] == b[0] {
        lemma_bytes_le_total(a.drop_first(), b.drop_first());
        if bytes_le(a, b) && bytes_le(b, a) {
            assert(a =~= seq![a[0]] + a.drop_first());
            assert(b =~= seq![b[0]] + b.drop_first());
        }
    }
}

/// Byte-wise order is transitive.
pub proof fn lemma_bytes_le_transitive(a: Seq<u8>, b: Seq<u8>, c: Seq<u8>)
    requires
        bytes_le(a, b),
        bytes_le(b, c),
    ensures
        bytes_le(a, c),
    decreases a.len(),
{
    if a.len() > 0 && b.len() > 0 && c.len() > 0 && a[0] == b[0] && b[0] == c[0] {
        lemma_bytes_le_transitive(a.drop_first(), b.drop_first(), c.drop_first());
    }
}

/// The order of strings is total and antisymmetric.
pub proof fn lemma_text_le_total(a: Seq<char>, b: Seq<char>)
    ensures
        text_le(a, b) || text_le(b, a),
        text_le(a, b) && text_le(b, a) ==> a == b,
{
    lemma_bytes_le_total(encode_utf8(a), encode_utf8(b));
    encode_utf8_decode_utf8(a);
    encode_utf8_decode_utf8(b);
}

/// The order of strings is transitive.
pub proof fn lemma_text_le_transitive(a: Seq<char>, b: Seq<char>, c: Seq<char>)
    requires
        text_le(a, b),
        text_le(b, c),
    ensures
        text_le(a, c),
{
    lemma_bytes_le_transitive(encode_utf8(a), encode_utf8(b), encode_utf8(c));
}

/// Whether `a` and `b` are the same text.
pub fn same(a: &str, b: &str) -> (r: bool)
    ensures
        r == (a@ == b@),
{
    let left: &[u8] = a.as_bytes();
    let right: &[u8] = b.as_bytes();
    proof {
        encode_utf8_decode_utf8(a@);
        encode_utf8_decode_utf8(b@);
    }
    if left.len() != right.len() {
        return false;
    }
    let mut i: usize = 0;
    while i < left.len()
        invariant
            left@.len() == right@.len(),
            left@ == encode_utf8(a@),
            right@ == encode_utf8(b@),
            i <= left@.len(),
            forall|k: int| 0 <= k < i ==> left@[k] == right@[k],
        decreases left@.len() - i,
    {
        if left[i] != right[i] {
            return false;
        }
        i = i + 1;
    }
    assert(left@ =~= right@);
    true
}

/// Whether `a` comes no later than `b` in the order of strings.
pub fn not_after(a: &str, b: &str) -> (r: bool)
    ensures
        r == text_le(a@, b@),
{
    let left: &[u8] = a.as_bytes();
    let right: &[u8] = b.as_bytes();
    let mut i: usize = 0;
    assert(left@.skip(0) =~= left@);
    assert(right@.skip(0) =~= right@);
    while i < left.len() && i < right.len() && left[i] == right[i]
        invariant
            i <= left@.len(),
            i <= right@.len(),
            bytes_le(left@, right@) == bytes_le(left@.skip(i as int), right@.skip(i as int)),
        decreases left@.len() - i,
    {
        assert(left@.skip(i as int).drop_first() =~= left@.skip(i + 1));
        assert(right@.skip(i as int).drop_first() =~= right@.skip(i + 1));
        i = i + 1;
    }
    if i == left.len() {
        true
    } else if i == right.len() {
        false
    } else {
        left[i] < right[i]
    }
}

// ---------------------------------------------------------------------------
// Laws
// ---------------------------------------------------------------------------

/// Trimming cuts white space off both ends and nothing else: what is left is a
/// stretch of the text, only white space lies outside it, and it neither starts
/// nor ends with white space.
pub proof fn law_trimming_cuts_white_space(s: Seq<char>) -> (ends: (int, int))
    ensures
        0 <= ends.0 <= ends.1 <= s.len(),
        trimmed(s) == s.subrange(ends.0, ends.1),
        forall|i: int|
            (0 <= i < ends.0 || ends.1 <= i < s.len()) ==> is_white(#[trigger] s[i]),
        ends.0 < ends.1 ==> !is_white(s[ends.0]) && !is_white(s[ends.1 - 1]),
{
    let from = lemma_leading_white(s);
    let rest = without_leading_white(s);
    let length = lemma_trailing_white(rest);
    let to = from + length;
    assert(trimmed(s) =~= s.subrange(from, to));
    assert forall|i: int| (0 <= i < from || to <= i < s.len()) implies is_white(
        #[trigger] s[i],
    ) by {
        if i >= from {
            assert(rest[i - from] == s[i]);
        }
    }
    if from < to {
        assert(rest[0] == s[from]);
        assert(rest[length - 1] == s[to - 1]);
    }
    (from, to)
}

proof fn lemma_leading_white(s: Seq<char>) -> (n: int)
    ensures
        0 <= n <= s.len(),
        without_leading_white(s) == s.skip(n),
        forall|i: int| 0 <= i < n ==> is_white(#[trigger] s[i]),
        n < s.len() ==> !is_white(s[n]),
    decreases s.len(),
{
    if s.len() > 0 && is_white(s[0]) {
        let n = lemma_leading_white(s.drop_first());
        assert(s.drop_first().skip(n) =~= s.skip(n + 1));
        assert forall|i: int| 0 <= i < n + 1 implies is_white(#[trigger] s[i]) by {
            if i > 0 {
                assert(s.drop_first()[i - 1] == s[i]);
            }
        }
        n + 1
    } else {
        assert(s.skip(0) =~= s);
        0
    }
}

proof fn lemma_trailing_white(s: Seq<char>) -> (n: int)
    ensures
        0 <= n <= s.len(),
        without_trailing_white(s) == s.take(n),
        forall|i: int| n <= i < s.len() ==> is_white(#[trigger] s[i]),
        n > 0 ==> !is_white(s[n - 1]),
    decreases s.len(),
{
    if s.len() > 0 && is_white(s.last()) {
        let n = lemma_trailing_white(s.drop_last());
        assert(s.drop_last().take(n) =~= s.take(n));
        assert forall|i: int| n <= i < s.len() implies is_white(#[trigger] s[i]) by {
            if i < s.len() - 1 {
                assert(s.drop_last()[i] == s[i]);
            }
        }
        n
    } else {
        assert(s.take(s.len() as int) =~= s);
        s.len() as int
    }
}

/// Pieces with a separator between each two.
pub open spec fn joined(pieces: Seq<Seq<char>>, separator: char) -> Seq<char>
    decreases pieces.len(),
{
    if pieces.len() <= 1 {
        pieces[0]
    } else {
        joined(pieces.drop_last(), separator).push(separator) + pieces.last()
    }
}

/// Splitting is undone by joining, and leaves no separator in any piece.
pub proof fn law_split_is_undone_by_joining(s: Seq<char>, separator: char)
    ensures
        split_at(s, separator).len() > 0,
        joined(split_at(s, separator), separator) == s,
        forall|i: int|
            #![trigger split_at(s, separator)[i]]
            0 <= i < split_at(s, separator).len() ==> !split_at(s, separator)[i].contains(
                separator,
            ),
    decreases s.len(),
{
    let pieces = split_at(s, separator);
    if s.len() == 0 {
        assert(s =~= Seq::<char>::empty());
        assert(pieces[0] =~= Seq::<char>::empty());
    } else {
        let before = split_at(s.drop_last(), separator);
        law_split_is_undone_by_joining(s.drop_last(), separator);
        assert(s.drop_last().push(s.last()) =~= s);
        if s.last() == separator {
            assert(pieces.drop_last() =~= before);
            assert(joined(pieces, separator) =~= s);
            assert forall|i: int| 0 <= i < pieces.len() implies !(
            #[trigger] pieces[i]).contains(separator) by {
                assert(i < before.len() ==> pieces[i] == before[i]);
            }
        } else {
            let last = before.last().push(s.last());
            assert(pieces.drop_last() =~= before.drop_last());
            assert(pieces.last() == last);
            assert(joined(pieces, separator) =~= s) by {
                if before.len() > 1 {
                    assert(joined(before, separator) == joined(
                        before.drop_last(),
                        separator,
                    ).push(separator) + before.last());
                }
            }
            assert forall|i: int| 0 <= i < pieces.len() implies !(
            #[trigger] pieces[i]).contains(separator) by {
                if i < before.len() - 1 {
                    assert(pieces[i] == before[i]);
                } else {
                    assert(!before[before.len() - 1].contains(separator));
                    if last.contains(separator) {
                        let k = choose|k: int| 0 <= k < last.len() && last[k] == separator;
                        assert(before.last()[k] == separator);
                    }
                }
            }
        }
    }
}

/// A row of digits writes a number in base ten: a further digit makes it ten
/// times as much, and the digit more.
pub proof fn law_digits_are_decimal(s: Seq<char>, c: char)
    requires
        '0' <= c <= '9',
    ensures
        digits_value(Seq::<char>::empty()) == 0,
        digits_value(s.push(c)) == 10 * digits_value(s) + (c as int - 48),
        is_digit(c),
{
    assert(s.push(c).drop_last() =~= s);
}

/// The decimal notation of a number is a row of digits that writes it, without
/// a zero in front of another digit.
pub proof fn law_decimal_notation(n: nat)
    ensures
        all_digits(decimal(n)),
        digits_value(decimal(n)) == n,
        decimal(n).len() > 0,
        decimal(n).len() > 1 ==> decimal(n)[0] != '0',
    decreases n,
{
    lemma_decimal_value(n);
    lemma_decimal_len(n);
    if n >= 10 {
        law_decimal_notation(n / 10);
        assert(decimal(n)[0] == decimal(n / 10)[0]);
        if n / 10 < 10 {
            assert(decimal(n / 10)[0] == digit_char((n / 10) as int));
        } else {
            lemma_decimal_len(n / 10);
        }
    }
}

/// The last hexadecimal digit of a number is that of its remainder by sixteen,
/// in small letters, and those before it are the digits of its quotient.
pub proof fn law_hex_notation(n: nat, width: nat)
    requires
        width > 0,
    ensures
        hex(n, width).len() == width,
        hex(n, width).last() == "0123456789abcdef"@[(n % 16) as int],
        hex(n, width).drop_last() == hex(n / 16, (width - 1) as nat),
    decreases width,
{
    reveal_strlit("0123456789abcdef");
    let before = hex(n / 16, (width - 1) as nat);
    if width > 1 {
        law_hex_notation(n / 16, (width - 1) as nat);
    }
    assert(hex(n, width).drop_last() =~= before);
    let d = (n % 16) as int;
    assert(hex_char(d) == "0123456789abcdef"@[d]);
}

/// Different numbers have different hexadecimal notations, as long as these have
/// room for them.
pub proof fn law_hex_tells_numbers_apart(a: nat, b: nat, width: nat)
    requires
        hex(a, width) == hex(b, width),
        a < vstd::arithmetic::power::pow(16, width),
        b < vstd::arithmetic::power::pow(16, width),
    ensures
        a == b,
    decreases width,
{
    reveal(vstd::arithmetic::power::pow);
    if width > 0 {
        law_hex_notation(a, width);
        law_hex_notation(b, width);
        let m = (width - 1) as nat;
        assert(vstd::arithmetic::power::pow(16, width) == 16 * vstd::arithmetic::power::pow(16, m));
        law_hex_tells_numbers_apart(a / 16, b / 16, m);
        let x = hex_char((a % 16) as int);
        let y = hex_char((b % 16) as int);
        assert(x == hex(a, width).last() && y == hex(b, width).last());
        assert(a % 16 == b % 16);
    }
}

/// Strings are ordered by the first byte in which they differ; one that the
/// other starts with comes first.
pub proof fn law_strings_are_ordered_by_bytes(a: Seq<char>, b: Seq<char>)
    ensures
        ({
            let x = encode_utf8(a);
            let y = encode_utf8(b);
            text_le(a, b) <==> exists|n: int|
                {
                    &&& 0 <= n <= x.len() && n <= y.len()
                    &&& #[trigger] x.take(n) == y.take(n)
                    &&& n == x.len() || (n < y.len() && x[n] < y[n])
                }
        }),
{
    lemma_first_difference(encode_utf8(a), encode_utf8(b));
}

proof fn lemma_first_difference(x: Seq<u8>, y: Seq<u8>)
    ensures
        bytes_le(x, y) <==> exists|n: int|
            {
                &&& 0 <= n <= x.len() && n <= y.len()
                &&& #[trigger] x.take(n) == y.take(n)
                &&& n == x.len() || (n < y.len() && x[n] < y[n])
            },
    decreases x.len(),
{
    if x.len() == 0 {
        assert(x.take(0) =~= y.take(0));
    } else if y.len() == 0 {
    } else if x[0] != y[0] {
        assert(x.take(0) =~= y.take(0));
        if exists|n: int|
            {
                &&& 0 <= n <= x.len() && n <= y.len()
                &&& #[trigger] x.take(n) == y.take(n)
                &&& n == x.len() || (n < y.len() && x[n] < y[n])
            } {
            let n = choose|n: int|
                {
                    &&& 0 <= n <= x.len() && n <= y.len()
                    &&& #[trigger] x.take(n) == y.take(n)
                    &&& n == x.len() || (n < y.len() && x[n] < y[n])
                };
            if n > 0 {
                assert(x.take(n)[0] == y.take(n)[0]);
            }
        }
    } else {
        let u = x.drop_first();
        let v = y.drop_first();
        lemma_first_difference(u, v);
        if bytes_le(u, v) {
            let n = choose|n: int|
                {
                    &&& 0 <= n <= u.len() && n <= v.len()
                    &&& #[trigger] u.take(n) == v.take(n)
                    &&& n == u.len() || (n < v.len() && u[n] < v[n])
                };
            assert(x.take(n + 1) =~= seq![x[0]] + u.take(n));
            assert(y.take(n + 1) =~= seq![y[0]] + v.take(n));
            assert(n < v.len() && n < u.len() ==> x[n + 1] == u[n] && y[n + 1] == v[n]);
        }
        if exists|n: int|
            {
                &&& 0 <= n <= x.len() && n <= y.len()
                &&& #[trigger] x.take(n) == y.take(n)
                &&& n == x.len() || (n < y.len() && x[n] < y[n])
            } {
            let n = choose|n: int|
                {
                    &&& 0 <= n <= x.len() && n <= y.len()
                    &&& #[trigger] x.take(n) == y.take(n)
                    &&& n == x.len() || (n < y.len() && x[n] < y[n])
                };
            assert(n > 0);
            assert(u.take(n - 1) =~= x.take(n).drop_first());
            assert(v.take(n - 1) =~= y.take(n).drop_first());
            assert(n < x.len() && n < y.len() ==> u[n - 1] == x[n] && v[n - 1] == y[n]);
        }
    }
}

/// Two texts are the same but for the case of ASCII letters exactly when they
/// are equally long and each two characters are the same, or the capital and the
/// small form of one ASCII letter.
pub proof fn law_case_is_that_of_ascii_letters(a: Seq<char>, b: Seq<char>)
    ensures
        ascii_lower(a) == ascii_lower(b) <==> a.len() == b.len() && forall|i: int|
            0 <= i < a.len() ==> {
                ||| #[trigger] a[i] == b[i]
                ||| 'A' <= a[i] <= 'Z' && b[i] as int == a[i] as int + 32
                ||| 'A' <= b[i] <= 'Z' && a[i] as int == b[i] as int + 32
            },
{
    let x = ascii_lower(a);
    let y = ascii_lower(b);
    if x == y {
        assert(a.len() == x.len() && b.len() == y.len());
        assert forall|i: int| 0 <= i < a.len() implies {
            ||| #[trigger] a[i] == b[i]
            ||| 'A' <= a[i] <= 'Z' && b[i] as int == a[i] as int + 32
            ||| 'A' <= b[i] <= 'Z' && a[i] as int == b[i] as int + 32
        } by {
            assert(x[i] == lower_char(a[i]) && y[i] == lower_char(b[i]));
        }
    }
    if a.len() == b.len() && forall|i: int|
        0 <= i < a.len() ==> {
            ||| #[trigger] a[i] == b[i]
            ||| 'A' <= a[i] <= 'Z' && b[i] as int == a[i] as int + 32
            ||| 'A' <= b[i] <= 'Z' && a[i] as int == b[i] as int + 32
        } {
        assert forall|i: int| 0 <= i < a.len() implies x[i] == y[i] by {
            assert(a[i] == a[i]);
        }
        assert(x =~= y);
    }
}

/// Whether `part` occurs in `s`.
#[verifier::opaque]
pub open spec fn mentions(s: Seq<char>, part: Seq<char>) -> bool {
    exists|i: int|
        0 <= i && i + part.len() <= s.len() && #[trigger] s.subrange(i, i + part.len()) == part
}

/// What stands between two texts occurs in the whole.
pub proof fn lemma_mentions(before: Seq<char>, part: Seq<char>, after: Seq<char>)
    ensures
        mentions(before + part + after, part),
{
    reveal(mentions);
    let s = before + part + after;
    let i = before.len() as int;
    assert(s.subrange(i, i + part.len()) =~= part);
}

/// Each two neighbours of two texts occur in the whole.
pub proof fn lemma_two_pieces(a: Seq<char>, b: Seq<char>)
    ensures
        mentions(a + b, a + b),
{
    let none = Seq::<char>::empty();
    lemma_mentions(none, a + b, none);
    assert(a + b =~= none + (a + b) + none);
}

/// Each two neighbours of three texts occur in the whole.
pub proof fn lemma_three_pieces(a: Seq<char>, b: Seq<char>, c: Seq<char>)
    ensures
        mentions(a + b + c, a + b),
        mentions(a + b + c, b + c),
{
    let none = Seq::<char>::empty();
    lemma_mentions(none, a + b, c);
    assert(a + b + c =~= none + (a + b) + c);
    lemma_mentions(a, b + c, none);
    assert(a + b + c =~= a + (b + c) + none);
}

/// Each two neighbours of four texts occur in the whole.
pub proof fn lemma_four_pieces(a: Seq<char>, b: Seq<char>, c: Seq<char>, d: Seq<char>)
    ensures
        mentions(a + b + c + d, a + b),
        mentions(a + b + c + d, b + c),
        mentions(a + b + c + d, c + d),
{
    let none = Seq::<char>::empty();
    lemma_mentions(none, a + b, c + d);
    assert(a + b + c + d =~= none + (a + b) + (c + d));
    lemma_mentions(a, b + c, d);
    assert(a + b + c + d =~= a + (b + c) + d);
    lemma_mentions(a + b, c + d, none);
    assert(a + b + c + d =~= (a + b) + (c + d) + none);
}

/// Each two neighbours of five texts occur in the whole.
pub proof fn lemma_five_pieces(a: Seq<char>, b: Seq<char>, c: Seq<char>, d: Seq<char>, e: Seq<char>)
    ensures
        mentions(a + b + c + d + e, a + b),
        mentions(a + b + c + d + e, b + c),
        mentions(a + b + c + d + e, c + d),
        mentions(a + b + c + d + e, d + e),
{
    let none = Seq::<char>::empty();
    lemma_mentions(none, a + b, c + d + e);
    assert(a + b + c + d + e =~= none + (a + b) + (c + d + e));
    lemma_mentions(a, b + c, d + e);
    assert(a + b + c + d + e =~= a + (b + c) + (d + e));
    lemma_mentions(a + b, c + d, e);
    assert(a + b + c + d + e =~= (a + b) + (c + d) + e);
    lemma_mentions(a + b + c, d + e, none);
    assert(a + b + c + d + e =~= (a + b + c) + (d + e) + none);
}

/// Each two neighbours of six texts occur in the whole.
pub proof fn lemma_six_pieces(a: Seq<char>, b: Seq<char>, c: Seq<char>, d: Seq<char>, e: Seq<char>, f: Seq<char>)
    ensures
        mentions(a + b + c + d + e + f, a + b),
        mentions(a + b + c + d + e + f, b + c),
        mentions(a + b + c + d + e + f, c + d),
        mentions(a + b + c + d + e + f, d + e),
        mentions(a + b + c + d + e + f, e + f),
{
    let none = Seq::<char>::empty();
    lemma_mentions(none, a + b, c + d + e + f);
    assert(a + b + c + d + e + f =~= none + (a + b) + (c + d + e + f));
    lemma_mentions(a, b + c, d + e + f);
    assert(a + b + c + d + e + f =~= a + (b + c) + (d + e + f));
    lemma_mentions(a + b, c + d, e + f);
    assert(a + b + c + d + e + f =~= (a + b) + (c + d) + (e + f));
    lemma_mentions(a + b + c, d + e, f);
    assert(a + b + c + d + e + f =~= (a + b + c) + (d + e) + f);
    lemma_mentions(a + b + c + d, e + f, none);
    assert(a + b + c + d + e + f =~= (a + b + c + d) + (e + f) + none);
}

/// A text occurs in itself.
pub proof fn lemma_whole(s: Seq<char>)
    ensures
        mentions(s, s),
{
    let none = Seq::<char>::empty();
    lemma_mentions(none, s, none);
    assert(none + s + none =~= s);
}

} // verus!
