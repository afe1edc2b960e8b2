use chrono::{DateTime, Datelike, NaiveDate, Timelike};
use chrono_tz::Tz;

use transit_ingest::date::Date;
use transit_ingest::error::FeedError;
use transit_ingest::gtfs::{parse_date, GtfsTime};
use transit_ingest::gtfs::time::date_from;
use transit_ingest::zone::{Timezone, UtcInstant};

const NY: Tz = chrono_tz::America::New_York;

fn date(y: i32, m: u32, d: u32) -> Date {
    Date::from_day(NaiveDate::from_ymd_opt(y, m, d).unwrap().num_days_from_ce()).unwrap()
}

fn naive(y: i32, m: u32, d: u32) -> NaiveDate {
    NaiveDate::from_ymd_opt(y, m, d).unwrap()
}

fn ny() -> Timezone {
    Timezone::named("America/New_York").unwrap()
}

fn parse(raw: &str) -> GtfsTime {
    GtfsTime::parse(raw, "stop_times.txt").unwrap().unwrap()
}

fn resolve(time: GtfsTime, on: Date) -> DateTime<Tz> {
    let instant = time.resolve(on, &ny()).unwrap();
    DateTime::from_timestamp(instant.seconds(), 0).unwrap().with_timezone(&NY)
}

#[test]
fn parses_ordinary_times() {
    let t = GtfsTime::parse("06:48:00", "stop_times.txt").unwrap().unwrap();
    assert_eq!(t.seconds(), 6 * 3600 + 48 * 60);
    assert!(!t.rolls_over());
}

#[test]
fn parses_single_digit_hour() {
    let t = GtfsTime::parse("6:48:00", "stop_times.txt").unwrap().unwrap();
    assert_eq!(t.seconds(), 6 * 3600 + 48 * 60);
}

#[test]
fn empty_time_is_absence_not_an_error() {
    assert_eq!(GtfsTime::parse("", "stop_times.txt").unwrap(), None);
    assert_eq!(GtfsTime::parse("   ", "stop_times.txt").unwrap(), None);
}

#[test]
fn parses_hours_past_midnight() {
    for (raw, hour) in [("24:00:00", 24), ("25:30:00", 25), ("28:15:00", 28)] {
        let t = GtfsTime::parse(raw, "stop_times.txt").unwrap().unwrap();
        assert_eq!(t.seconds() / 3600, hour);
        assert!(t.rolls_over(), "{raw} should roll over");
    }
}

#[test]
fn rejects_malformed_times() {
    for raw in ["", "x"].iter().skip(1).chain(
        [
            "12:60:00",
            "12:00:60",
            "48:00:00",
            "12:00",
            "12:00:00:00",
            "-1:00:00",
        ]
        .iter(),
    ) {
        assert!(
            GtfsTime::parse(raw, "stop_times.txt").is_err(),
            "{raw} should be rejected"
        );
    }
}

#[test]
fn a_bad_time_names_its_file_and_the_trimmed_value() {
    let err = GtfsTime::parse("  8:5 ", "stop_times.txt").unwrap_err();
    assert_eq!(
        err,
        FeedError::BadTime { file: "stop_times.txt".to_string(), value: "8:5".to_string() }
    );
    assert_eq!(err.message(), "`8:5` in stop_times.txt is not a valid GTFS time");
}

#[test]
fn a_time_is_one_or_two_digits_of_hours_and_two_of_each_other_part() {
    assert_eq!(parse("47:59:59").seconds(), 172_799);
    assert_eq!(parse("0:00:00").seconds(), 0);
    assert_eq!(parse("00:00:00").seconds(), 0);
    assert_eq!(parse(" 6:01:02\n").seconds(), 6 * 3600 + 62);
    for raw in [
        "8:5:00", "08:05:0", "0:0:0", "6:1:1", "8:005:00", "08:05:000", "006:00:00",
        "0000006:01:01", "+6:00:00", "06:+1:00", "06:00:-0", "-1:00:00", "6: 1:00", " 6: 01:00",
        "6:01:", ":01:01", "06:0a:00", "0x:00:00", "06:00", "06:00:00:00", "06.00.00",
        "2147483648:00:00", "\u{0660}6:00:00", "48:00:00", "06:60:00", "06:00:60",
    ] {
        let err = GtfsTime::parse(raw, "f").unwrap_err();
        assert_eq!(
            err,
            FeedError::BadTime { file: "f".to_string(), value: raw.trim().to_string() },
            "{raw}"
        );
    }
}

#[test]
fn midnight_rollover_lands_on_the_next_calendar_day() {
    let resolved = resolve(parse("25:30:00"), date(2026, 3, 10));

    assert_eq!(resolved.date_naive(), naive(2026, 3, 11));
    assert_eq!(resolved.hour(), 1);
    assert_eq!(resolved.minute(), 30);
}

#[test]
fn service_date_is_preserved_across_rollover() {
    let service_date = date(2026, 3, 10);
    let before = resolve(parse("23:50:00"), service_date);
    let after = resolve(parse("24:20:00"), service_date);

    assert_eq!(before.date_naive(), naive(2026, 3, 10));
    assert_eq!(after.date_naive(), naive(2026, 3, 11));
    assert_eq!((after - before).num_minutes(), 30);
}

#[test]
fn spring_forward_resolves_without_hitting_the_missing_hour() {
    let resolved = resolve(parse("02:30:00"), date(2026, 3, 8));

    assert_eq!(resolved.naive_utc().to_string(), "2026-03-08 06:30:00");
    assert_eq!(resolved.hour(), 1);
}

#[test]
fn fall_back_resolves_inside_the_repeated_hour() {
    let resolved = resolve(parse("01:30:00"), date(2026, 11, 1));

    assert_eq!(resolved.naive_utc().to_string(), "2026-11-01 06:30:00");
}

#[test]
fn times_after_a_dst_transition_match_the_wall_clock() {
    for (service_date, naive_date) in [
        (date(2026, 3, 8), naive(2026, 3, 8)),
        (date(2026, 11, 1), naive(2026, 11, 1)),
    ] {
        let resolved = resolve(parse("07:00:00"), service_date);

        assert_eq!(resolved.date_naive(), naive_date);
        assert_eq!(resolved.hour(), 7, "on {naive_date}");
        assert_eq!(resolved.minute(), 0);
    }
}

#[test]
fn a_dst_day_is_not_twenty_four_hours_long() {
    let noon = GtfsTime::from_seconds(12 * 3600);
    let spring = resolve(noon, date(2026, 3, 8));
    let day_after = resolve(noon, date(2026, 3, 9));
    assert_eq!((day_after - spring).num_hours(), 24);

    let start = GtfsTime::from_seconds(0);
    let end = GtfsTime::from_seconds(24 * 3600);
    assert_eq!(
        (resolve(end, date(2026, 3, 8)) - resolve(start, date(2026, 3, 8))).num_hours(),
        24,
        "elapsed seconds are elapsed seconds; it is the wall clock that jumps"
    );
}

#[test]
fn twenty_four_hundred_is_the_next_midnight() {
    let resolved = resolve(parse("24:00:00"), date(2026, 6, 15));

    assert_eq!(resolved.date_naive(), naive(2026, 6, 16));
    assert_eq!(resolved.hour(), 0);
}

#[test]
fn displays_round_trip() {
    for raw in ["00:06:00", "23:50:00", "28:15:00"] {
        let t = GtfsTime::parse(raw, "stop_times.txt").unwrap().unwrap();
        assert_eq!(t.to_text(), raw);
    }
}

#[test]
fn every_time_within_bounds_round_trips() {
    for seconds in (0..172_800).step_by(97) {
        let text = GtfsTime::from_seconds(seconds).to_text();
        assert_eq!(parse(&text).seconds(), seconds, "{text}");
    }
}

#[test]
fn times_display_as_their_parts_do() {
    for n in [0, 5, 59, 60, 3599, 86_400, 360_000, -1, -61, -3661, i32::MAX, i32::MIN] {
        let expected = format!("{:02}:{:02}:{:02}", n / 3600, (n % 3600) / 60, n % 60);
        assert_eq!(GtfsTime::from_seconds(n).to_text(), expected);
    }
}

#[test]
fn parses_dates() {
    assert_eq!(parse_date("20260315", "calendar.txt").unwrap(), date(2026, 3, 15));
    assert!(parse_date("2026-03-15", "calendar.txt").is_err());
    assert!(parse_date("20261332", "calendar.txt").is_err());
}

#[test]
fn dates_are_trimmed_but_reported_as_they_stand() {
    assert_eq!(parse_date(" 20260315\t", "calendar.txt").unwrap(), date(2026, 3, 15));
    let err = parse_date(" 2026 ", "calendar.txt").unwrap_err();
    assert_eq!(
        err,
        FeedError::BadDate { file: "calendar.txt".to_string(), value: " 2026 ".to_string() }
    );
    assert_eq!(
        err.message(),
        "` 2026 ` in calendar.txt is not a valid GTFS date (expected YYYYMMDD)"
    );
}

#[test]
fn eight_digits_are_a_date_exactly_when_the_year_has_that_day() {
    for y in [0, 1, 4, 100, 400, 1900, 2000, 2023, 2024, 2026, 9999] {
        for m in 0..=13u32 {
            for d in 0..=32u32 {
                let raw = format!("{y:04}{m:02}{d:02}");
                let expected = NaiveDate::from_ymd_opt(y, m, d).map(|n| n.num_days_from_ce());
                let read = parse_date(&raw, "f").ok().map(|date| date.day());
                assert_eq!(read, expected, "{raw}");
            }
        }
    }
}

#[test]
fn anything_but_eight_digits_is_no_date() {
    for raw in [
        "", " ", "2026", "2026031", "202603150", "2026-03-15", "2026 315", "2026 3 5", "+2026315",
        "-2026031", "2026031a", "20260\u{0663}15", "2026/3/5",
    ] {
        assert_eq!(
            parse_date(raw, "f"),
            Err(FeedError::BadDate { file: "f".to_string(), value: raw.to_string() }),
            "{raw}"
        );
    }
}

#[test]
fn a_reading_decides_what_a_date_field_is() {
    assert_eq!(date_from(Some(739_700), "x", "f").unwrap().day(), 739_700);
    assert_eq!(
        date_from(None, "x", "f").unwrap_err(),
        FeedError::BadDate { file: "f".to_string(), value: "x".to_string() }
    );
}

#[test]
fn noon_decides_what_a_time_resolves_to() {
    let on = date(2026, 4, 1);
    let t = parse("06:00:00");
    assert_eq!(
        t.resolve_from(Some(1_000_000), on, "Z").unwrap(),
        UtcInstant::from_seconds(1_000_000 - 43_200 + 21_600).unwrap()
    );
    let err = t.resolve_from(None, on, "Nowhere/Zone").unwrap_err();
    assert_eq!(
        err,
        FeedError::AmbiguousLocalTime {
            local: "2026-04-01 12:00:00".to_string(),
            timezone: "Nowhere/Zone".to_string(),
        }
    );
    assert_eq!(
        err.message(),
        "local time 2026-04-01 12:00:00 is ambiguous or nonexistent in Nowhere/Zone"
    );
}

#[test]
fn a_day_without_a_noon_does_not_resolve() {
    // Samoa skipped the 30th of December 2011 altogether.
    let apia = Timezone::named("Pacific/Apia").unwrap();
    let err = parse("06:00:00").resolve(date(2011, 12, 30), &apia).unwrap_err();
    assert!(err.message().contains("2011-12-30 12:00:00"), "got: {}", err.message());
    assert!(err.message().contains("Pacific/Apia"));
}
