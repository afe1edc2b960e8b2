use chrono::{Datelike, NaiveDate};

use transit_ingest::date::Date;
use transit_ingest::window::{plan, reachable, settle, Plan, Shared, WindowError};

fn date(y: i32, m: u32, d: u32) -> Date {
    Date::from_day(NaiveDate::from_ymd_opt(y, m, d).unwrap().num_days_from_ce()).unwrap()
}

fn march(d: u32) -> Date {
    date(2026, 3, d)
}

#[test]
fn no_option_means_the_days_that_all_agencies_cover() {
    assert!(matches!(plan(None, None, None), Ok(Plan::FromCoverage)));
    let mut shared = Shared::new();
    assert!(shared.add("A", Some((march(1), march(20)))).is_ok());
    assert!(shared.add("B", Some((march(5), march(31)))).is_ok());
    let covered = shared.days().unwrap();
    assert!(reachable(covered, None, None, None));
    assert_eq!(settle(covered, None, None, None), Ok((march(5), march(20))));
}

#[test]
fn without_a_day_in_common_there_is_no_default_window() {
    let mut shared = Shared::new();
    assert!(shared.add("A", Some((march(1), march(4)))).is_ok());
    assert!(shared.add("B", Some((march(5), march(31)))).is_ok());
    let covered = shared.days().unwrap();
    assert_eq!(settle(covered, None, None, None), Err(WindowError::NothingShared));
}

#[test]
fn both_ends_fix_the_window() {
    for days in [None, Some(3)] {
        match plan(Some(march(1)), Some(march(1)), days) {
            Ok(Plan::Fixed { start, end }) => assert_eq!((start, end), (march(1), march(1))),
            _ => panic!("both ends are given"),
        }
    }
}

#[test]
fn one_end_or_a_number_of_days_asks_the_feeds() {
    for (from, to, days) in [
        (Some(march(1)), None, None),
        (None, Some(march(1)), None),
        (None, None, Some(7)),
        (Some(march(1)), None, Some(1)),
    ] {
        assert!(matches!(plan(from, to, days), Ok(Plan::FromCoverage)));
    }
}

#[test]
fn each_window_fault_has_its_error() {
    let message = |from, to, days| plan(from, to, days).err().unwrap().message();
    assert_eq!(plan(None, None, Some(0)).err(), Some(WindowError::ZeroDays));
    assert_eq!(message(Some(march(2)), Some(march(1)), Some(0)), "--days must be at least 1");
    assert_eq!(
        message(Some(march(2)), Some(march(1)), None),
        "--to 2026-03-01 is before --from 2026-03-02"
    );
    let mut shared = Shared::new();
    assert_eq!(
        shared.add("MTA_LIRR", None).unwrap_err().message(),
        "MTA_LIRR has no service dates at all"
    );
    assert_eq!(
        settle((march(9), march(2)), None, None, Some(u32::MAX)).unwrap_err().message(),
        "the selected agencies share no service dates; build them one at a time, or pass --from \
         and --to explicitly"
    );
    assert_eq!(
        settle((march(2), march(9)), Some(march(10)), None, None).unwrap_err().message(),
        "the requested window 2026-03-10 .. 2026-03-09 is empty"
    );
}

#[test]
fn agencies_share_the_intersection_of_their_coverage() {
    let mut shared = Shared::new();
    assert_eq!(shared.days(), None);
    assert!(shared.add("A", Some((march(1), march(20)))).is_ok());
    assert_eq!(shared.days(), Some((march(1), march(20))));
    assert!(shared.add("B", Some((march(5), march(31)))).is_ok());
    assert!(shared.add("C", None).is_err());
    assert_eq!(shared.days(), Some((march(5), march(20))));
    assert!(shared.add("D", Some((march(25), march(31)))).is_ok());
    assert_eq!(shared.days(), Some((march(25), march(20))));
}

#[test]
fn a_window_cannot_end_beyond_the_calendar() {
    let covered = (march(5), march(20));
    assert!(reachable(covered, None, None, Some(7)));
    assert!(!reachable(covered, None, None, Some(u32::MAX)));
    assert!(!reachable(covered, None, None, Some(100_000_000)));
    assert!(reachable(covered, None, Some(march(9)), Some(u32::MAX)));
    assert!(reachable((march(20), march(5)), None, None, Some(u32::MAX)));
}

#[test]
fn the_window_lies_within_the_shared_days() {
    let covered = (march(5), march(20));
    assert_eq!(settle(covered, None, None, None), Ok(covered));
    assert_eq!(settle(covered, None, None, Some(7)), Ok((march(5), march(11))));
    assert_eq!(settle(covered, None, None, Some(1)), Ok((march(5), march(5))));
    assert_eq!(settle(covered, None, None, Some(100)), Ok(covered));
    assert_eq!(settle(covered, Some(march(10)), None, Some(2)), Ok((march(10), march(11))));
    assert_eq!(settle(covered, Some(march(1)), None, None), Ok((march(1), march(20))));
    assert_eq!(settle(covered, None, Some(march(31)), Some(2)), Ok((march(5), march(31))));
}
