use chrono::{Datelike, NaiveDate};

use transit_ingest::date::Date;
use transit_ingest::date_set::DateSet;
use transit_ingest::error::{Error, FeedError};
use transit_ingest::gtfs::calendar::MAX_SERVICE_SPAN_DAYS;
use transit_ingest::gtfs::{CalendarDateRow, CalendarRow, ServiceCalendar, StaticFeed};

fn date(y: i32, m: u32, d: u32) -> Date {
    Date::from_day(NaiveDate::from_ymd_opt(y, m, d).unwrap().num_days_from_ce()).unwrap()
}

/// A feed carrying only calendar rows; the rest is irrelevant to expansion.
fn feed(calendar: Vec<CalendarRow>, calendar_dates: Vec<CalendarDateRow>) -> StaticFeed {
    StaticFeed {
        agency_id: "TEST".to_string(),
        agencies: Vec::new(),
        routes: Vec::new(),
        stops: Vec::new(),
        trips: Vec::new(),
        stop_times: Vec::new(),
        calendar,
        calendar_dates,
    }
}

fn weekly(service_id: &str, flags: [u8; 7], start: &str, end: &str) -> CalendarRow {
    CalendarRow {
        service_id: service_id.to_string(),
        monday: flags[0],
        tuesday: flags[1],
        wednesday: flags[2],
        thursday: flags[3],
        friday: flags[4],
        saturday: flags[5],
        sunday: flags[6],
        start_date: start.to_string(),
        end_date: end.to_string(),
    }
}

fn exception(service_id: &str, date: &str, exception_type: u8) -> CalendarDateRow {
    CalendarDateRow {
        service_id: service_id.to_string(),
        date: date.to_string(),
        exception_type,
    }
}

const WEEKDAYS: [u8; 7] = [1, 1, 1, 1, 1, 0, 0];
const WEEKENDS: [u8; 7] = [0, 0, 0, 0, 0, 1, 1];

#[test]
fn expands_weekday_flags_across_a_range() {
    // 2026-03-02 is a Monday; the range covers exactly two weeks.
    let calendar = ServiceCalendar::build(&feed(
        vec![weekly("WK", WEEKDAYS, "20260302", "20260315")],
        Vec::new(),
    )).ok().unwrap();

    let dates = calendar.dates_for("WK");
    assert_eq!(dates.len(), 10, "two weeks of weekdays");
    assert!(dates.contains(&date(2026, 3, 2)), "Monday runs");
    assert!(!dates.contains(&date(2026, 3, 7)), "Saturday does not");
}

#[test]
fn the_range_is_inclusive_at_both_ends() {
    // Off-by-one here silently drops the first and last day of service.
    let calendar = ServiceCalendar::build(&feed(
        vec![weekly("WK", WEEKDAYS, "20260302", "20260306")],
        Vec::new(),
    )).ok().unwrap();

    let dates = calendar.dates_for("WK");
    assert_eq!(dates.first(), Some(&date(2026, 3, 2)));
    assert_eq!(dates.last(), Some(&date(2026, 3, 6)));
    assert_eq!(dates.len(), 5);
}

#[test]
fn a_single_day_range_yields_one_day() {
    let calendar = ServiceCalendar::build(&feed(
        vec![weekly("WK", WEEKDAYS, "20260302", "20260302")],
        Vec::new(),
    )).ok().unwrap();

    assert_eq!(calendar.dates_for("WK").len(), 1);
}

#[test]
fn calendar_dates_only_feeds_expand() {
    // LIRR and Metro-North ship no calendar.txt whatsoever. Every operating
    // day arrives as an exception_type 1 row.
    let calendar = ServiceCalendar::build(&feed(
        Vec::new(),
        vec![
            exception("GO501", "20260302", 1),
            exception("GO501", "20260303", 1),
            exception("GO502", "20260307", 1),
        ],
    )).ok().unwrap();

    assert_eq!(calendar.dates_for("GO501").len(), 2);
    assert_eq!(calendar.dates_for("GO502").len(), 1);
    assert_eq!(calendar.service_count(), 2);
}

#[test]
fn an_exception_removes_a_day_from_a_weekly_pattern() {
    // How the Subway feed expresses a holiday: a weekday service with the
    // holiday cut out of it.
    let calendar = ServiceCalendar::build(&feed(
        vec![weekly("WK", WEEKDAYS, "20260302", "20260306")],
        vec![exception("WK", "20260304", 2)],
    )).ok().unwrap();

    let dates = calendar.dates_for("WK");
    assert_eq!(dates.len(), 4);
    assert!(!dates.contains(&date(2026, 3, 4)));
}

#[test]
fn an_exception_adds_a_day_outside_the_range() {
    // Additions are not clipped to the calendar.txt range -- that is how a
    // feed extends service by one day without reissuing the range.
    let calendar = ServiceCalendar::build(&feed(
        vec![weekly("WK", WEEKDAYS, "20260302", "20260306")],
        vec![exception("WK", "20260307", 1)],
    )).ok().unwrap();

    assert!(calendar.runs_on("WK", date(2026, 3, 7)), "Saturday added");
    assert_eq!(calendar.dates_for("WK").len(), 6);
}

#[test]
fn removal_wins_over_addition_on_the_same_date() {
    // Contradictory rows do occur. Resolving in file order would make the
    // answer depend on which row happened to come last; a removal is the
    // more specific statement, so it wins either way.
    for rows in [
        vec![exception("S", "20260704", 1), exception("S", "20260704", 2)],
        vec![exception("S", "20260704", 2), exception("S", "20260704", 1)],
    ] {
        let calendar = ServiceCalendar::build(&feed(Vec::new(), rows)).ok().unwrap();
        assert!(!calendar.runs_on("S", date(2026, 7, 4)));
    }
}

#[test]
fn removing_a_date_from_an_unknown_service_is_tolerated() {
    let calendar =
        ServiceCalendar::build(&feed(Vec::new(), vec![exception("GHOST", "20260704", 2)]))
            .ok()
            .unwrap();

    assert!(!calendar.runs_on("GHOST", date(2026, 7, 4)));
}

#[test]
fn an_unknown_exception_type_is_rejected() {
    // Only 1 and 2 are defined. A 3 means the producer meant something we
    // cannot guess, and guessing would silently misstate service.
    let err = ServiceCalendar::build(&feed(Vec::new(), vec![exception("S", "20260704", 3)]))
        .err().unwrap();
    assert!(err.message().contains("exception_type"), "got: {}", err.message());
}

#[test]
fn an_inverted_range_is_empty_rather_than_an_error() {
    let calendar = ServiceCalendar::build(&feed(
        vec![weekly("WK", WEEKDAYS, "20260306", "20260302")],
        Vec::new(),
    )).ok().unwrap();

    assert!(calendar.dates_for("WK").is_empty());
    assert_eq!(calendar.service_count(), 1, "the service still exists");
}

#[test]
fn an_implausible_range_is_rejected_rather_than_expanded() {
    // A garbled end_date would otherwise expand to millions of dates and
    // present as a hang instead of a parse error.
    let err = ServiceCalendar::build(&feed(
        vec![weekly("WK", WEEKDAYS, "20260302", "21260302")],
        Vec::new(),
    ))
    .err().unwrap();
    assert!(err.message().contains("WK"), "got: {}", err.message());
}

#[test]
fn a_malformed_date_names_its_file() {
    let err = ServiceCalendar::build(&feed(Vec::new(), vec![exception("S", "2026-07-04", 1)]))
        .err().unwrap();
    assert!(err.message().contains("calendar_dates.txt"), "got: {}", err.message());
}

#[test]
fn unknown_services_have_no_dates_rather_than_panicking() {
    let calendar = ServiceCalendar::default();
    assert!(calendar.dates_for("NOPE").is_empty());
    assert!(!calendar.runs_on("NOPE", date(2026, 3, 2)));
    assert_eq!(calendar.coverage(), None);
}

#[test]
fn coverage_spans_every_service() {
    let calendar = ServiceCalendar::build(&feed(
        vec![
            weekly("WK", WEEKDAYS, "20260302", "20260306"),
            weekly("WE", WEEKENDS, "20260307", "20260315"),
        ],
        Vec::new(),
    )).ok().unwrap();

    assert_eq!(
        calendar.coverage(),
        Some((date(2026, 3, 2), date(2026, 3, 15)))
    );
}

#[test]
fn coverage_ignores_a_service_that_runs_nowhere() {
    // An empty service must not drag coverage to None or to a bogus bound.
    let calendar = ServiceCalendar::build(&feed(
        vec![
            weekly("WK", WEEKDAYS, "20260302", "20260306"),
            weekly("DEAD", WEEKENDS, "20260306", "20260302"),
        ],
        Vec::new(),
    )).ok().unwrap();

    assert_eq!(
        calendar.coverage(),
        Some((date(2026, 3, 2), date(2026, 3, 6)))
    );
}

#[test]
fn services_on_a_date_are_sorted_and_complete() {
    let calendar = ServiceCalendar::build(&feed(
        vec![
            weekly("WK", WEEKDAYS, "20260302", "20260306"),
            weekly("WE", WEEKENDS, "20260302", "20260308"),
        ],
        vec![exception("EXTRA", "20260302", 1)],
    )).ok().unwrap();

    assert_eq!(calendar.services_on(date(2026, 3, 2)), ["EXTRA", "WK"]);
    assert_eq!(calendar.services_on(date(2026, 3, 7)), ["WE"]);
    assert!(calendar.services_on(date(2026, 4, 1)).is_empty());
}

#[test]
fn active_dates_are_the_union_across_services() {
    let calendar = ServiceCalendar::build(&feed(
        vec![
            weekly("WK", WEEKDAYS, "20260302", "20260306"),
            weekly("WE", WEEKENDS, "20260307", "20260308"),
        ],
        Vec::new(),
    )).ok().unwrap();

    // A full contiguous week, assembled from two disjoint services.
    let active = calendar.active_dates();
    assert_eq!(active.len(), 7);
    assert_eq!(active.first(), Some(&date(2026, 3, 2)));
    assert_eq!(active.last(), Some(&date(2026, 3, 8)));
}

#[test]
fn a_service_defined_in_both_files_unions_them() {
    // Legal and used: a weekly pattern plus extra dates outside the range.
    let calendar = ServiceCalendar::build(&feed(
        vec![weekly("WK", WEEKDAYS, "20260302", "20260306")],
        vec![
            exception("WK", "20260307", 1),
            exception("WK", "20260302", 2),
        ],
    )).ok().unwrap();

    let dates = calendar.dates_for("WK");
    assert!(!dates.contains(&date(2026, 3, 2)), "removed");
    assert!(dates.contains(&date(2026, 3, 7)), "added");
    assert_eq!(dates.len(), 5);
}

#[test]
fn each_calendar_fault_has_its_error() {
    let build = |weekly, dates| ServiceCalendar::build(&feed(weekly, dates)).err().unwrap();
    assert_eq!(
        build(vec![weekly("WK", WEEKDAYS, "x", "y")], Vec::new()),
        Error::Feed(FeedError::BadDate { file: "calendar.txt".to_string(), value: "x".to_string() })
    );
    assert_eq!(
        build(vec![weekly("WK", WEEKDAYS, "20260302", "y")], Vec::new()),
        Error::Feed(FeedError::BadDate { file: "calendar.txt".to_string(), value: "y".to_string() })
    );
    let implausible = build(vec![weekly("WK", WEEKDAYS, "20260302", "21260302")], Vec::new());
    assert_eq!(
        implausible.message(),
        "service `WK` spans an implausible range 2026-03-02..=2126-03-02"
    );
    let unknown = build(Vec::new(), vec![exception("S", "20260704", 3)]);
    assert_eq!(
        unknown,
        Error::Feed(FeedError::BadExceptionType { service_id: "S".to_string(), value: 3 })
    );
    assert_eq!(
        unknown.message(),
        "unknown exception_type `3` for service `S` in calendar_dates.txt"
    );
}

#[test]
fn the_longest_range_allowed_expands() {
    let start = NaiveDate::from_ymd_opt(2026, 3, 2).unwrap();
    let last = start + chrono::Duration::days(MAX_SERVICE_SPAN_DAYS as i64);
    let text = |d: NaiveDate| d.format("%Y%m%d").to_string();
    let every_day = [1; 7];

    let longest = vec![weekly("ALL", every_day, &text(start), &text(last))];
    let calendar = ServiceCalendar::build(&feed(longest, Vec::new())).ok().unwrap();
    assert_eq!(calendar.dates_for("ALL").len(), MAX_SERVICE_SPAN_DAYS as usize + 1);

    let longer = vec![weekly("ALL", every_day, &text(start), &text(last.succ_opt().unwrap()))];
    assert!(ServiceCalendar::build(&feed(longer, Vec::new())).is_err());
}

#[test]
fn exception_order_is_irrelevant() {
    let rows = vec![
        exception("A", "20260301", 1),
        exception("A", "20260302", 2),
        exception("B", "20260303", 1),
        exception("A", "20260302", 1),
    ];
    let mut reversed = rows.clone();
    reversed.reverse();
    let one = ServiceCalendar::build(&feed(Vec::new(), rows)).ok().unwrap();
    let other = ServiceCalendar::build(&feed(Vec::new(), reversed)).ok().unwrap();
    for service in ["A", "B"] {
        assert_eq!(one.dates_for(service), other.dates_for(service));
    }
    assert_eq!(one.dates_for("A").to_vec(), [date(2026, 3, 1)]);
}

#[test]
fn readings_decide_the_dates_of_a_service() {
    let weekly_rows = vec![weekly("WK", WEEKDAYS, "from", "to")];
    let exceptions = vec![exception("WK", "extra", 1)];
    let monday = date(2026, 3, 2).day();
    let calendar = ServiceCalendar::expand_readings(
        &weekly_rows,
        &vec![Some(monday)],
        &vec![Some(monday + 6)],
        &exceptions,
        &vec![Some(monday + 6)],
    )
    .ok()
    .unwrap();
    assert_eq!(
        calendar.dates_for("WK").to_vec(),
        [2, 3, 4, 5, 6, 8].map(|d| date(2026, 3, d))
    );
    let err = ServiceCalendar::expand_readings(
        &weekly_rows,
        &vec![Some(monday)],
        &vec![Some(monday + 6)],
        &exceptions,
        &vec![None],
    )
    .err()
    .unwrap();
    assert_eq!(
        err,
        Error::Feed(FeedError::BadDate {
            file: "calendar_dates.txt".to_string(),
            value: "extra".to_string(),
        })
    );
}

#[test]
fn a_date_set_is_ascending_and_free_of_duplicates() {
    let mut set = DateSet::new();
    assert!(set.is_empty());
    assert_eq!(set.first(), None);
    assert_eq!(set.last(), None);
    for d in [5, 1, 3, 1, 5, 2] {
        set.insert(date(2026, 3, d));
    }
    assert_eq!(set.to_vec(), [1, 2, 3, 5].map(|d| date(2026, 3, d)));
    set.remove(&date(2026, 3, 3));
    set.remove(&date(2026, 3, 4));
    assert_eq!(set.len(), 3);
    assert!(!set.contains(&date(2026, 3, 3)));
    assert_eq!(set.first(), Some(&date(2026, 3, 1)));
    assert_eq!(set.last(), Some(&date(2026, 3, 5)));
    assert_eq!(set.clone(), set);
}

#[test]
fn dates_agree_with_the_calendar() {
    let mut day = NaiveDate::from_ymd_opt(-5, 1, 1).unwrap();
    for _ in 0..4_000 {
        let ours = Date::from_day(day.num_days_from_ce()).unwrap();
        assert_eq!(ours.day(), day.num_days_from_ce());
        assert_eq!(ours.days_from_monday(), day.weekday().num_days_from_monday());
        assert_eq!(ours.to_text(), day.to_string());
        day = day + chrono::Duration::days(811);
    }
    assert_eq!(Date::from_day(NaiveDate::MIN.num_days_from_ce()).unwrap().to_text(), NaiveDate::MIN.to_string());
    assert_eq!(Date::from_day(NaiveDate::MAX.num_days_from_ce()).unwrap().to_text(), NaiveDate::MAX.to_string());
    assert_eq!(Date::from_day(NaiveDate::MIN.num_days_from_ce() - 1), None);
    assert_eq!(Date::from_day(NaiveDate::MAX.num_days_from_ce() + 1), None);
}
