use transit_ingest::error::{Error, Violation};
use transit_ingest::gtfs::validate::{clear_for_build, check};
use transit_ingest::gtfs::{
    AgencyRow, CalendarDateRow, CalendarRow, RouteRow, StaticFeed, StopRow, StopTimeRow, TripRow,
};

fn feed() -> StaticFeed {
    StaticFeed {
        agency_id: "TEST".to_string(),
        agencies: vec![AgencyRow {
            agency_id: Some("A".to_string()),
            agency_name: "Test".to_string(),
            agency_timezone: "America/New_York".to_string(),
        }],
        routes: vec![RouteRow {
            route_id: "R1".to_string(),
            agency_id: Some("A".to_string()),
            route_short_name: None,
            route_long_name: Some("Test Line".to_string()),
            route_type: 2,
            route_color: None,
        }],
        stops: vec![StopRow {
            stop_id: "S1".to_string(),
            stop_name: Some("First".to_string()),
            stop_lat: Some(40.7f64.to_bits()),
            stop_lon: Some((-73.9f64).to_bits()),
            location_type: Some(0),
            parent_station: None,
        }],
        trips: vec![TripRow {
            trip_id: "T1".to_string(),
            route_id: "R1".to_string(),
            service_id: "SVC".to_string(),
            trip_headsign: None,
            direction_id: Some(0),
        }],
        stop_times: vec![StopTimeRow {
            trip_id: "T1".to_string(),
            stop_id: "S1".to_string(),
            arrival_time: "06:00:00".to_string(),
            departure_time: "06:00:00".to_string(),
            stop_sequence: 1,
        }],
        calendar: Vec::new(),
        calendar_dates: vec![CalendarDateRow {
            service_id: "SVC".to_string(),
            date: "20260401".to_string(),
            exception_type: 1,
        }],
    }
}

#[test]
fn a_consistent_feed_has_no_violations() {
    assert_eq!(check(&feed()), Vec::new());
}

#[test]
fn catches_a_stop_time_pointing_at_no_trip() {
    let mut feed = feed();
    feed.stop_times[0].trip_id = "GHOST".to_string();

    let violations = check(&feed);
    assert_eq!(violations.len(), 1);
    assert_eq!(violations[0].file, "stop_times.txt");
    assert_eq!(violations[0].field, "trip_id");
    assert_eq!(violations[0].value, "GHOST");
    assert_eq!(violations[0].occurrences, 1);
}

#[test]
fn aggregates_repeat_offenders_into_one_violation() {
    // The reason occurrences exists. One retired stop referenced by many
    // rows is one problem, not many.
    let mut feed = feed();
    for _ in 0..5_000 {
        let mut row = feed.stop_times[0].clone();
        row.stop_id = "RETIRED".to_string();
        feed.stop_times.push(row);
    }

    let violations = check(&feed);
    assert_eq!(violations.len(), 1);
    assert_eq!(violations[0].value, "RETIRED");
    assert_eq!(violations[0].occurrences, 5_000);
}

#[test]
fn distinct_bad_values_stay_distinct() {
    let mut feed = feed();
    for id in ["GONE_A", "GONE_B"] {
        let mut row = feed.stop_times[0].clone();
        row.stop_id = id.to_string();
        feed.stop_times.push(row);
    }

    let violations = check(&feed);
    assert_eq!(violations.len(), 2);
    assert_eq!(violations[0].value, "GONE_A");
    assert_eq!(violations[1].value, "GONE_B");
}

#[test]
fn service_id_may_come_from_either_calendar_file() {
    // LIRR and Metro-North define every service day in calendar_dates.txt.
    // Checking trips.service_id against calendar.txt alone would flag every
    // trip in both feeds.
    let feed = feed();
    assert!(feed.calendar.is_empty());
    assert_eq!(check(&feed), Vec::new());

    let mut via_calendar = feed;
    via_calendar.calendar = vec![CalendarRow {
        service_id: "SVC".to_string(),
        monday: 1,
        tuesday: 1,
        wednesday: 1,
        thursday: 1,
        friday: 1,
        saturday: 0,
        sunday: 0,
        start_date: "20260101".to_string(),
        end_date: "20261231".to_string(),
    }];
    via_calendar.calendar_dates.clear();
    assert_eq!(check(&via_calendar), Vec::new());
}

#[test]
fn catches_a_trip_with_no_service_definition() {
    let mut feed = feed();
    feed.trips[0].service_id = "NOWHERE".to_string();

    let violations = check(&feed);
    assert_eq!(violations.len(), 1);
    assert_eq!(violations[0].field, "service_id");
}

#[test]
fn catches_an_orphaned_parent_station() {
    let mut feed = feed();
    feed.stops[0].parent_station = Some("NOT_A_STATION".to_string());

    let violations = check(&feed);
    assert_eq!(violations.len(), 1);
    assert_eq!(violations[0].field, "parent_station");
}

#[test]
fn an_empty_parent_station_is_absence_not_a_violation() {
    // Producers write an empty column rather than omitting it. A stop with
    // no parent is the normal case for a flat agency.
    let mut feed = feed();
    feed.stops[0].parent_station = Some(String::new());

    assert_eq!(check(&feed), Vec::new());
}

#[test]
fn a_feed_that_omits_agency_id_on_routes_is_not_a_violation() {
    // LIRR's routes.txt has no agency_id column at all. GTFS allows this
    // for a single-agency feed, and flagging it would fail a valid feed.
    let mut feed = feed();
    feed.routes[0].agency_id = None;

    assert_eq!(check(&feed), Vec::new());
}

#[test]
fn catches_a_route_naming_an_unknown_agency() {
    let mut feed = feed();
    feed.routes[0].agency_id = Some("SOMEONE_ELSE".to_string());

    let violations = check(&feed);
    assert_eq!(violations.len(), 1);
    assert_eq!(violations[0].references, "agency.txt");
}

#[test]
fn catches_a_duplicated_primary_key() {
    let mut feed = feed();
    feed.stops.push(feed.stops[0].clone());

    let violations = check(&feed);
    assert_eq!(violations.len(), 1);
    assert_eq!(violations[0].value, "S1");
    assert_eq!(violations[0].occurrences, 2);
    assert!(violations[0].message().contains("unique key"));
}

#[test]
fn violations_are_ordered_deterministically() {
    let mut feed = feed();
    feed.trips[0].route_id = "GHOST_ROUTE".to_string();
    feed.stops[0].parent_station = Some("GHOST_PARENT".to_string());

    let first = check(&feed);
    let second = check(&feed);
    assert_eq!(first, second);
    assert_eq!(first.len(), 2);
    // stop_times.txt sorts after stops.txt, which sorts after trips.txt --
    // by file, so all of one file's problems read together.
    assert_eq!(first[0].file, "stops.txt");
    assert_eq!(first[1].file, "trips.txt");
}

#[test]
fn every_rule_is_checked() {
    let mut feed = feed();
    feed.routes[0].agency_id = Some("X".to_string());
    feed.stops[0].parent_station = Some("X".to_string());
    feed.trips[0].route_id = "X".to_string();
    feed.trips[0].service_id = "X".to_string();
    feed.stop_times[0].trip_id = "X".to_string();
    feed.stop_times[0].stop_id = "X".to_string();
    feed.routes.push(feed.routes[0].clone());
    feed.stops.push(feed.stops[0].clone());
    feed.trips.push(feed.trips[0].clone());

    let found: Vec<(String, String, String, usize)> = check(&feed)
        .into_iter()
        .map(|v| (v.file, v.field, v.value, v.occurrences))
        .collect();
    let expected = [
        ("routes.txt", "agency_id", "X", 2),
        ("routes.txt", "route_id", "R1", 2),
        ("stop_times.txt", "stop_id", "X", 1),
        ("stop_times.txt", "trip_id", "X", 1),
        ("stops.txt", "parent_station", "X", 2),
        ("stops.txt", "stop_id", "S1", 2),
        ("trips.txt", "route_id", "X", 2),
        ("trips.txt", "service_id", "X", 2),
        ("trips.txt", "trip_id", "T1", 2),
    ]
    .map(|(file, field, value, n)| (file.to_string(), field.to_string(), value.to_string(), n));
    assert_eq!(found, expected);
    assert_eq!(check(&feed)[5].references, "a unique key");
    assert_eq!(check(&feed)[7].references, "calendar.txt/calendar_dates.txt");
}

#[test]
fn agencies_are_checked_only_where_the_feed_names_one() {
    let mut feed = feed();
    feed.routes[0].agency_id = Some("B".to_string());
    let violations = check(&feed);
    assert_eq!(violations.len(), 1);
    assert_eq!(
        violations[0].message(),
        "routes.txt.agency_id = `B` not found in agency.txt (1 row(s))"
    );

    feed.agencies[0].agency_id = None;
    assert_eq!(check(&feed), Vec::new());

    feed.agencies[0].agency_id = Some("A".to_string());
    feed.routes[0].agency_id = Some(String::new());
    assert_eq!(check(&feed), Vec::new());
}

#[test]
fn a_feed_with_violations_is_refused_unless_they_are_allowed() {
    assert_eq!(clear_for_build(&feed(), false), Ok(Vec::new()));
    assert_eq!(clear_for_build(&feed(), true), Ok(Vec::new()));

    let mut feed = feed();
    feed.trips[0].route_id = "GHOST".to_string();
    let report = check(&feed);
    assert_eq!(report.len(), 1);
    assert_eq!(clear_for_build(&feed, true), Ok(report));
    assert_eq!(clear_for_build(&feed, false), Err(Error::Integrity(check(&feed))));
}

#[test]
fn violations_are_reported_together() {
    let violation = |value: &str| Violation {
        file: "trips.txt".to_string(),
        field: "route_id".to_string(),
        value: value.to_string(),
        references: "routes.txt".to_string(),
        occurrences: 2,
    };
    let err = Error::Integrity(vec![violation("A"), violation("B")]);
    assert_eq!(err.message(), "referential integrity check failed with 2 violation(s)");
}
