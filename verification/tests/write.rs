use std::collections::BTreeMap;

use chrono::{Datelike, NaiveDate};

use transit_ingest::config::{Agency, Quirks};
use transit_ingest::dataset::columns::{self, Cells, Column};
use transit_ingest::dataset::dimensions::{routes_batch, routes_table, stops_batch, stops_table};
use transit_ingest::dataset::facts::{encode_batch, encode_events, table};
use transit_ingest::dataset::write::{dates_in_range, routes_file, stops_file};
use transit_ingest::dataset::{Build, Layout, Step, Summary};
use transit_ingest::date::Date;
use transit_ingest::error::{Error, FeedError};
use transit_ingest::gtfs::validate::check;
use transit_ingest::gtfs::{
    AgencyRow, CalendarDateRow, RouteRow, StaticFeed, StopRow, StopTimeRow, TripRow,
};
use transit_ingest::schedule::Schedule;

fn parent(path: &str) -> String {
    path.rsplit_once('/').unwrap().0.to_string()
}

/// A whole build, with the files it writes by their paths.
fn build(
    feed: &StaticFeed,
    agency: &Agency,
    range: Option<(Date, Date)>,
) -> (Summary, BTreeMap<String, Vec<u8>>) {
    let mut files = BTreeMap::new();
    let mut build = Build::begin(feed, agency, "data", range).ok().unwrap();
    loop {
        assert!(build.fits());
        match build.step().unwrap() {
            Step::Finished => break,
            Step::Empty => {}
            Step::Partition { path, events } => {
                assert!(columns::fits(&table(&events)));
                let bytes = encode_events(&path, &events).unwrap();
                files.insert(path, bytes);
            }
        }
    }
    assert!(columns::fits(&routes_table(&feed.routes, agency)));
    assert!(columns::fits(&stops_table(&feed.stops, agency)));
    let routes = routes_file(feed, agency, "data").ok().unwrap();
    files.insert(routes.path, routes.bytes);
    let stops = stops_file(feed, agency, "data").ok().unwrap();
    files.insert(stops.path, stops.bytes);
    (build.summary().clone(), files)
}

fn date(y: i32, m: u32, d: u32) -> Date {
    Date::from_day(NaiveDate::from_ymd_opt(y, m, d).unwrap().num_days_from_ce()).unwrap()
}

fn agency() -> Agency {
    Agency {
        id: "MTA_NYCT".to_string(),
        name: "New York City Transit".to_string(),
        mode: "subway".to_string(),
        timezone: "America/New_York".to_string(),
        static_url: "http://example.com/gtfs.zip".to_string(),
        realtime: Vec::new(),
        quirks: Quirks::default(),
    }
}

/// One trip calling at two stops, running on three consecutive dates.
fn feed() -> StaticFeed {
    StaticFeed {
        agency_id: "MTA_NYCT".to_string(),
        agencies: vec![AgencyRow {
            agency_id: Some("A".to_string()),
            agency_name: "Test".to_string(),
            agency_timezone: "America/New_York".to_string(),
        }],
        routes: vec![RouteRow {
            route_id: "1".to_string(),
            agency_id: Some("A".to_string()),
            route_short_name: Some("1".to_string()),
            route_long_name: None,
            route_type: 1,
            route_color: None,
        }],
        stops: vec![
            StopRow {
                stop_id: "101N".to_string(),
                stop_name: Some("First".to_string()),
                stop_lat: Some(40.9f64.to_bits()),
                stop_lon: Some((-73.9f64).to_bits()),
                location_type: Some(0),
                parent_station: Some("101".to_string()),
            },
            StopRow {
                stop_id: "101".to_string(),
                stop_name: Some("First".to_string()),
                stop_lat: Some(40.9f64.to_bits()),
                stop_lon: Some((-73.9f64).to_bits()),
                location_type: Some(1),
                parent_station: None,
            },
        ],
        trips: vec![TripRow {
            trip_id: "T1".to_string(),
            route_id: "1".to_string(),
            service_id: "SVC".to_string(),
            trip_headsign: None,
            direction_id: Some(0),
        }],
        stop_times: vec![StopTimeRow {
            trip_id: "T1".to_string(),
            stop_id: "101N".to_string(),
            arrival_time: "06:00:00".to_string(),
            departure_time: "06:00:00".to_string(),
            stop_sequence: 1,
        }],
        calendar: Vec::new(),
        calendar_dates: ["20260401", "20260402", "20260403"]
            .iter()
            .map(|d| CalendarDateRow {
                service_id: "SVC".to_string(),
                date: d.to_string(),
                exception_type: 1,
            })
            .collect(),
    }
}

#[test]
fn writes_one_partition_per_service_date() {
    let (summary, files) = build(&feed(), &agency(), None);

    assert_eq!(files.len(), 5);
    assert_eq!(summary.dates_written, 3);
    assert_eq!(summary.events, 3, "one call on each of three dates");
    assert_eq!(summary.first_date, Some(date(2026, 4, 1)));
    assert_eq!(summary.last_date, Some(date(2026, 4, 3)));
}

#[test]
fn partition_directories_are_hive_style() {
    // Arrow, pandas, Spark and Atoti all read `service_date=` as a
    // partition column and prune on it. A plain directory name would turn
    // every single-day query into a full scan.
    let (_, files) = build(&feed(), &agency(), None);

    let partition = "data/parquet/scheduled_events/service_date=2026-04-01/MTA_NYCT.parquet";
    assert!(files.contains_key(partition), "expected {partition}");
}

#[test]
fn each_agency_gets_its_own_file_within_a_partition() {
    // The three feeds are downloaded and re-ingested independently.
    // Re-running the Subway must not rewrite a file holding LIRR rows.
    let layout = Layout::new("data");

    assert_ne!(
        layout.fact_partition(date(2026, 4, 1), "MTA_NYCT"),
        layout.fact_partition(date(2026, 4, 1), "MTA_LIRR")
    );
    assert_eq!(
        parent(&layout.fact_partition(date(2026, 4, 1), "MTA_NYCT")),
        parent(&layout.fact_partition(date(2026, 4, 1), "MTA_LIRR")),
        "but they share the partition"
    );
}

#[test]
fn a_date_range_restricts_output() {
    // A feed covering months should not force writing all of it.
    let (summary, files) = build(
        &feed(),
        &agency(),
        Some((date(2026, 4, 2), date(2026, 4, 2))),
    );

    assert_eq!(summary.dates_written, 1);
    assert_eq!(summary.first_date, Some(date(2026, 4, 2)));
    assert!(!files
        .keys()
        .any(|path| path.starts_with("data/parquet/scheduled_events/service_date=2026-04-01")));
}

#[test]
fn a_range_matching_nothing_still_writes_dimensions() {
    // Dimensions do not depend on the date window, and a cube with facts
    // but no dimensions is worse than one with neither.
    let (summary, files) = build(
        &feed(),
        &agency(),
        Some((date(2027, 1, 1), date(2027, 1, 7))),
    );

    assert_eq!(summary.dates_written, 0);
    assert_eq!(summary.first_date, None);
    assert!(files.contains_key("data/parquet/routes/MTA_NYCT.parquet"));
    assert!(files.contains_key("data/parquet/stops/MTA_NYCT.parquet"));
}

#[test]
fn dimensions_are_written_once_not_per_partition() {
    let (summary, files) = build(&feed(), &agency(), None);

    assert_eq!(summary.routes, 1);
    assert_eq!(summary.stops, 2);

    let routes = files.keys().filter(|path| path.starts_with("data/parquet/routes/"));
    assert_eq!(routes.count(), 1, "one file per agency, not per date");
}

#[test]
fn a_date_with_service_but_no_events_is_counted_not_written() {
    // A file every reader must open to learn it holds nothing is worse than
    // an absent partition -- but the count still needs surfacing, because
    // it usually means retired trips left behind a live calendar.
    let mut feed = feed();
    feed.stop_times.clear();

    let (summary, files) = build(&feed, &agency(), None);

    assert_eq!(summary.dates_written, 0);
    assert_eq!(summary.dates_empty, 3);
    assert!(!files.keys().any(|path| path.starts_with("data/parquet/scheduled_events")));
}

#[test]
fn stats_are_summed_across_dates() {
    let mut feed = feed();
    feed.stop_times.push(StopTimeRow {
        trip_id: "T1".to_string(),
        stop_id: "101N".to_string(),
        arrival_time: "25:30:00".to_string(),
        departure_time: "25:30:00".to_string(),
        stop_sequence: 2,
    });

    let (summary, files) = build(&feed, &agency(), None);

    assert_eq!(files.len(), 5);
    assert_eq!(summary.events, 6, "two calls across three dates");
    assert_eq!(summary.trips, 3, "one trip resolved on each date");
    assert_eq!(summary.crossing_midnight, 3);
}

#[test]
fn building_twice_gives_the_same_files() {
    // Re-ingest is the normal operation: a second run names the same files and
    // gives each the same contents.
    let first = build(&feed(), &agency(), None);
    let second = build(&feed(), &agency(), None);

    assert_eq!(first, second);
}


#[test]
fn files_lie_where_the_layout_says() {
    let layout = Layout::new("data");
    assert_eq!(layout.root(), "data/parquet");
    assert_eq!(
        layout.fact_partition(date(2026, 4, 1), "A"),
        "data/parquet/scheduled_events/service_date=2026-04-01/A.parquet"
    );
    assert_eq!(layout.dimension("stops", "A"), "data/parquet/stops/A.parquet");
}

#[test]
fn every_date_is_counted_once() {
    let mut feed = feed();
    feed.calendar_dates.push(CalendarDateRow {
        service_id: "NO_TRIPS".to_string(),
        date: "20260404".to_string(),
        exception_type: 1,
    });
    let (summary, _) = build(&feed, &agency(), None);
    assert_eq!((summary.dates_written, summary.dates_empty), (3, 1));
    assert_eq!(summary.last_date, Some(date(2026, 4, 4)));
}

#[test]
fn events_of_a_consistent_feed_join_the_dimensions() {
    let feed = feed();
    let agency = agency();
    assert!(check(&feed).is_empty());
    let keys = |columns: Vec<Column>| match columns.into_iter().next().unwrap().cells {
        Cells::Text(keys) => keys,
        _ => panic!("keys are text"),
    };
    let routes = keys(routes_table(&feed.routes, &agency));
    let stops = keys(stops_table(&feed.stops, &agency));
    let schedule = Schedule::index(&feed, &agency).ok().unwrap();
    let (events, _) = schedule.for_date(date(2026, 4, 1)).unwrap();
    assert_eq!(events.len(), 1);
    for event in events {
        assert!(routes.contains(&Some(event.route_key)));
        assert!(stops.contains(&Some(event.stop_key)));
    }
    assert_eq!(stops, [Some("MTA_NYCT:101N".to_string()), Some("MTA_NYCT:101".to_string())]);
}

#[test]
fn dimension_files_hold_the_encoded_tables() {
    let feed = feed();
    let agency = agency();
    let layout = Layout::new("data");
    let routes = routes_file(&feed, &agency, "data").ok().unwrap();
    assert_eq!(routes.path, layout.dimension("routes", "MTA_NYCT"));
    let batch = routes_batch(&feed, &agency).ok().unwrap();
    assert_eq!(routes.bytes, encode_batch(&routes.path, &batch).unwrap());
    let stops = stops_file(&feed, &agency, "data").ok().unwrap();
    assert_eq!(stops.path, layout.dimension("stops", "MTA_NYCT"));
    let batch = stops_batch(&feed, &agency).ok().unwrap();
    assert_eq!(stops.bytes, encode_batch(&stops.path, &batch).unwrap());
}

#[test]
fn no_two_agencies_or_tables_share_a_file() {
    let layout = Layout::new("data");
    let mut files = Vec::new();
    for agency in ["MTA_NYCT", "MTA_LIRR"] {
        files.push(layout.dimension("routes", agency));
        files.push(layout.dimension("stops", agency));
        files.push(layout.fact_partition(date(2026, 4, 1), agency));
        files.push(layout.fact_partition(date(2026, 4, 2), agency));
    }
    files.sort();
    files.dedup();
    assert_eq!(files.len(), 8);
}

#[test]
fn a_step_takes_the_next_date() {
    let feed = feed();
    let agency = agency();
    let schedule = Schedule::index(&feed, &agency).ok().unwrap();
    let range = Some((date(2026, 4, 2), date(2026, 4, 9)));
    assert_eq!(dates_in_range(&schedule, range), [date(2026, 4, 2), date(2026, 4, 3)]);

    let mut build = Build::begin_with(schedule, "data", range);
    assert!(build.fits());
    assert_eq!(build.next_date(), Some(date(2026, 4, 2)));
    let err = build.step_at(None).err().unwrap();
    assert_eq!(
        err,
        Error::Feed(FeedError::AmbiguousLocalTime {
            local: "2026-04-02 12:00:00".to_string(),
            timezone: "America/New_York".to_string(),
        })
    );
    assert_eq!(build.next_date(), Some(date(2026, 4, 2)));
    match build.step_at(Some(1_775_145_600)).ok().unwrap() {
        Step::Partition { path, events } => {
            assert_eq!(path, Layout::new("data").fact_partition(date(2026, 4, 2), "MTA_NYCT"));
            assert_eq!(events.len(), 1);
            assert_eq!(events[0].scheduled_arrival.seconds(), 1_775_145_600 - 6 * 3600);
        }
        _ => panic!("the date has an event"),
    }
    assert_eq!(build.next_date(), Some(date(2026, 4, 3)));
    assert!(matches!(build.step(), Ok(Step::Partition { .. })));
    assert_eq!(build.next_date(), None);
    assert!(matches!(build.step(), Ok(Step::Finished)));
    assert_eq!(build.summary().events, 2);
}
