use chrono::{DateTime, Datelike, NaiveDate, Timelike, Utc};

use transit_ingest::config::{Agency, Quirks};
use transit_ingest::date::Date;
use transit_ingest::error::{ConfigError, Error, FeedError};
use transit_ingest::gtfs::{
    AgencyRow, CalendarDateRow, RouteRow, ServiceCalendar, StaticFeed, StopRow, StopTimeRow,
    TripRow,
};
use transit_ingest::schedule::{event_id, rollovers, Schedule, Stats};
use transit_ingest::zone::{Timezone, UtcInstant};

fn instant(at: UtcInstant) -> DateTime<Utc> {
    DateTime::from_timestamp(at.seconds(), 0).unwrap()
}

fn date(y: i32, m: u32, d: u32) -> Date {
    Date::from_day(NaiveDate::from_ymd_opt(y, m, d).unwrap().num_days_from_ce()).unwrap()
}

fn agency() -> Agency {
    Agency {
        id: "MTA_NYCT".to_string(),
        name: "New York City Transit".to_string(),
        mode: "subway".to_string(),
        timezone: "America/New_York".to_string(),
        static_url: "http://example.com/gtfs.zip".to_string(),
        realtime: Vec::new(),
        quirks: Quirks::default(),
    }
}

fn stop_time(trip: &str, stop: &str, seq: u32, arrival: &str, departure: &str) -> StopTimeRow {
    StopTimeRow {
        trip_id: trip.to_string(),
        stop_id: stop.to_string(),
        arrival_time: arrival.to_string(),
        departure_time: departure.to_string(),
        stop_sequence: seq,
    }
}

fn trip(trip_id: &str, route: &str, service: &str) -> TripRow {
    TripRow {
        trip_id: trip_id.to_string(),
        route_id: route.to_string(),
        service_id: service.to_string(),
        trip_headsign: None,
        direction_id: Some(0),
    }
}

/// A one-trip, two-stop feed running on a single date.
fn feed() -> StaticFeed {
    StaticFeed {
        agency_id: "MTA_NYCT".to_string(),
        agencies: vec![AgencyRow {
            agency_id: Some("A".to_string()),
            agency_name: "Test".to_string(),
            agency_timezone: "America/New_York".to_string(),
        }],
        routes: vec![RouteRow {
            route_id: "1".to_string(),
            agency_id: Some("A".to_string()),
            route_short_name: Some("1".to_string()),
            route_long_name: None,
            route_type: 1,
            route_color: None,
        }],
        stops: vec![
            StopRow {
                stop_id: "101N".to_string(),
                stop_name: Some("First".to_string()),
                stop_lat: Some(40.9f64.to_bits()),
                stop_lon: Some((-73.9f64).to_bits()),
                location_type: Some(0),
                parent_station: Some("101".to_string()),
            },
            StopRow {
                stop_id: "102N".to_string(),
                stop_name: Some("Second".to_string()),
                stop_lat: Some(40.8f64.to_bits()),
                stop_lon: Some((-73.9f64).to_bits()),
                location_type: Some(0),
                parent_station: Some("102".to_string()),
            },
        ],
        trips: vec![trip("T1", "1", "SVC")],
        stop_times: vec![
            stop_time("T1", "101N", 1, "06:00:00", "06:00:30"),
            stop_time("T1", "102N", 2, "06:10:00", "06:10:00"),
        ],
        calendar: Vec::new(),
        calendar_dates: vec![CalendarDateRow {
            service_id: "SVC".to_string(),
            date: "20260401".to_string(),
            exception_type: 1,
        }],
    }
}

#[test]
fn resolves_a_trip_into_one_event_per_call() {
    let feed = feed();
    let agency = agency();
    let schedule = Schedule::index(&feed, &agency).ok().unwrap();

    let (events, stats) = schedule.for_date(date(2026, 4, 1)).unwrap();
    assert_eq!(events.len(), 2);
    assert_eq!(stats.events, 2);
    assert_eq!(stats.trips, 1);

    assert_eq!(events[0].stop_sequence, 1);
    assert_eq!(events[1].stop_sequence, 2);
}

#[test]
fn keys_are_namespaced_by_agency() {
    // Route 1 and stop 101N exist in more than one MTA feed. The bare ids
    // are kept for display; the keys are what anything joins on.
    let feed = feed();
    let agency = agency();
    let schedule = Schedule::index(&feed, &agency).ok().unwrap();

    let (events, _) = schedule.for_date(date(2026, 4, 1)).unwrap();
    assert_eq!(events[0].route_id, "1");
    assert_eq!(events[0].route_key, "MTA_NYCT:1");
    assert_eq!(events[0].stop_key, "MTA_NYCT:101N");
}

#[test]
fn times_resolve_in_the_agency_timezone() {
    // 06:00 America/New_York on 2026-04-01 is 10:00 UTC (EDT, UTC-4).
    let feed = feed();
    let agency = agency();
    let schedule = Schedule::index(&feed, &agency).ok().unwrap();

    let (events, _) = schedule.for_date(date(2026, 4, 1)).unwrap();
    assert_eq!(instant(events[0].scheduled_arrival).hour(), 10);
    assert_eq!(
        instant(events[0].scheduled_arrival).to_string(),
        "2026-04-01 10:00:00 UTC"
    );
}

#[test]
fn dwell_is_departure_minus_arrival() {
    let feed = feed();
    let agency = agency();
    let schedule = Schedule::index(&feed, &agency).ok().unwrap();

    let (events, _) = schedule.for_date(date(2026, 4, 1)).unwrap();
    assert_eq!(events[0].dwell_seconds, 30);
    assert_eq!(events[1].dwell_seconds, 0, "one time serves for both");
}

#[test]
fn a_negative_dwell_is_clamped_rather_than_emitted() {
    // A vehicle cannot depart before it arrives. Feeds do publish this.
    let mut feed = feed();
    feed.stop_times[0].departure_time = "05:59:00".to_string();
    let agency = agency();
    let schedule = Schedule::index(&feed, &agency).ok().unwrap();

    let (events, _) = schedule.for_date(date(2026, 4, 1)).unwrap();
    assert_eq!(events[0].dwell_seconds, 0);
}

#[test]
fn a_call_past_midnight_keeps_its_service_date() {
    // The whole reason GTFS counts past 24: both calls belong to April 1's
    // service, and the second happens on April 2.
    let mut feed = feed();
    feed.stop_times = vec![
        stop_time("T1", "101N", 1, "23:50:00", "23:50:00"),
        stop_time("T1", "102N", 2, "24:20:00", "24:20:00"),
    ];
    let agency = agency();
    let schedule = Schedule::index(&feed, &agency).ok().unwrap();

    let (events, stats) = schedule.for_date(date(2026, 4, 1)).unwrap();
    assert_eq!(events[0].service_date, date(2026, 4, 1));
    assert_eq!(events[1].service_date, date(2026, 4, 1));

    assert!(!events[0].crosses_midnight);
    assert!(events[1].crosses_midnight);
    assert_eq!(stats.crossing_midnight, 1);

    // ...and the actual instants are 30 minutes apart, across the boundary.
    assert_eq!(
        (instant(events[1].scheduled_arrival) - instant(events[0].scheduled_arrival))
            .num_minutes(),
        30
    );
}

#[test]
fn a_stop_with_only_a_departure_uses_it_for_both() {
    let mut feed = feed();
    feed.stop_times[0].arrival_time = String::new();
    let agency = agency();
    let schedule = Schedule::index(&feed, &agency).ok().unwrap();

    let (events, stats) = schedule.for_date(date(2026, 4, 1)).unwrap();
    assert_eq!(events.len(), 2);
    assert_eq!(stats.untimed_stop_times, 0);
    assert_eq!(events[0].dwell_seconds, 0);
}

#[test]
fn a_stop_with_no_times_is_dropped_and_counted() {
    // GTFS expects interpolation here. An interpolated schedule is a guess,
    // and a delay measured against a guess is not a measurement.
    let mut feed = feed();
    feed.stop_times[0].arrival_time = String::new();
    feed.stop_times[0].departure_time = String::new();
    let agency = agency();
    let schedule = Schedule::index(&feed, &agency).ok().unwrap();

    let (events, stats) = schedule.for_date(date(2026, 4, 1)).unwrap();
    assert_eq!(events.len(), 1);
    assert_eq!(stats.untimed_stop_times, 1);
}

#[test]
fn an_unparseable_time_is_dropped_and_counted_rather_than_fatal() {
    // One bad cell must not take down a whole multi-day multi-agency build.
    let mut feed = feed();
    feed.stop_times[0].arrival_time = "8:5".to_string();
    let agency = agency();
    let schedule = Schedule::index(&feed, &agency).ok().unwrap();

    let (events, stats) = schedule.for_date(date(2026, 4, 1)).unwrap();
    assert_eq!(events.len(), 1, "the sound row still resolves");
    assert_eq!(stats.malformed_times, 1);
    assert_eq!(stats.untimed_stop_times, 0, "malformed is not untimed");
}

#[test]
fn a_clean_feed_reports_no_malformed_times() {
    let feed = feed();
    let agency = agency();
    let schedule = Schedule::index(&feed, &agency).ok().unwrap();

    let (_, stats) = schedule.for_date(date(2026, 4, 1)).unwrap();
    assert_eq!(stats.malformed_times, 0);
}

#[test]
fn calls_are_ordered_by_stop_sequence_not_file_order() {
    // GTFS does not require stop_times.txt to be sorted, and dwell and
    // headway both depend on the order of calls along the trip.
    let mut feed = feed();
    feed.stop_times.reverse();
    let agency = agency();
    let schedule = Schedule::index(&feed, &agency).ok().unwrap();

    let (events, _) = schedule.for_date(date(2026, 4, 1)).unwrap();
    assert_eq!(events[0].stop_sequence, 1);
    assert_eq!(events[1].stop_sequence, 2);
}

#[test]
fn a_date_with_no_service_yields_nothing() {
    let feed = feed();
    let agency = agency();
    let schedule = Schedule::index(&feed, &agency).ok().unwrap();

    let (events, stats) = schedule.for_date(date(2026, 4, 2)).unwrap();
    assert!(events.is_empty());
    assert_eq!(stats, Stats::default());
}

#[test]
fn the_same_trip_resolves_on_every_date_it_runs() {
    let mut feed = feed();
    feed.calendar_dates.push(CalendarDateRow {
        service_id: "SVC".to_string(),
        date: "20260402".to_string(),
        exception_type: 1,
    });
    let agency = agency();
    let schedule = Schedule::index(&feed, &agency).ok().unwrap();

    assert_eq!(
        schedule.service_dates(),
        [date(2026, 4, 1), date(2026, 4, 2)]
    );

    let (first, _) = schedule.for_date(date(2026, 4, 1)).unwrap();
    let (second, _) = schedule.for_date(date(2026, 4, 2)).unwrap();
    assert_eq!(first.len(), second.len());
    assert_ne!(
        first[0].event_id, second[0].event_id,
        "the same call on two dates is two events"
    );
}

#[test]
fn a_service_with_no_trips_is_inert() {
    let mut feed = feed();
    feed.calendar_dates.push(CalendarDateRow {
        service_id: "ORPHAN".to_string(),
        date: "20260401".to_string(),
        exception_type: 1,
    });
    let agency = agency();
    let schedule = Schedule::index(&feed, &agency).ok().unwrap();

    let (events, _) = schedule.for_date(date(2026, 4, 1)).unwrap();
    assert_eq!(events.len(), 2);
}

#[test]
fn a_trip_with_no_stop_times_emits_nothing() {
    let mut feed = feed();
    feed.trips.push(trip("T_EMPTY", "1", "SVC"));
    let agency = agency();
    let schedule = Schedule::index(&feed, &agency).ok().unwrap();

    let (events, stats) = schedule.for_date(date(2026, 4, 1)).unwrap();
    assert_eq!(events.len(), 2);
    assert_eq!(stats.trips, 1, "the empty trip is not counted as resolved");
}

#[test]
fn resolution_is_deterministic() {
    // Byte-identical Parquet across runs is what makes a re-ingest a no-op
    // instead of a diff. Iterating a HashMap directly would break this.
    let feed = feed();
    let agency = agency();
    let schedule = Schedule::index(&feed, &agency).ok().unwrap();

    let (first, _) = schedule.for_date(date(2026, 4, 1)).unwrap();
    let (second, _) = schedule.for_date(date(2026, 4, 1)).unwrap();
    assert_eq!(first, second);
}

#[test]
fn a_malformed_time_does_not_take_the_rest_of_the_date_with_it() {
    // Broken rows are counted together rather than found one attempt at a time.
    let mut feed = feed();
    feed.stop_times[0].arrival_time = "not a time".to_string();
    let agency = agency();
    let schedule = Schedule::index(&feed, &agency).ok().unwrap();

    let (events, stats) = schedule.for_date(date(2026, 4, 1)).unwrap();
    assert_eq!(events.len(), 1);
    assert_eq!(stats.malformed_times, 1);
}

#[test]
fn event_ids_distinguish_every_component() {
    let base = event_id("MTA_NYCT", date(2026, 4, 1), "T1", 1);

    for other in [
        event_id("MTA_LIRR", date(2026, 4, 1), "T1", 1),
        event_id("MTA_NYCT", date(2026, 4, 2), "T1", 1),
        event_id("MTA_NYCT", date(2026, 4, 1), "T2", 1),
        event_id("MTA_NYCT", date(2026, 4, 1), "T1", 2),
    ] {
        assert_ne!(base, other);
    }
    assert_eq!(base, event_id("MTA_NYCT", date(2026, 4, 1), "T1", 1));
}

#[test]
fn event_ids_do_not_collide_across_field_boundaries() {
    // Without a separator, ("AB", "C") and ("A", "BC") hash identically and
    // two unrelated calls silently become one row.
    assert_ne!(
        event_id("AB", date(2026, 4, 1), "C", 1),
        event_id("A", date(2026, 4, 1), "BC", 1)
    );
}

#[test]
fn a_trip_calling_at_one_stop_twice_gets_two_ids() {
    // Loop services and terminal turnarounds do this. Keying the id on
    // stop_id rather than stop_sequence would collapse them into one row.
    let mut feed = feed();
    feed.stop_times
        .push(stop_time("T1", "101N", 3, "06:20:00", "06:20:00"));
    let agency = agency();
    let schedule = Schedule::index(&feed, &agency).ok().unwrap();

    let (events, _) = schedule.for_date(date(2026, 4, 1)).unwrap();
    assert_eq!(events.len(), 3);
    assert_eq!(events[0].stop_key, events[2].stop_key);
    assert_ne!(events[0].event_id, events[2].event_id);
}

#[test]
fn event_ids_are_stable_against_the_hash_implementation_changing() {
    // Pinned deliberately. These ids go into Parquet files that outlive the
    // toolchain; if this assertion ever fails, every previously written
    // dataset needs rewriting, and that should be a decision rather than a
    // surprise.
    assert_eq!(
        event_id("MTA_NYCT", date(2026, 4, 1), "T1", 1),
        "a932425890b2ec62"
    );
}

#[test]
fn an_agency_in_an_unknown_timezone_has_no_schedule() {
    let feed = feed();
    let mut agency = agency();
    agency.timezone = "Mars/Olympus_Mons".to_string();
    assert_eq!(
        Schedule::index(&feed, &agency).err().unwrap(),
        Error::Config(ConfigError::UnknownTimezone {
            agency: "MTA_NYCT".to_string(),
            timezone: "Mars/Olympus_Mons".to_string(),
        })
    );
}

#[test]
fn a_bad_calendar_has_no_schedule() {
    let mut feed = feed();
    feed.calendar_dates[0].date = "soon".to_string();
    let agency = agency();
    assert_eq!(
        Schedule::index(&feed, &agency).err().unwrap(),
        Error::Feed(FeedError::BadDate {
            file: "calendar_dates.txt".to_string(),
            value: "soon".to_string(),
        })
    );
}

#[test]
fn noon_decides_the_instants_of_a_date() {
    let feed = feed();
    let agency = agency();
    let tz = Timezone::named("America/New_York").unwrap();
    let calendar = ServiceCalendar::build(&feed).ok().unwrap();
    let schedule = Schedule::index_with(&feed, &agency, tz, calendar);
    let day = date(2026, 4, 1);
    assert_eq!(schedule.agency_id(), "MTA_NYCT");
    assert_eq!(schedule.dimension_sizes(), (1, 2));
    assert_eq!(schedule.call_count(day), 2);
    assert_eq!(schedule.calendar().service_count(), 1);

    let noon = instant_of(2026, 4, 1, 16);
    assert_eq!(schedule.noon_on(day), Some(noon));
    let (events, _) = schedule.for_date_at(day, Some(noon)).unwrap();
    assert_eq!(events, schedule.for_date(day).unwrap().0);
    assert_eq!(events[0].scheduled_arrival.seconds(), noon - 6 * 3600);
    assert_eq!(events[0].scheduled_departure.micros(), (noon - 6 * 3600 + 30) * 1_000_000);

    assert_eq!(
        schedule.for_date_at(day, None).unwrap_err(),
        Error::Feed(FeedError::AmbiguousLocalTime {
            local: "2026-04-01 12:00:00".to_string(),
            timezone: "America/New_York".to_string(),
        })
    );
}

fn instant_of(y: i32, m: u32, d: u32, hour: u32) -> i64 {
    NaiveDate::from_ymd_opt(y, m, d)
        .unwrap()
        .and_hms_opt(hour, 0, 0)
        .unwrap()
        .and_utc()
        .timestamp()
}

#[test]
fn a_date_without_timed_calls_needs_no_noon() {
    let mut feed = feed();
    for row in &mut feed.stop_times {
        row.arrival_time = String::new();
        row.departure_time = "bad".to_string();
    }
    let agency = agency();
    let schedule = Schedule::index(&feed, &agency).ok().unwrap();
    let (events, stats) = schedule.for_date_at(date(2026, 4, 1), None).unwrap();
    assert!(events.is_empty());
    assert_eq!(
        stats,
        Stats {
            events: 0,
            trips: 1,
            untimed_stop_times: 0,
            malformed_times: 2,
            crossing_midnight: 0,
        }
    );
}

#[test]
fn calls_with_one_sequence_number_keep_their_file_order() {
    let mut feed = feed();
    feed.stop_times = vec![
        stop_time("T1", "B", 2, "06:10:00", "06:10:00"),
        stop_time("T1", "C", 2, "06:11:00", "06:11:00"),
        stop_time("T1", "A", 1, "06:00:00", "06:00:00"),
    ];
    let agency = agency();
    let schedule = Schedule::index(&feed, &agency).ok().unwrap();
    let (events, _) = schedule.for_date(date(2026, 4, 1)).unwrap();
    let stops: Vec<&str> = events.iter().map(|e| e.stop_id.as_str()).collect();
    assert_eq!(stops, ["A", "B", "C"]);
}

#[test]
fn trips_come_in_feed_order_whatever_their_service() {
    let order_of = |trips: Vec<TripRow>| {
        let mut feed = feed();
        feed.trips = trips;
        feed.stop_times = vec![
            stop_time("T1", "101N", 1, "06:00:00", "06:00:00"),
            stop_time("T2", "101N", 1, "06:00:00", "06:00:00"),
            stop_time("T3", "101N", 1, "06:00:00", "06:00:00"),
        ];
        for service in ["Z", "A"] {
            feed.calendar_dates.push(CalendarDateRow {
                service_id: service.to_string(),
                date: "20260401".to_string(),
                exception_type: 1,
            });
        }
        let agency = agency();
        let schedule = Schedule::index(&feed, &agency).ok().unwrap();
        let (events, stats) = schedule.for_date(date(2026, 4, 1)).unwrap();
        assert_eq!(stats.trips, events.len());
        events.into_iter().map(|event| event.trip_id).collect::<Vec<String>>()
    };
    assert_eq!(
        order_of(vec![trip("T3", "1", "Z"), trip("T2", "1", "A"), trip("T1", "1", "A")]),
        ["T3", "T2", "T1"]
    );
    assert_eq!(order_of(vec![trip("T1", "1", "Z"), trip("T2", "1", "A")]), ["T1", "T2"]);
    assert_eq!(
        order_of(vec![trip("T2", "1", "A"), trip("T3", "1", "NEVER"), trip("T1", "1", "Z")]),
        ["T2", "T1"]
    );
}

#[test]
fn the_order_of_stop_times_is_irrelevant() {
    let mut feed = feed();
    feed.trips.push(trip("T2", "1", "SVC"));
    feed.stop_times = vec![
        stop_time("T2", "B", 7, "25:10:00", ""),
        stop_time("T1", "A", 1, "06:00:00", "06:00:30"),
        stop_time("T1", "B", 4, "", ""),
        stop_time("T2", "A", 2, "24:59:00", "25:00:00"),
        stop_time("T1", "C", 9, "8:5:00", "08:05:00"),
    ];
    let agency = agency();
    let resolve = |feed: &StaticFeed| {
        let schedule = Schedule::index(feed, &agency).ok().unwrap();
        schedule.for_date(date(2026, 4, 1)).unwrap()
    };
    let (events, stats) = resolve(&feed);
    assert_eq!(
        events
            .iter()
            .map(|event| (event.trip_id.as_str(), event.stop_sequence))
            .collect::<Vec<_>>(),
        [("T1", 1), ("T2", 2), ("T2", 7)]
    );
    assert_eq!(
        stats,
        Stats {
            events: 3,
            trips: 2,
            untimed_stop_times: 1,
            malformed_times: 1,
            crossing_midnight: 2,
        }
    );
    for _ in 0..feed.stop_times.len() {
        feed.stop_times.rotate_left(1);
        assert_eq!(resolve(&feed), (events.clone(), stats));
    }
    feed.stop_times.reverse();
    assert_eq!(resolve(&feed), (events, stats));
}

#[test]
fn every_call_is_accounted_for() {
    let mut feed = feed();
    feed.stop_times.push(stop_time("T1", "X", 3, "", " "));
    feed.stop_times.push(stop_time("T1", "X", 4, "8:5", "06:00:00"));
    feed.stop_times.push(stop_time("T1", "X", 5, "26:00:00", ""));
    let agency = agency();
    let schedule = Schedule::index(&feed, &agency).ok().unwrap();
    let day = date(2026, 4, 1);
    let (events, stats) = schedule.for_date(day).unwrap();
    assert_eq!(
        stats,
        Stats {
            events: 3,
            trips: 1,
            untimed_stop_times: 1,
            malformed_times: 1,
            crossing_midnight: 1,
        }
    );
    assert_eq!(
        stats.events + stats.untimed_stop_times + stats.malformed_times,
        schedule.call_count(day)
    );
    assert!(events.iter().all(|e| e.service_date == day));
}

#[test]
fn rollovers_count_calls_that_arrive_after_midnight() {
    let rows = vec![
        stop_time("T", "A", 1, "23:59:59", "24:00:00"),
        stop_time("T", "A", 2, "24:00:00", "24:00:00"),
        stop_time("T", "A", 3, "", "25:00:00"),
        stop_time("T", "A", 4, "bad", "25:00:00"),
        stop_time("T", "A", 5, "47:59:59", ""),
    ];
    assert_eq!(rollovers(&rows), 2);
}
