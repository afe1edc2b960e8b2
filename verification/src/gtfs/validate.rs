//! Referential integrity checks over a parsed static feed.
//!
//! GTFS is a relational model shipped as loose CSVs with nothing enforcing the
//! foreign keys. A dangling key found late becomes a silently missing slice;
//! found here, it is one line naming the file, the field and the value.
//!
//! Violations are aggregated by value rather than by row: when a feed breaks it
//! usually breaks in bulk, and one retired stop referenced by forty thousand
//! stop times is one problem.

use vstd::hash_set::StringHashSet;
use vstd::prelude::*;
use vstd::relations::*;

use crate::error;
use crate::error::{Error, ErrorView, Violation, ViolationView};
use crate::gtfs::archive::StaticFeed;
use crate::gtfs::records;
use crate::gtfs::records::{AgencyRow, CalendarDateRow, CalendarRow, RouteRow, StopRow, StopTimeRow, TripRow};
use crate::keys;
use crate::keys::KeyIndex;
use crate::sort;
use crate::sort::Order;
use crate::text;

verus! {

// ---------------------------------------------------------------------------
// The rules
// ---------------------------------------------------------------------------

/// The texts that are there, in order.
pub open spec fn somes(values: Seq<Option<Seq<char>>>) -> Seq<Seq<char>>
    decreases values.len(),
{
    if values.len() == 0 {
        Seq::empty()
    } else {
        let before = somes(values.drop_last());
        match values.last() {
            Some(value) => before.push(value),
            None => before,
        }
    }
}

/// The id of every route.
pub open spec fn route_ids(routes: Seq<RouteRow>) -> Seq<Seq<char>> {
    routes.map_values(|route: RouteRow| route.route_id@)
}

/// The agency that each route names, where it names one.
pub open spec fn route_agencies(routes: Seq<RouteRow>) -> Seq<Seq<char>> {
    somes(routes.map_values(|route: RouteRow| records::present(route.agency_id)))
}

/// The id of every stop.
pub open spec fn stop_ids(stops: Seq<StopRow>) -> Seq<Seq<char>> {
    stops.map_values(|stop: StopRow| stop.stop_id@)
}

/// The parent that each stop names, where it names one.
pub open spec fn stop_parents(stops: Seq<StopRow>) -> Seq<Seq<char>> {
    somes(stops.map_values(|stop: StopRow| records::present(stop.parent_station)))
}

/// The route of every trip.
pub open spec fn trip_routes(trips: Seq<TripRow>) -> Seq<Seq<char>> {
    trips.map_values(|trip: TripRow| trip.route_id@)
}

/// The stop of every stop time.
pub open spec fn stop_time_stops(stop_times: Seq<StopTimeRow>) -> Seq<Seq<char>> {
    stop_times.map_values(|stop_time: StopTimeRow| stop_time.stop_id@)
}

/// The ids that agencies declare.
pub open spec fn declared_agencies(agencies: Seq<AgencyRow>) -> Seq<Seq<char>> {
    somes(agencies.map_values(|agency: AgencyRow| records::opt_text(agency.agency_id)))
}

/// The service of every weekly row.
pub open spec fn weekly_services(weekly: Seq<CalendarRow>) -> Seq<Seq<char>> {
    weekly.map_values(|row: CalendarRow| row.service_id@)
}

/// The service of every exception.
pub open spec fn exception_services(exceptions: Seq<CalendarDateRow>) -> Seq<Seq<char>> {
    exceptions.map_values(|row: CalendarDateRow| row.service_id@)
}

/// The services of either calendar file. A feed may define a service in
/// `calendar.txt`, in `calendar_dates.txt`, or in both.
pub open spec fn service_ids(
    weekly: Seq<CalendarRow>,
    exceptions: Seq<CalendarDateRow>,
) -> Set<Seq<char>> {
    weekly_services(weekly).to_set().union(exception_services(exceptions).to_set())
}

/// A rule on the values of one field of one file: that each refers to one of
/// the ids of another, or, where there is nothing to refer to, that no value
/// occurs twice.
pub struct Rule {
    pub file: Seq<char>,
    pub field: Seq<char>,
    pub references: Seq<char>,
    pub values: Seq<Seq<char>>,
    pub valid: Option<Set<Seq<char>>>,
}

/// Whether `v` reports a value that breaks a rule, with the number of rows that
/// carry it.
pub open spec fn breaks(rule: Rule, v: ViolationView) -> bool {
    &&& v.file == rule.file
    &&& v.field == rule.field
    &&& v.references == rule.references
    &&& v.occurrences == keys::rows_with(rule.values, v.value).len()
    &&& match rule.valid {
        Some(valid) => rule.values.contains(v.value) && !valid.contains(v.value),
        None => v.occurrences > 1,
    }
}

/// The rules of a feed. Agencies are only checked when the feed names one at
/// all: GTFS permits omitting `agency_id` in a single-agency feed.
pub open spec fn rules(feed: StaticFeed) -> Seq<Rule> {
    seq![
        Rule {
            file: "trips.txt"@,
            field: "route_id"@,
            references: "routes.txt"@,
            values: trip_routes(feed.trips@),
            valid: Some(route_ids(feed.routes@).to_set()),
        },
        Rule {
            file: "trips.txt"@,
            field: "service_id"@,
            references: "calendar.txt/calendar_dates.txt"@,
            values: records::trip_services(feed.trips@),
            valid: Some(service_ids(feed.calendar@, feed.calendar_dates@)),
        },
        Rule {
            file: "stop_times.txt"@,
            field: "trip_id"@,
            references: "trips.txt"@,
            values: records::stop_time_trips(feed.stop_times@),
            valid: Some(records::trip_ids(feed.trips@).to_set()),
        },
        Rule {
            file: "stop_times.txt"@,
            field: "stop_id"@,
            references: "stops.txt"@,
            values: stop_time_stops(feed.stop_times@),
            valid: Some(stop_ids(feed.stops@).to_set()),
        },
        Rule {
            file: "stops.txt"@,
            field: "parent_station"@,
            references: "stops.txt"@,
            values: stop_parents(feed.stops@),
            valid: Some(stop_ids(feed.stops@).to_set()),
        },
        Rule {
            file: "routes.txt"@,
            field: "agency_id"@,
            references: "agency.txt"@,
            values: if declared_agencies(feed.agencies@).len() > 0 {
                route_agencies(feed.routes@)
            } else {
                Seq::empty()
            },
            valid: Some(declared_agencies(feed.agencies@).to_set()),
        },
        Rule {
            file: "routes.txt"@,
            field: "route_id"@,
            references: "a unique key"@,
            values: route_ids(feed.routes@),
            valid: None,
        },
        Rule {
            file: "stops.txt"@,
            field: "stop_id"@,
            references: "a unique key"@,
            values: stop_ids(feed.stops@),
            valid: None,
        },
        Rule {
            file: "trips.txt"@,
            field: "trip_id"@,
            references: "a unique key"@,
            values: records::trip_ids(feed.trips@),
            valid: None,
        },
    ]
}

/// Whether `v` reports a violation of a feed.
pub open spec fn is_violation(feed: StaticFeed, v: ViolationView) -> bool {
    exists|i: int| 0 <= i < rules(feed).len() && breaks(#[trigger] rules(feed)[i], v)
}

/// The order of a report: by file, then by field, then by value.
pub open spec fn violation_lt(a: ViolationView, b: ViolationView) -> bool {
    text::text_lt(a.file, b.file) || (a.file == b.file && (text::text_lt(a.field, b.field) || (
    a.field == b.field && text::text_lt(a.value, b.value))))
}

/// Whether `report` holds the violations of a feed, each once and in order.
pub open spec fn is_report(feed: StaticFeed, report: Seq<ViolationView>) -> bool {
    &&& forall|i: int, j: int|
        0 <= i < j < report.len() ==> violation_lt(#[trigger] report[i], #[trigger] report[j])
    &&& forall|v: ViolationView| #[trigger] report.contains(v) <==> is_violation(feed, v)
}

/// No two rules are about the same field of the same file.
proof fn lemma_rules_distinct(feed: StaticFeed, i: int, j: int)
    requires
        0 <= i < j < rules(feed).len(),
    ensures
        rules(feed)[i].file != rules(feed)[j].file || rules(feed)[i].field != rules(feed)[j].field,
{
    reveal_strlit("trips.txt");
    reveal_strlit("stop_times.txt");
    reveal_strlit("stops.txt");
    reveal_strlit("routes.txt");
    reveal_strlit("route_id");
    reveal_strlit("service_id");
    reveal_strlit("trip_id");
    reveal_strlit("stop_id");
    reveal_strlit("parent_station");
    reveal_strlit("agency_id");
    assert("trips.txt"@[0] != "stops.txt"@[0]);
    assert("trip_id"@[0] != "stop_id"@[0]);
    assert("trips.txt"@.len() == 9 && "stops.txt"@.len() == 9 && "routes.txt"@.len() == 10
        && "stop_times.txt"@.len() == 14);
    assert("route_id"@.len() == 8 && "service_id"@.len() == 10 && "trip_id"@.len() == 7
        && "stop_id"@.len() == 7 && "parent_station"@.len() == 14 && "agency_id"@.len() == 9);
}

// ---------------------------------------------------------------------------
// Collecting
// ---------------------------------------------------------------------------

/// Whether `found` holds exactly what breaks the first `n` rules, where `tags`
/// says of each violation which rule it breaks.
spec fn collected(found: Seq<Violation>, tags: Seq<int>, all: Seq<Rule>, n: int) -> bool {
    &&& found.len() == tags.len()
    &&& forall|p: int|
        0 <= p < found.len() ==> 0 <= #[trigger] tags[p] < n && breaks(all[tags[p]], found[p]@)
    &&& forall|p: int, q: int|
        0 <= p < q < found.len() && #[trigger] tags[p] == #[trigger] tags[q] ==> found[p].value@
            != found[q].value@
    &&& forall|i: int, v: ViolationView|
        0 <= i < n && #[trigger] breaks(all[i], v) ==> exists|p: int|
            0 <= p < found.len() && (#[trigger] found[p])@ == v
}

/// Whether `found` holds what breaks a rule, one violation for each value.
spec fn all_broken(rule: Rule, found: Seq<Violation>) -> bool {
    &&& forall|p: int| 0 <= p < found.len() ==> breaks(rule, (#[trigger] found[p])@)
    &&& forall|p: int, q: int|
        0 <= p < q < found.len() ==> (#[trigger] found[p]).value@ != (#[trigger] found[q]).value@
    &&& forall|v: ViolationView| #[trigger]
        breaks(rule, v) ==> exists|p: int| 0 <= p < found.len() && (#[trigger] found[p])@ == v
}

/// The rule on the values of an index.
spec fn rule_on(
    file: &str,
    field: &str,
    references: &str,
    values: &KeyIndex,
    valid: Option<&StringHashSet>,
) -> Rule {
    Rule {
        file: file@,
        field: field@,
        references: references@,
        values: values@,
        valid: match valid {
            Some(known) => Some(known@),
            None => None,
        },
    }
}

/// What breaks a rule, one violation for each value.
fn broken(file: &str, field: &str, references: &str, values: &KeyIndex, valid: Option<&StringHashSet>) -> (r:
    Vec<Violation>)
    requires
        values.well_formed(),
    ensures
        all_broken(rule_on(file, field, references, values, valid), r@),
{
    let ghost rule = rule_on(file, field, references, values, valid);
    let ghost distinct = values.distinct();
    let mut r: Vec<Violation> = Vec::new();
    let n: usize = values.key_count();
    let mut i: usize = 0;
    proof {
        values.lemma_distinct();
    }
    while i < n
        invariant
            n == distinct.len(),
            distinct == values.distinct(),
            distinct.no_duplicates(),
            forall|key: Seq<char>| #[trigger] distinct.contains(key) <==> values@.contains(key),
            values.well_formed(),
            rule == rule_on(file, field, references, values, valid),
            i <= n,
            forall|p: int|
                0 <= p < r@.len() ==> breaks(rule, (#[trigger] r@[p])@) && distinct.take(
                    i as int,
                ).contains(r@[p].value@),
            forall|p: int, q: int|
                0 <= p < q < r@.len() ==> (#[trigger] r@[p]).value@ != (#[trigger] r@[q]).value@,
            forall|v: ViolationView| #[trigger]
                breaks(rule, v) && distinct.take(i as int).contains(v.value) ==> exists|p: int|
                    0 <= p < r@.len() && (#[trigger] r@[p])@ == v,
        decreases n - i,
    {
        let value: &str = values.key_at(i);
        let rows: &Vec<usize> = values.rows_at(i);
        let count: usize = rows.len();
        let ghost before = r@;
        let ghost shorter = distinct.take(i as int);
        let ghost longer = distinct.take(i + 1);
        proof {
            assert(keys::ints(rows@).len() == rows@.len());
            keys::lemma_rows_with(values@, value@);
            assert(distinct.contains(value@)) by {
                assert(distinct[i as int] == value@);
            }
            assert(longer[i as int] == value@);
            assert forall|x: Seq<char>| #[trigger]
                longer.contains(x) <==> shorter.contains(x) || x == value@ by {
                if shorter.contains(x) {
                    let k = choose|k: int| 0 <= k < shorter.len() && shorter[k] == x;
                    assert(longer[k] == x);
                }
                if longer.contains(x) {
                    let k = choose|k: int| 0 <= k < longer.len() && longer[k] == x;
                    if k < i {
                        assert(shorter[k] == x);
                    }
                }
            }
            assert(!shorter.contains(value@)) by {
                if shorter.contains(value@) {
                    let k = choose|k: int| 0 <= k < shorter.len() && shorter[k] == value@;
                    assert(distinct[k] == distinct[i as int]);
                }
            }
        }
        let broken: bool = match valid {
            Some(known) => !known.contains(value),
            None => count > 1,
        };
        if broken {
            let violation: Violation = Violation {
                file: file.to_string(),
                field: field.to_string(),
                value: value.to_string(),
                references: references.to_string(),
                occurrences: count,
            };
            assert(breaks(rule, violation@));
            r.push(violation);
            proof {
                assert forall|p: int| 0 <= p < r@.len() implies breaks(rule, (#[trigger] r@[p])@)
                    && longer.contains(r@[p].value@) by {
                    if p < before.len() {
                        assert(r@[p] == before[p]);
                    }
                }
                assert forall|p: int, q: int| 0 <= p < q < r@.len() implies (
                #[trigger] r@[p]).value@ != (#[trigger] r@[q]).value@ by {
                    assert(r@[p] == before[p]);
                    if q < before.len() {
                        assert(r@[q] == before[q]);
                    }
                }
                assert forall|v: ViolationView| #[trigger]
                    breaks(rule, v) && longer.contains(v.value) implies exists|p: int|
                    0 <= p < r@.len() && (#[trigger] r@[p])@ == v by {
                    if v.value == value@ {
                        assert(v =~= violation@);
                        assert(r@[before.len() as int]@ == v);
                    } else {
                        let p = choose|p: int| 0 <= p < before.len() && (#[trigger] before[p])@ == v;
                        assert(r@[p]@ == v);
                    }
                }
            }
        } else {
            proof {
                assert forall|v: ViolationView| #[trigger]
                    breaks(rule, v) && longer.contains(v.value) implies exists|p: int|
                    0 <= p < r@.len() && (#[trigger] r@[p])@ == v by {
                    assert(v.value != value@);
                }
            }
        }
        i = i + 1;
    }
    proof {
        assert(distinct.take(n as int) =~= distinct);
        assert forall|v: ViolationView| #[trigger] breaks(rule, v) implies exists|p: int|
            0 <= p < r@.len() && (#[trigger] r@[p])@ == v by {
            keys::lemma_rows_with(values@, v.value);
            assert(values@.contains(v.value));
            assert(distinct.contains(v.value));
        }
    }
    r
}

/// Adding what breaks one more rule.
proof fn lemma_collect(
    found: Seq<Violation>,
    tags: Seq<int>,
    more: Seq<Violation>,
    all: Seq<Rule>,
    n: int,
)
    requires
        0 <= n < all.len(),
        collected(found, tags, all, n),
        all_broken(all[n], more),
    ensures
        collected(found + more, tags + Seq::new(more.len(), |p: int| n), all, n + 1),
{
    let longer = found + more;
    let marks = tags + Seq::new(more.len(), |p: int| n);
    assert forall|p: int| 0 <= p < longer.len() implies 0 <= #[trigger] marks[p] < n + 1 && breaks(
        all[marks[p]],
        longer[p]@,
    ) by {
        if p < found.len() {
            assert(marks[p] == tags[p]);
            assert(longer[p] == found[p]);
        } else {
            assert(marks[p] == n);
            assert(longer[p] == more[p - found.len()]);
        }
    }
    assert forall|p: int, q: int|
        0 <= p < q < longer.len() && #[trigger] marks[p] == #[trigger] marks[q] implies longer[p].value@
        != longer[q].value@ by {
        if q < found.len() {
            assert(marks[p] == tags[p] && marks[q] == tags[q]);
        } else if p >= found.len() {
            assert(longer[p] == more[p - found.len()]);
            assert(longer[q] == more[q - found.len()]);
        } else {
            assert(marks[p] == tags[p]);
            assert(marks[q] == n);
        }
    }
    assert forall|i: int, v: ViolationView|
        0 <= i < n + 1 && #[trigger] breaks(all[i], v) implies exists|p: int|
        0 <= p < longer.len() && (#[trigger] longer[p])@ == v by {
        if i < n {
            let p = choose|p: int| 0 <= p < found.len() && (#[trigger] found[p])@ == v;
            assert(longer[p]@ == v);
        } else {
            let p = choose|p: int| 0 <= p < more.len() && (#[trigger] more[p])@ == v;
            assert(longer[found.len() + p]@ == v);
        }
    }
}

// ---------------------------------------------------------------------------
// Columns
// ---------------------------------------------------------------------------

/// The routes, services and ids of the trips.
fn index_trips(trips: &Vec<TripRow>) -> (r: (KeyIndex, KeyIndex, KeyIndex))
    ensures
        r.0.well_formed() && r.0@ == trip_routes(trips@),
        r.1.well_formed() && r.1@ == records::trip_services(trips@),
        r.2.well_formed() && r.2@ == records::trip_ids(trips@),
{
    let mut routes: KeyIndex = KeyIndex::new();
    let mut services: KeyIndex = KeyIndex::new();
    let mut ids: KeyIndex = KeyIndex::new();
    let mut i: usize = 0;
    while i < trips.len()
        invariant
            i <= trips@.len(),
            routes.well_formed() && routes@ == trip_routes(trips@).take(i as int),
            services.well_formed() && services@ == records::trip_services(trips@).take(i as int),
            ids.well_formed() && ids@ == records::trip_ids(trips@).take(i as int),
        decreases trips@.len() - i,
    {
        let trip: &TripRow = &trips[i];
        routes.push(trip.route_id.as_str(), i);
        services.push(trip.service_id.as_str(), i);
        ids.push(trip.trip_id.as_str(), i);
        assert(routes@ =~= trip_routes(trips@).take(i + 1));
        assert(services@ =~= records::trip_services(trips@).take(i + 1));
        assert(ids@ =~= records::trip_ids(trips@).take(i + 1));
        i = i + 1;
    }
    assert(routes@ =~= trip_routes(trips@));
    assert(services@ =~= records::trip_services(trips@));
    assert(ids@ =~= records::trip_ids(trips@));
    (routes, services, ids)
}

/// The trips and stops of the stop times.
fn index_stop_times(stop_times: &Vec<StopTimeRow>) -> (r: (KeyIndex, KeyIndex))
    ensures
        r.0.well_formed() && r.0@ == records::stop_time_trips(stop_times@),
        r.1.well_formed() && r.1@ == stop_time_stops(stop_times@),
{
    let mut trips: KeyIndex = KeyIndex::new();
    let mut stops: KeyIndex = KeyIndex::new();
    let mut i: usize = 0;
    while i < stop_times.len()
        invariant
            i <= stop_times@.len(),
            trips.well_formed() && trips@ == records::stop_time_trips(stop_times@).take(i as int),
            stops.well_formed() && stops@ == stop_time_stops(stop_times@).take(i as int),
        decreases stop_times@.len() - i,
    {
        trips.push(stop_times[i].trip_id.as_str(), i);
        stops.push(stop_times[i].stop_id.as_str(), i);
        assert(trips@ =~= records::stop_time_trips(stop_times@).take(i + 1));
        assert(stops@ =~= stop_time_stops(stop_times@).take(i + 1));
        i = i + 1;
    }
    assert(trips@ =~= records::stop_time_trips(stop_times@));
    assert(stops@ =~= stop_time_stops(stop_times@));
    (trips, stops)
}

/// The ids and parents of the stops.
fn index_stops(stops: &Vec<StopRow>) -> (r: (KeyIndex, KeyIndex))
    ensures
        r.0.well_formed() && r.0@ == stop_ids(stops@),
        r.1.well_formed() && r.1@ == stop_parents(stops@),
{
    let ghost cells = stops@.map_values(|stop: StopRow| records::present(stop.parent_station));
    let mut ids: KeyIndex = KeyIndex::new();
    let mut parents: KeyIndex = KeyIndex::new();
    let mut named: usize = 0;
    let mut i: usize = 0;
    while i < stops.len()
        invariant
            i <= stops@.len(),
            cells == stops@.map_values(|stop: StopRow| records::present(stop.parent_station)),
            ids.well_formed() && ids@ == stop_ids(stops@).take(i as int),
            parents.well_formed() && parents@ == somes(cells.take(i as int)),
            named == parents@.len(),
            named <= i,
        decreases stops@.len() - i,
    {
        assert(cells.take(i + 1).drop_last() =~= cells.take(i as int));
        ids.push(stops[i].stop_id.as_str(), i);
        if let Some(parent) = records::non_empty(&stops[i].parent_station) {
            parents.push(parent, named);
            named = named + 1;
        }
        assert(ids@ =~= stop_ids(stops@).take(i + 1));
        i = i + 1;
    }
    assert(ids@ =~= stop_ids(stops@));
    assert(cells.take(cells.len() as int) =~= cells);
    (ids, parents)
}

/// The ids and agencies of the routes.
fn index_routes(routes: &Vec<RouteRow>) -> (r: (KeyIndex, KeyIndex))
    ensures
        r.0.well_formed() && r.0@ == route_ids(routes@),
        r.1.well_formed() && r.1@ == route_agencies(routes@),
{
    let ghost cells = routes@.map_values(|route: RouteRow| records::present(route.agency_id));
    let mut ids: KeyIndex = KeyIndex::new();
    let mut agencies: KeyIndex = KeyIndex::new();
    let mut named: usize = 0;
    let mut i: usize = 0;
    while i < routes.len()
        invariant
            i <= routes@.len(),
            cells == routes@.map_values(|route: RouteRow| records::present(route.agency_id)),
            ids.well_formed() && ids@ == route_ids(routes@).take(i as int),
            agencies.well_formed() && agencies@ == somes(cells.take(i as int)),
            named == agencies@.len(),
            named <= i,
        decreases routes@.len() - i,
    {
        assert(cells.take(i + 1).drop_last() =~= cells.take(i as int));
        ids.push(routes[i].route_id.as_str(), i);
        if let Some(agency) = records::non_empty(&routes[i].agency_id) {
            agencies.push(agency, named);
            named = named + 1;
        }
        assert(ids@ =~= route_ids(routes@).take(i + 1));
        i = i + 1;
    }
    assert(ids@ =~= route_ids(routes@));
    assert(cells.take(cells.len() as int) =~= cells);
    (ids, agencies)
}

/// The ids that agencies declare.
fn index_agencies(agencies: &Vec<AgencyRow>) -> (r: KeyIndex)
    ensures
        r.well_formed() && r@ == declared_agencies(agencies@),
{
    let ghost cells = agencies@.map_values(|agency: AgencyRow| records::opt_text(agency.agency_id));
    let mut ids: KeyIndex = KeyIndex::new();
    let mut named: usize = 0;
    let mut i: usize = 0;
    while i < agencies.len()
        invariant
            i <= agencies@.len(),
            cells == agencies@.map_values(
                |agency: AgencyRow| records::opt_text(agency.agency_id),
            ),
            ids.well_formed() && ids@ == somes(cells.take(i as int)),
            named == ids@.len(),
            named <= i,
        decreases agencies@.len() - i,
    {
        assert(cells.take(i + 1).drop_last() =~= cells.take(i as int));
        if let Some(id) = &agencies[i].agency_id {
            ids.push(id.as_str(), named);
            named = named + 1;
        }
        i = i + 1;
    }
    assert(cells.take(cells.len() as int) =~= cells);
    ids
}

/// The services of the weekly rows.
fn index_weekly(weekly: &Vec<CalendarRow>) -> (r: KeyIndex)
    ensures
        r.well_formed() && r@ == weekly_services(weekly@),
{
    let mut ids: KeyIndex = KeyIndex::new();
    let mut i: usize = 0;
    while i < weekly.len()
        invariant
            i <= weekly@.len(),
            ids.well_formed() && ids@ == weekly_services(weekly@).take(i as int),
        decreases weekly@.len() - i,
    {
        ids.push(weekly[i].service_id.as_str(), i);
        assert(ids@ =~= weekly_services(weekly@).take(i + 1));
        i = i + 1;
    }
    assert(ids@ =~= weekly_services(weekly@));
    ids
}

/// The services of the exceptions.
fn index_exceptions(exceptions: &Vec<CalendarDateRow>) -> (r: KeyIndex)
    ensures
        r.well_formed() && r@ == exception_services(exceptions@),
{
    let mut ids: KeyIndex = KeyIndex::new();
    let mut i: usize = 0;
    while i < exceptions.len()
        invariant
            i <= exceptions@.len(),
            ids.well_formed() && ids@ == exception_services(exceptions@).take(i as int),
        decreases exceptions@.len() - i,
    {
        ids.push(exceptions[i].service_id.as_str(), i);
        assert(ids@ =~= exception_services(exceptions@).take(i + 1));
        i = i + 1;
    }
    assert(ids@ =~= exception_services(exceptions@));
    ids
}

/// Adds the keys of an index to a set.
fn add_known(known: &mut StringHashSet, index: &KeyIndex)
    requires
        index.well_formed(),
    ensures
        final(known)@ == old(known)@.union(index@.to_set()),
{
    let ghost before = known@;
    let ghost keys = index.distinct();
    let n: usize = index.key_count();
    let mut i: usize = 0;
    assert(known@ =~= before.union(keys.take(0).to_set()));
    while i < n
        invariant
            n == keys.len(),
            keys == index.distinct(),
            i <= n,
            known@ == before.union(keys.take(i as int).to_set()),
        decreases n - i,
    {
        let _ = known.insert(index.key_at(i).to_string());
        proof {
            let shorter = keys.take(i as int);
            let longer = keys.take(i + 1);
            assert(longer =~= shorter.push(keys[i as int]));
            assert(longer.to_set() =~= shorter.to_set().insert(keys[i as int])) by {
                assert forall|x: Seq<char>| #[trigger]
                    longer.to_set().contains(x) <==> shorter.to_set().insert(
                        keys[i as int],
                    ).contains(x) by {
                    if shorter.contains(x) {
                        let k = choose|k: int| 0 <= k < shorter.len() && shorter[k] == x;
                        assert(longer[k] == x);
                    }
                    assert(longer[i as int] == keys[i as int]);
                    if longer.contains(x) {
                        let k = choose|k: int| 0 <= k < longer.len() && longer[k] == x;
                        if k < i {
                            assert(shorter[k] == x);
                        }
                    }
                }
            }
            assert(known@ =~= before.union(longer.to_set()));
        }
        i = i + 1;
    }
    proof {
        index.lemma_distinct();
        assert(keys.take(n as int) =~= keys);
    }
}

/// The keys of an index, as a set.
fn known_keys(index: &KeyIndex) -> (r: StringHashSet)
    requires
        index.well_formed(),
    ensures
        r@ == index@.to_set(),
{
    let mut r: StringHashSet = StringHashSet::new();
    add_known(&mut r, index);
    assert(r@ =~= index@.to_set());
    r
}

// ---------------------------------------------------------------------------
// The report
// ---------------------------------------------------------------------------

/// The order of violations.
struct ByPlace<'a> {
    found: &'a Vec<Violation>,
}

impl<'a> Order for ByPlace<'a> {
    closed spec fn leq(&self, a: int, b: int) -> bool {
        let x = self.found@[a]@;
        let y = self.found@[b]@;
        violation_lt(x, y) || (x.file == y.file && x.field == y.field && x.value == y.value && a
            <= b)
    }

    closed spec fn has(&self, row: int) -> bool {
        0 <= row < self.found@.len()
    }

    proof fn lemma_total(&self) {
        let leq = |a: int, b: int| self.leq(a, b);
        assert forall|a: int, b: int| #[trigger] leq(a, b) || leq(b, a) by {
            lemma_places_compare(self.found@[a]@, self.found@[b]@);
        }
        assert forall|a: int, b: int| #[trigger] leq(a, b) && #[trigger] leq(b, a) implies a
            == b by {
            lemma_places_compare(self.found@[a]@, self.found@[b]@);
        }
        assert forall|a: int, b: int, c: int| #[trigger] leq(a, b) && #[trigger] leq(b, c) implies leq(
            a,
            c,
        ) by {
            lemma_places_chain(self.found@[a]@, self.found@[b]@, self.found@[c]@);
        }
    }

    fn not_after(&self, a: usize, b: usize) -> (r: bool) {
        let x: &Violation = &self.found[a];
        let y: &Violation = &self.found[b];
        proof {
            text::lemma_text_le_total(x.file@, y.file@);
            text::lemma_text_le_total(x.field@, y.field@);
            text::lemma_text_le_total(x.value@, y.value@);
        }
        if !text::same(x.file.as_str(), y.file.as_str()) {
            return text::not_after(x.file.as_str(), y.file.as_str());
        }
        if !text::same(x.field.as_str(), y.field.as_str()) {
            return text::not_after(x.field.as_str(), y.field.as_str());
        }
        if !text::same(x.value.as_str(), y.value.as_str()) {
            return text::not_after(x.value.as_str(), y.value.as_str());
        }
        a <= b
    }
}

/// Of two violations one comes first, unless both are about the same value.
proof fn lemma_places_compare(x: ViolationView, y: ViolationView)
    ensures
        violation_lt(x, y) || violation_lt(y, x) || (x.file == y.file && x.field == y.field
            && x.value == y.value),
        !(violation_lt(x, y) && violation_lt(y, x)),
        violation_lt(x, y) ==> !(x.file == y.file && x.field == y.field && x.value == y.value),
{
    text::lemma_text_le_total(x.file, y.file);
    text::lemma_text_le_total(x.field, y.field);
    text::lemma_text_le_total(x.value, y.value);
}

/// Coming first is transitive.
proof fn lemma_places_chain(x: ViolationView, y: ViolationView, z: ViolationView)
    ensures
        violation_lt(x, y) && violation_lt(y, z) ==> violation_lt(x, z),
{
    if violation_lt(x, y) && violation_lt(y, z) {
        lemma_text_lt_chain(x.file, y.file, z.file);
        lemma_text_lt_chain(x.field, y.field, z.field);
        lemma_text_lt_chain(x.value, y.value, z.value);
    }
}

proof fn lemma_text_lt_chain(x: Seq<char>, y: Seq<char>, z: Seq<char>)
    ensures
        text::text_lt(x, y) && text::text_lt(y, z) ==> text::text_lt(x, z),
{
    if text::text_lt(x, y) && text::text_lt(y, z) {
        text::lemma_text_le_transitive(x, y, z);
        text::lemma_text_le_total(x, y);
    }
}

/// The violations in the order of a report.
fn in_order(found: &Vec<Violation>) -> (r: Vec<Violation>)
    requires
        forall|p: int, q: int|
            0 <= p < q < found@.len() ==> !((#[trigger] found@[p]).file@ == (
            #[trigger] found@[q]).file@ && found@[p].field@ == found@[q].field@ && found@[p].value@
                == found@[q].value@),
    ensures
        forall|i: int, j: int|
            0 <= i < j < r@.len() ==> violation_lt((#[trigger] r@[i])@, (#[trigger] r@[j])@),
        forall|v: ViolationView| #[trigger]
            error::violation_views(r@).contains(v) <==> error::violation_views(found@).contains(v),
{
    let order: ByPlace = ByPlace { found };
    let mut rows: Vec<usize> = Vec::new();
    let mut i: usize = 0;
    while i < found.len()
        invariant
            i <= found@.len(),
            rows@.len() == i,
            forall|k: int| 0 <= k < i ==> #[trigger] rows@[k] == k,
        decreases found@.len() - i,
    {
        rows.push(i);
        i = i + 1;
    }
    let sorted: Vec<usize> = sort::sorted(&order, &rows);
    let ghost leq = |a: int, b: int| order.leq(a, b);
    let ghost all = keys::ints(rows@);
    let ghost ranked = keys::ints(sorted@);
    proof {
        broadcast use vstd::seq_lib::group_to_multiset_ensures;

        order.lemma_total();
        all.lemma_sort_by_ensures(leq);
        assert forall|x: int| #[trigger] ranked.contains(x) <==> 0 <= x < found@.len() by {
            assert(ranked.to_multiset().count(x) == all.to_multiset().count(x));
            if 0 <= x < found@.len() {
                assert(all[x] == x);
            }
            if all.contains(x) {
                let k = choose|k: int| 0 <= k < all.len() && all[k] == x;
                assert(rows@[k] == k);
            }
        }
        assert(all.no_duplicates()) by {
            assert forall|a: int, b: int|
                0 <= a < all.len() && 0 <= b < all.len() && a != b implies all[a] != all[b] by {
                assert(all[a] == rows@[a]);
                assert(all[b] == rows@[b]);
            }
        }
        all.lemma_multiset_has_no_duplicates();
        ranked.lemma_multiset_has_no_duplicates_conv();
        assert forall|k: int| 0 <= k < sorted@.len() implies (#[trigger] sorted@[k])
            < found@.len() by {
            assert(ranked[k] == sorted@[k]);
            assert(ranked.contains(sorted@[k] as int));
        }
    }
    let mut r: Vec<Violation> = Vec::new();
    let mut j: usize = 0;
    while j < sorted.len()
        invariant
            j <= sorted@.len(),
            r@.len() == j,
            forall|k: int| 0 <= k < sorted@.len() ==> (#[trigger] sorted@[k]) < found@.len(),
            forall|k: int| 0 <= k < j ==> (#[trigger] r@[k])@ == found@[sorted@[k] as int]@,
        decreases sorted@.len() - j,
    {
        r.push(found[sorted[j]].clone());
        j = j + 1;
    }
    proof {
        assert forall|a: int, b: int| 0 <= a < b < r@.len() implies violation_lt(
            (#[trigger] r@[a])@,
            (#[trigger] r@[b])@,
        ) by {
            assert(ranked[a] == sorted@[a]);
            assert(ranked[b] == sorted@[b]);
            assert(leq(ranked[a], ranked[b]));
            assert(ranked[a] != ranked[b]);
            let x = sorted@[a] as int;
            let y = sorted@[b] as int;
            assert(r@[a]@ == found@[x]@ && r@[b]@ == found@[y]@);
            if x < y {
                assert(!(found@[x].file@ == found@[y].file@ && found@[x].field@
                    == found@[y].field@ && found@[x].value@ == found@[y].value@));
            } else {
                assert(!(found@[y].file@ == found@[x].file@ && found@[y].field@
                    == found@[x].field@ && found@[y].value@ == found@[x].value@));
            }
        }
        let views = error::violation_views(r@);
        let sources = error::violation_views(found@);
        assert forall|v: ViolationView| #[trigger] views.contains(v) <==> sources.contains(v) by {
            if views.contains(v) {
                let k = choose|k: int| 0 <= k < views.len() && views[k] == v;
                assert(views[k] == r@[k]@);
                assert(sources[sorted@[k] as int] == v);
            }
            if sources.contains(v) {
                let x = choose|x: int| 0 <= x < sources.len() && sources[x] == v;
                assert(ranked.contains(x));
                let k = choose|k: int| 0 <= k < ranked.len() && ranked[k] == x;
                assert(ranked[k] == sorted@[k]);
                assert(views[k] == r@[k]@);
            }
        }
    }
    r
}

/// Checks every foreign key and every primary key in `feed`. An empty report
/// means that the feed is internally consistent.
pub fn check(feed: &StaticFeed) -> (r: Vec<Violation>)
    ensures
        is_report(*feed, error::violation_views(r@)),
{
    let (route_ids, route_agencies) = index_routes(&feed.routes);
    let (stop_ids, stop_parents) = index_stops(&feed.stops);
    let (trip_routes, trip_services, trip_ids) = index_trips(&feed.trips);
    let (called_trips, called_stops) = index_stop_times(&feed.stop_times);
    let agency_ids: KeyIndex = index_agencies(&feed.agencies);
    let known_routes: StringHashSet = known_keys(&route_ids);
    let known_stops: StringHashSet = known_keys(&stop_ids);
    let known_trips: StringHashSet = known_keys(&trip_ids);
    let known_agencies: StringHashSet = known_keys(&agency_ids);
    let mut known_services: StringHashSet = known_keys(&index_weekly(&feed.calendar));
    add_known(&mut known_services, &index_exceptions(&feed.calendar_dates));

    let ghost all = rules(*feed);
    let ghost mut tags = Seq::<int>::empty();
    let mut found: Vec<Violation> = Vec::new();

    let mut more: Vec<Violation> = broken(
        "trips.txt",
        "route_id",
        "routes.txt",
        &trip_routes,
        Some(&known_routes),
    );
    proof {
        lemma_collect(found@, tags, more@, all, 0);
        tags = tags + Seq::new(more@.len(), |p: int| 0int);
    }
    found.append(&mut more);

    let mut more: Vec<Violation> = broken(
        "trips.txt",
        "service_id",
        "calendar.txt/calendar_dates.txt",
        &trip_services,
        Some(&known_services),
    );
    proof {
        lemma_collect(found@, tags, more@, all, 1);
        tags = tags + Seq::new(more@.len(), |p: int| 1int);
    }
    found.append(&mut more);

    let mut more: Vec<Violation> = broken(
        "stop_times.txt",
        "trip_id",
        "trips.txt",
        &called_trips,
        Some(&known_trips),
    );
    proof {
        lemma_collect(found@, tags, more@, all, 2);
        tags = tags + Seq::new(more@.len(), |p: int| 2int);
    }
    found.append(&mut more);

    let mut more: Vec<Violation> = broken(
        "stop_times.txt",
        "stop_id",
        "stops.txt",
        &called_stops,
        Some(&known_stops),
    );
    proof {
        lemma_collect(found@, tags, more@, all, 3);
        tags = tags + Seq::new(more@.len(), |p: int| 3int);
    }
    found.append(&mut more);

    let mut more: Vec<Violation> = broken(
        "stops.txt",
        "parent_station",
        "stops.txt",
        &stop_parents,
        Some(&known_stops),
    );
    proof {
        lemma_collect(found@, tags, more@, all, 4);
        tags = tags + Seq::new(more@.len(), |p: int| 4int);
    }
    found.append(&mut more);

    // Only checked when the feed names an agency at all.
    let nothing: KeyIndex = KeyIndex::new();
    proof {
        agency_ids.lemma_distinct();
        if agency_ids@.len() > 0 {
            assert(agency_ids@.contains(agency_ids@[0]));
            assert(agency_ids.distinct().contains(agency_ids@[0]));
        }
        if agency_ids.distinct().len() > 0 {
            assert(agency_ids.distinct().contains(agency_ids.distinct()[0]));
            assert(agency_ids@.contains(agency_ids.distinct()[0]));
        }
    }
    let mut more: Vec<Violation> = broken(
        "routes.txt",
        "agency_id",
        "agency.txt",
        if agency_ids.key_count() > 0 {
            &route_agencies
        } else {
            &nothing
        },
        Some(&known_agencies),
    );
    proof {
        lemma_collect(found@, tags, more@, all, 5);
        tags = tags + Seq::new(more@.len(), |p: int| 5int);
    }
    found.append(&mut more);

    // Not dangling references, but the same class of problem: a repeated key
    // makes every join against it ambiguous.
    let mut more: Vec<Violation> = broken("routes.txt", "route_id", "a unique key", &route_ids, None);
    proof {
        lemma_collect(found@, tags, more@, all, 6);
        tags = tags + Seq::new(more@.len(), |p: int| 6int);
    }
    found.append(&mut more);

    let mut more: Vec<Violation> = broken("stops.txt", "stop_id", "a unique key", &stop_ids, None);
    proof {
        lemma_collect(found@, tags, more@, all, 7);
        tags = tags + Seq::new(more@.len(), |p: int| 7int);
    }
    found.append(&mut more);

    let mut more: Vec<Violation> = broken("trips.txt", "trip_id", "a unique key", &trip_ids, None);
    proof {
        lemma_collect(found@, tags, more@, all, 8);
        tags = tags + Seq::new(more@.len(), |p: int| 8int);
    }
    found.append(&mut more);

    proof {
        lemma_places_distinct(*feed, found@, tags);
    }
    let r: Vec<Violation> = in_order(&found);
    proof {
        let views = error::violation_views(r@);
        let sources = error::violation_views(found@);
        assert forall|i: int, j: int| 0 <= i < j < views.len() implies violation_lt(
            #[trigger] views[i],
            #[trigger] views[j],
        ) by {
            assert(views[i] == r@[i]@ && views[j] == r@[j]@);
        }
        assert forall|v: ViolationView| #[trigger]
            views.contains(v) <==> is_violation(*feed, v) by {
            if sources.contains(v) {
                let p = choose|p: int| 0 <= p < sources.len() && sources[p] == v;
                assert(sources[p] == found@[p]@);
                assert(breaks(all[tags[p]], found@[p]@));
            }
            if is_violation(*feed, v) {
                let i = choose|i: int| 0 <= i < all.len() && breaks(#[trigger] all[i], v);
                let p = choose|p: int| 0 <= p < found@.len() && (#[trigger] found@[p])@ == v;
                assert(sources[p] == v);
            }
        }
    }
    r
}

/// Whether `result` is what a dataset is to be built from a feed with: its
/// report, or the error that refuses it.
pub open spec fn is_clearance(
    feed: StaticFeed,
    allow_violations: bool,
    result: Result<Seq<ViolationView>, ErrorView>,
) -> bool {
    match result {
        Ok(report) => (allow_violations || consistent(feed)) && is_report(feed, report),
        Err(e) => !allow_violations && !consistent(feed) && (e matches ErrorView::Integrity(report)
            && is_report(feed, report)),
    }
}

/// Checks a feed that a dataset is to be built from, and gives its report.
///
/// Dangling keys become silently missing slices, so a feed with violations is
/// refused unless they are allowed.
pub fn clear_for_build(feed: &StaticFeed, allow_violations: bool) -> (r: Result<Vec<Violation>, Error>)
    ensures
        match r {
            Ok(report) => (allow_violations || consistent(*feed)) && is_report(
                *feed,
                error::violation_views(report@),
            ),
            Err(e) => !allow_violations && !consistent(*feed) && (
            e@ matches ErrorView::Integrity(report) && is_report(*feed, report)),
        },
        is_clearance(
            *feed,
            allow_violations,
            match r {
                Ok(report) => Ok(error::violation_views(report@)),
                Err(e) => Err(e@),
            },
        ),
{
    let report: Vec<Violation> = check(feed);
    proof {
        law_clean_means_consistent(*feed, error::violation_views(report@));
    }
    if report.len() > 0 && !allow_violations {
        Err(Error::Integrity(report))
    } else {
        Ok(report)
    }
}

/// No two collected violations are about the same value of the same field.
proof fn lemma_places_distinct(feed: StaticFeed, found: Seq<Violation>, tags: Seq<int>)
    requires
        collected(found, tags, rules(feed), 9),
    ensures
        forall|p: int, q: int|
            0 <= p < q < found.len() ==> !((#[trigger] found[p]).file@ == (
            #[trigger] found[q]).file@ && found[p].field@ == found[q].field@ && found[p].value@
                == found[q].value@),
{
    let all = rules(feed);
    assert forall|p: int, q: int| 0 <= p < q < found.len() implies !((#[trigger] found[p]).file@ == (
    #[trigger] found[q]).file@ && found[p].field@ == found[q].field@ && found[p].value@
        == found[q].value@) by {
        let i = tags[p];
        let j = tags[q];
        assert(breaks(all[i], found[p]@));
        assert(breaks(all[j], found[q]@));
        if i < j {
            lemma_rules_distinct(feed, i, j);
        } else if j < i {
            lemma_rules_distinct(feed, j, i);
        }
    }
}

// ---------------------------------------------------------------------------
// Laws
// ---------------------------------------------------------------------------

/// A feed has only one report: checking it twice gives the same one.
pub proof fn law_one_report(feed: StaticFeed, a: Seq<ViolationView>, b: Seq<ViolationView>)
    requires
        is_report(feed, a),
        is_report(feed, b),
    ensures
        a == b,
{
    lemma_same_report(a, b);
}

proof fn lemma_same_report(a: Seq<ViolationView>, b: Seq<ViolationView>)
    requires
        forall|i: int, j: int|
            0 <= i < j < a.len() ==> violation_lt(#[trigger] a[i], #[trigger] a[j]),
        forall|i: int, j: int|
            0 <= i < j < b.len() ==> violation_lt(#[trigger] b[i], #[trigger] b[j]),
        forall|v: ViolationView| #[trigger] a.contains(v) <==> b.contains(v),
    ensures
        a == b,
    decreases a.len(),
{
    if a.len() == 0 {
        if b.len() > 0 {
            assert(b.contains(b[0]));
            assert(a.contains(b[0]));
        }
        assert(a =~= b);
    } else {
        let la = a.last();
        assert(a.contains(la));
        assert(b.contains(la));
        let lb = b.last();
        assert(b.contains(lb));
        assert(a.contains(lb));
        let i = choose|i: int| 0 <= i < a.len() && a[i] == lb;
        let j = choose|j: int| 0 <= j < b.len() && b[j] == la;
        if i < a.len() - 1 && j < b.len() - 1 {
            assert(violation_lt(a[i], a[a.len() - 1]));
            assert(violation_lt(b[j], b[b.len() - 1]));
            lemma_places_compare(la, lb);
        }
        assert(la == lb);
        let a2 = a.drop_last();
        let b2 = b.drop_last();
        assert forall|v: ViolationView| #[trigger] a2.contains(v) <==> b2.contains(v) by {
            if a2.contains(v) {
                let k = choose|k: int| 0 <= k < a2.len() && a2[k] == v;
                assert(a[k] == v);
                assert(violation_lt(a[k], a[a.len() - 1]));
                lemma_places_compare(v, la);
                assert(a.contains(v));
                assert(b.contains(v));
                let l = choose|l: int| 0 <= l < b.len() && b[l] == v;
                assert(b2[l] == v);
            }
            if b2.contains(v) {
                let k = choose|k: int| 0 <= k < b2.len() && b2[k] == v;
                assert(b[k] == v);
                assert(violation_lt(b[k], b[b.len() - 1]));
                lemma_places_compare(v, lb);
                assert(b.contains(v));
                assert(a.contains(v));
                let l = choose|l: int| 0 <= l < a.len() && a[l] == v;
                assert(a2[l] == v);
            }
        }
        lemma_same_report(a2, b2);
        assert(a =~= a2.push(la));
        assert(b =~= b2.push(lb));
    }
}

/// Whether every reference of a feed resolves and no id occurs twice.
pub open spec fn consistent(feed: StaticFeed) -> bool {
    &&& forall|i: int|
        0 <= i < feed.trips@.len() ==> route_ids(feed.routes@).contains(
            (#[trigger] feed.trips@[i]).route_id@,
        ) && service_ids(feed.calendar@, feed.calendar_dates@).contains(feed.trips@[i].service_id@)
    &&& forall|i: int|
        0 <= i < feed.stop_times@.len() ==> records::trip_ids(feed.trips@).contains(
            (#[trigger] feed.stop_times@[i]).trip_id@,
        ) && stop_ids(feed.stops@).contains(feed.stop_times@[i].stop_id@)
    &&& forall|i: int|
        0 <= i < feed.stops@.len() ==> (records::present(
            (#[trigger] feed.stops@[i]).parent_station,
        ) matches Some(parent) ==> stop_ids(feed.stops@).contains(parent))
    &&& declared_agencies(feed.agencies@).len() > 0 ==> forall|i: int|
        0 <= i < feed.routes@.len() ==> (records::present(
            (#[trigger] feed.routes@[i]).agency_id,
        ) matches Some(agency) ==> declared_agencies(feed.agencies@).contains(agency))
    &&& route_ids(feed.routes@).no_duplicates()
    &&& stop_ids(feed.stops@).no_duplicates()
    &&& records::trip_ids(feed.trips@).no_duplicates()
}

/// Whether the values of a rule keep it.
spec fn kept(rule: Rule) -> bool {
    match rule.valid {
        Some(valid) => forall|i: int|
            0 <= i < rule.values.len() ==> valid.contains(#[trigger] rule.values[i]),
        None => rule.values.no_duplicates(),
    }
}

proof fn lemma_kept(rule: Rule)
    ensures
        kept(rule) <==> forall|v: ViolationView| !#[trigger] breaks(rule, v),
{
    if kept(rule) {
        assert forall|v: ViolationView| !#[trigger] breaks(rule, v) by {
            if breaks(rule, v) {
                keys::lemma_rows_with(rule.values, v.value);
                match rule.valid {
                    Some(valid) => {
                        let i = choose|i: int|
                            0 <= i < rule.values.len() && rule.values[i] == v.value;
                        assert(valid.contains(rule.values[i]));
                    },
                    None => {
                        let rows = keys::rows_with(rule.values, v.value);
                        assert(rows[0] < rows[1]);
                        assert(rule.values[rows[0]] == rule.values[rows[1]]);
                    },
                }
            }
        }
    }
    if forall|v: ViolationView| !#[trigger] breaks(rule, v) {
        match rule.valid {
            Some(valid) => {
                assert forall|i: int| 0 <= i < rule.values.len() implies valid.contains(
                    #[trigger] rule.values[i],
                ) by {
                    let value = rule.values[i];
                    let v = ViolationView {
                        file: rule.file,
                        field: rule.field,
                        value,
                        references: rule.references,
                        occurrences: keys::rows_with(rule.values, value).len() as int,
                    };
                    assert(!breaks(rule, v));
                }
            },
            None => {
                assert forall|i: int, j: int|
                    0 <= i < rule.values.len() && 0 <= j < rule.values.len() && i
                        != j implies rule.values[i] != rule.values[j] by {
                    let value = rule.values[i];
                    if rule.values[j] == value {
                        let rows = keys::rows_with(rule.values, value);
                        keys::lemma_rows_with(rule.values, value);
                        assert(rows.contains(i));
                        assert(rows.contains(j));
                        let a = choose|a: int| 0 <= a < rows.len() && rows[a] == i;
                        let b = choose|b: int| 0 <= b < rows.len() && rows[b] == j;
                        assert(a != b);
                        let v = ViolationView {
                            file: rule.file,
                            field: rule.field,
                            value,
                            references: rule.references,
                            occurrences: rows.len() as int,
                        };
                        assert(!breaks(rule, v));
                    }
                }
            },
        }
    }
}

proof fn lemma_somes(values: Seq<Option<Seq<char>>>)
    ensures
        forall|x: Seq<char>| #[trigger]
            somes(values).contains(x) <==> exists|i: int|
                0 <= i < values.len() && #[trigger] values[i] == Some(x),
    decreases values.len(),
{
    if values.len() > 0 {
        let before = values.drop_last();
        lemma_somes(before);
        let shorter = somes(before);
        let longer = somes(values);
        assert forall|x: Seq<char>| #[trigger]
            longer.contains(x) <==> exists|i: int|
                0 <= i < values.len() && #[trigger] values[i] == Some(x) by {
            if longer.contains(x) {
                let k = choose|k: int| 0 <= k < longer.len() && longer[k] == x;
                if k < shorter.len() {
                    assert(shorter[k] == x);
                    assert(shorter.contains(x));
                    let i = choose|i: int| 0 <= i < before.len() && #[trigger] before[i] == Some(x);
                    assert(values[i] == Some(x));
                } else {
                    assert(values[values.len() - 1] == Some(x));
                }
            }
            if exists|i: int| 0 <= i < values.len() && #[trigger] values[i] == Some(x) {
                let i = choose|i: int| 0 <= i < values.len() && #[trigger] values[i] == Some(x);
                if i < before.len() {
                    assert(before[i] == Some(x));
                    assert(shorter.contains(x));
                    let k = choose|k: int| 0 <= k < shorter.len() && shorter[k] == x;
                    assert(longer[k] == x);
                } else {
                    assert(longer[longer.len() - 1] == x);
                }
            }
        }
    }
}

/// A report is empty exactly when the feed is consistent: every reference
/// resolves and no id occurs twice.
pub proof fn law_clean_means_consistent(feed: StaticFeed, report: Seq<ViolationView>)
    requires
        is_report(feed, report),
    ensures
        report.len() == 0 <==> consistent(feed),
{
    let all = rules(feed);
    lemma_kept(all[0]);
    lemma_kept(all[1]);
    lemma_kept(all[2]);
    lemma_kept(all[3]);
    lemma_kept(all[4]);
    lemma_kept(all[5]);
    lemma_kept(all[6]);
    lemma_kept(all[7]);
    lemma_kept(all[8]);
    assert(report.len() == 0 <==> forall|i: int| 0 <= i < 9 ==> kept(#[trigger] all[i])) by {
        if report.len() == 0 {
            assert forall|i: int| 0 <= i < 9 implies kept(#[trigger] all[i]) by {
                lemma_kept(all[i]);
                assert forall|v: ViolationView| !#[trigger] breaks(all[i], v) by {
                    if breaks(all[i], v) {
                        assert(is_violation(feed, v));
                        assert(report.contains(v));
                    }
                }
            }
        } else {
            assert(report.contains(report[0]));
            assert(is_violation(feed, report[0]));
            let i = choose|i: int| 0 <= i < all.len() && breaks(#[trigger] all[i], report[0]);
            lemma_kept(all[i]);
            assert(!kept(all[i]));
        }
    }
    lemma_references_resolve(feed);
}

/// The rules are kept exactly when the feed is consistent.
proof fn lemma_references_resolve(feed: StaticFeed)
    ensures
        (forall|i: int| 0 <= i < 9 ==> kept(#[trigger] rules(feed)[i])) <==> consistent(feed),
{
    let all = rules(feed);
    let parents = feed.stops@.map_values(|stop: StopRow| records::present(stop.parent_station));
    let agencies = feed.routes@.map_values(|route: RouteRow| records::present(route.agency_id));
    lemma_somes(parents);
    lemma_somes(agencies);
    let declared = declared_agencies(feed.agencies@);
    if forall|i: int| 0 <= i < 9 ==> kept(#[trigger] all[i]) {
        assert(kept(all[0]) && kept(all[1]) && kept(all[2]) && kept(all[3]) && kept(all[4]) && kept(
            all[5],
        ) && kept(all[6]) && kept(all[7]) && kept(all[8]));
        assert forall|i: int| 0 <= i < feed.trips@.len() implies route_ids(feed.routes@).contains(
            (#[trigger] feed.trips@[i]).route_id@,
        ) && service_ids(feed.calendar@, feed.calendar_dates@).contains(
            feed.trips@[i].service_id@,
        ) by {
            assert(all[0].values[i] == feed.trips@[i].route_id@);
            assert(all[1].values[i] == feed.trips@[i].service_id@);
        }
        assert forall|i: int| 0 <= i < feed.stop_times@.len() implies records::trip_ids(
            feed.trips@,
        ).contains((#[trigger] feed.stop_times@[i]).trip_id@) && stop_ids(feed.stops@).contains(
            feed.stop_times@[i].stop_id@,
        ) by {
            assert(all[2].values[i] == feed.stop_times@[i].trip_id@);
            assert(all[3].values[i] == feed.stop_times@[i].stop_id@);
        }
        assert forall|i: int| 0 <= i < feed.stops@.len() implies (records::present(
            (#[trigger] feed.stops@[i]).parent_station,
        ) matches Some(parent) ==> stop_ids(feed.stops@).contains(parent)) by {
            if let Some(parent) = records::present(feed.stops@[i].parent_station) {
                assert(parents[i] == Some(parent));
                assert(somes(parents).contains(parent));
                let k = choose|k: int|
                    0 <= k < all[4].values.len() && all[4].values[k] == parent;
                assert(all[4].valid->0.contains(all[4].values[k]));
            }
        }
        if declared.len() > 0 {
            assert forall|i: int| 0 <= i < feed.routes@.len() implies (records::present(
                (#[trigger] feed.routes@[i]).agency_id,
            ) matches Some(agency) ==> declared.contains(agency)) by {
                if let Some(agency) = records::present(feed.routes@[i].agency_id) {
                    assert(agencies[i] == Some(agency));
                    assert(somes(agencies).contains(agency));
                    let k = choose|k: int|
                        0 <= k < all[5].values.len() && all[5].values[k] == agency;
                    assert(all[5].valid->0.contains(all[5].values[k]));
                }
            }
        }
        assert(consistent(feed));
    }
    if consistent(feed) {
        assert(kept(all[0])) by {
            assert forall|i: int| 0 <= i < all[0].values.len() implies all[0].valid->0.contains(
                #[trigger] all[0].values[i],
            ) by {
                assert(all[0].values[i] == feed.trips@[i].route_id@);
            }
        }
        assert(kept(all[1])) by {
            assert forall|i: int| 0 <= i < all[1].values.len() implies all[1].valid->0.contains(
                #[trigger] all[1].values[i],
            ) by {
                assert(all[1].values[i] == feed.trips@[i].service_id@);
            }
        }
        assert(kept(all[2])) by {
            assert forall|i: int| 0 <= i < all[2].values.len() implies all[2].valid->0.contains(
                #[trigger] all[2].values[i],
            ) by {
                assert(all[2].values[i] == feed.stop_times@[i].trip_id@);
            }
        }
        assert(kept(all[3])) by {
            assert forall|i: int| 0 <= i < all[3].values.len() implies all[3].valid->0.contains(
                #[trigger] all[3].values[i],
            ) by {
                assert(all[3].values[i] == feed.stop_times@[i].stop_id@);
            }
        }
        assert(kept(all[4])) by {
            assert forall|k: int| 0 <= k < all[4].values.len() implies all[4].valid->0.contains(
                #[trigger] all[4].values[k],
            ) by {
                let parent = all[4].values[k];
                assert(somes(parents).contains(parent));
                let i = choose|i: int| 0 <= i < parents.len() && #[trigger] parents[i] == Some(parent);
                assert(records::present(feed.stops@[i].parent_station) == Some(parent));
            }
        }
        assert(kept(all[5])) by {
            assert forall|k: int| 0 <= k < all[5].values.len() implies all[5].valid->0.contains(
                #[trigger] all[5].values[k],
            ) by {
                let agency = all[5].values[k];
                assert(somes(agencies).contains(agency));
                let i = choose|i: int|
                    0 <= i < agencies.len() && #[trigger] agencies[i] == Some(agency);
                assert(records::present(feed.routes@[i].agency_id) == Some(agency));
            }
        }
        assert(kept(all[6]) && kept(all[7]) && kept(all[8]));
    }
}

/// What a rule is about, no other rule is: a violation of a field is one of the
/// rule on that field.
proof fn lemma_rule_alone(feed: StaticFeed, i: int, v: ViolationView)
    requires
        0 <= i < 9,
        v.file == rules(feed)[i].file,
        v.field == rules(feed)[i].field,
    ensures
        is_violation(feed, v) <==> breaks(rules(feed)[i], v),
{
    let all = rules(feed);
    assert(all.len() == 9);
    if is_violation(feed, v) {
        let j = choose|j: int| 0 <= j < all.len() && breaks(#[trigger] all[j], v);
        if i < j {
            lemma_rules_distinct(feed, i, j);
        }
        if j < i {
            lemma_rules_distinct(feed, j, i);
        }
    }
    if breaks(all[i], v) {
        assert(is_violation(feed, v));
    }
}

/// The rows with a key are as many as the rows of which it is the key.
proof fn lemma_count<A>(rows: Seq<A>, key: spec_fn(A) -> Seq<char>, value: Seq<char>)
    ensures
        keys::rows_with(rows.map_values(key), value).len() == rows.filter(
            |row: A| key(row) == value,
        ).len(),
    decreases rows.len(),
{
    reveal(Seq::filter);
    if rows.len() > 0 {
        lemma_count(rows.drop_last(), key, value);
        assert(rows.map_values(key).drop_last() =~= rows.drop_last().map_values(key));
    } else {
        assert(rows.map_values(key) =~= Seq::<Seq<char>>::empty());
    }
}

/// The rows that have a key, and those of them with one key.
proof fn lemma_count_some<A>(
    rows: Seq<A>,
    key: spec_fn(A) -> Option<Seq<char>>,
    value: Seq<char>,
)
    ensures
        keys::rows_with(somes(rows.map_values(key)), value).len() == rows.filter(
            |row: A| key(row) == Some(value),
        ).len(),
    decreases rows.len(),
{
    reveal(Seq::filter);
    if rows.len() > 0 {
        let before = rows.drop_last();
        lemma_count_some(before, key, value);
        let all = somes(rows.map_values(key));
        let earlier = somes(before.map_values(key));
        assert(rows.map_values(key).drop_last() =~= before.map_values(key));
        assert(rows.map_values(key).last() == key(rows.last()));
        match key(rows.last()) {
            Some(own) => {
                assert(all.drop_last() =~= earlier);
                assert(all.last() == own);
            },
            None => {
                assert(all == earlier);
            },
        }
    } else {
        assert(rows.map_values(key) =~= Seq::<Option<Seq<char>>>::empty());
        assert(somes(rows.map_values(key)) =~= Seq::<Seq<char>>::empty());
    }
}

proof fn lemma_listed(ids: Seq<Seq<char>>, value: Seq<char>)
    ensures
        ids.to_set().contains(value) <==> ids.contains(value),
{
}

/// A route that trips name and `routes.txt` does not have is reported once, with
/// the number of those trips.
pub proof fn law_trips_on_unknown_routes_are_reported(
    feed: StaticFeed,
    report: Seq<ViolationView>,
    value: Seq<char>,
    n: int,
)
    requires
        is_report(feed, report),
    ensures
        ({
            let rows = feed.trips@.filter(|row: TripRow| row.route_id@ == value);
            report.contains(
                ViolationView {
                    file: "trips.txt"@,
                    field: "route_id"@,
                    value,
                    references: "routes.txt"@,
                    occurrences: n,
                },
            ) <==> n == rows.len() && n > 0 && !(exists|i: int| 0 <= i < feed.routes@.len() && (#[trigger] feed.routes@[i]).route_id@ == value)
        }),
{
    let rule = rules(feed)[0];
    let v = ViolationView {
        file: rule.file,
        field: rule.field,
        value,
        references: rule.references,
        occurrences: n,
    };
    let key = |row: TripRow| row.route_id@;
    lemma_rule_alone(feed, 0, v);
    lemma_count(feed.trips@, key, value);
    assert(rule.values =~= feed.trips@.map_values(key));
    assert((|row: TripRow| key(row) == value) =~= (|row: TripRow| row.route_id@ == value));
    keys::lemma_rows_with(rule.values, value);
    lemma_listed(route_ids(feed.routes@), value);
    assert(route_ids(feed.routes@).contains(value) <==> (exists|i: int|
        0 <= i < feed.routes@.len() && (#[trigger] feed.routes@[i]).route_id@ == value)) by {
        let ids = route_ids(feed.routes@);
        if ids.contains(value) {
            let i = choose|i: int| 0 <= i < ids.len() && ids[i] == value;
            assert(feed.routes@[i].route_id@ == value);
        }
        if exists|i: int| 0 <= i < feed.routes@.len() && (#[trigger] feed.routes@[i]).route_id@ == value {
            let i = choose|i: int|
                0 <= i < feed.routes@.len() && (#[trigger] feed.routes@[i]).route_id@ == value;
            assert(ids[i] == value);
        }
    }
    assert(report.contains(v) <==> is_violation(feed, v));
}

/// A service that trips name and neither calendar file has is reported once, with
/// the number of those trips.
pub proof fn law_trips_of_unknown_services_are_reported(
    feed: StaticFeed,
    report: Seq<ViolationView>,
    value: Seq<char>,
    n: int,
)
    requires
        is_report(feed, report),
    ensures
        ({
            let rows = feed.trips@.filter(|row: TripRow| row.service_id@ == value);
            report.contains(
                ViolationView {
                    file: "trips.txt"@,
                    field: "service_id"@,
                    value,
                    references: "calendar.txt/calendar_dates.txt"@,
                    occurrences: n,
                },
            ) <==> n == rows.len() && n > 0 && !((exists|i: int| 0 <= i < feed.calendar@.len() && (#[trigger] feed.calendar@[i]).service_id@
                == value) || (exists|i: int|
                0 <= i < feed.calendar_dates@.len() && (
                #[trigger] feed.calendar_dates@[i]).service_id@ == value))
        }),
{
    let rule = rules(feed)[1];
    let v = ViolationView {
        file: rule.file,
        field: rule.field,
        value,
        references: rule.references,
        occurrences: n,
    };
    let key = |row: TripRow| row.service_id@;
    lemma_rule_alone(feed, 1, v);
    lemma_count(feed.trips@, key, value);
    assert(rule.values =~= feed.trips@.map_values(key));
    assert((|row: TripRow| key(row) == value) =~= (|row: TripRow| row.service_id@ == value));
    keys::lemma_rows_with(rule.values, value);
    lemma_listed(weekly_services(feed.calendar@), value);
    assert(weekly_services(feed.calendar@).contains(value) <==> (exists|i: int|
        0 <= i < feed.calendar@.len() && (#[trigger] feed.calendar@[i]).service_id@ == value)) by {
        let ids = weekly_services(feed.calendar@);
        if ids.contains(value) {
            let i = choose|i: int| 0 <= i < ids.len() && ids[i] == value;
            assert(feed.calendar@[i].service_id@ == value);
        }
        if exists|i: int| 0 <= i < feed.calendar@.len() && (#[trigger] feed.calendar@[i]).service_id@ == value {
            let i = choose|i: int|
                0 <= i < feed.calendar@.len() && (#[trigger] feed.calendar@[i]).service_id@ == value;
            assert(ids[i] == value);
        }
    }
    lemma_listed(exception_services(feed.calendar_dates@), value);
    assert(exception_services(feed.calendar_dates@).contains(value) <==> (exists|i: int|
        0 <= i < feed.calendar_dates@.len() && (#[trigger] feed.calendar_dates@[i]).service_id@ == value)) by {
        let ids = exception_services(feed.calendar_dates@);
        if ids.contains(value) {
            let i = choose|i: int| 0 <= i < ids.len() && ids[i] == value;
            assert(feed.calendar_dates@[i].service_id@ == value);
        }
        if exists|i: int| 0 <= i < feed.calendar_dates@.len() && (#[trigger] feed.calendar_dates@[i]).service_id@ == value {
            let i = choose|i: int|
                0 <= i < feed.calendar_dates@.len() && (#[trigger] feed.calendar_dates@[i]).service_id@ == value;
            assert(ids[i] == value);
        }
    }
    assert(report.contains(v) <==> is_violation(feed, v));
}

/// A trip that stop times name and `trips.txt` does not have is reported once,
/// with the number of those stop times.
pub proof fn law_calls_of_unknown_trips_are_reported(
    feed: StaticFeed,
    report: Seq<ViolationView>,
    value: Seq<char>,
    n: int,
)
    requires
        is_report(feed, report),
    ensures
        ({
            let rows = feed.stop_times@.filter(|row: StopTimeRow| row.trip_id@ == value);
            report.contains(
                ViolationView {
                    file: "stop_times.txt"@,
                    field: "trip_id"@,
                    value,
                    references: "trips.txt"@,
                    occurrences: n,
                },
            ) <==> n == rows.len() && n > 0 && !(exists|i: int| 0 <= i < feed.trips@.len() && (#[trigger] feed.trips@[i]).trip_id@ == value)
        }),
{
    let rule = rules(feed)[2];
    let v = ViolationView {
        file: rule.file,
        field: rule.field,
        value,
        references: rule.references,
        occurrences: n,
    };
    let key = |row: StopTimeRow| row.trip_id@;
    lemma_rule_alone(feed, 2, v);
    lemma_count(feed.stop_times@, key, value);
    assert(rule.values =~= feed.stop_times@.map_values(key));
    assert((|row: StopTimeRow| key(row) == value) =~= (|row: StopTimeRow| row.trip_id@ == value));
    keys::lemma_rows_with(rule.values, value);
    lemma_listed(records::trip_ids(feed.trips@), value);
    assert(records::trip_ids(feed.trips@).contains(value) <==> (exists|i: int|
        0 <= i < feed.trips@.len() && (#[trigger] feed.trips@[i]).trip_id@ == value)) by {
        let ids = records::trip_ids(feed.trips@);
        if ids.contains(value) {
            let i = choose|i: int| 0 <= i < ids.len() && ids[i] == value;
            assert(feed.trips@[i].trip_id@ == value);
        }
        if exists|i: int| 0 <= i < feed.trips@.len() && (#[trigger] feed.trips@[i]).trip_id@ == value {
            let i = choose|i: int|
                0 <= i < feed.trips@.len() && (#[trigger] feed.trips@[i]).trip_id@ == value;
            assert(ids[i] == value);
        }
    }
    assert(report.contains(v) <==> is_violation(feed, v));
}

/// A stop that stop times name and `stops.txt` does not have is reported once,
/// with the number of those stop times.
pub proof fn law_calls_at_unknown_stops_are_reported(
    feed: StaticFeed,
    report: Seq<ViolationView>,
    value: Seq<char>,
    n: int,
)
    requires
        is_report(feed, report),
    ensures
        ({
            let rows = feed.stop_times@.filter(|row: StopTimeRow| row.stop_id@ == value);
            report.contains(
                ViolationView {
                    file: "stop_times.txt"@,
                    field: "stop_id"@,
                    value,
                    references: "stops.txt"@,
                    occurrences: n,
                },
            ) <==> n == rows.len() && n > 0 && !(exists|i: int| 0 <= i < feed.stops@.len() && (#[trigger] feed.stops@[i]).stop_id@ == value)
        }),
{
    let rule = rules(feed)[3];
    let v = ViolationView {
        file: rule.file,
        field: rule.field,
        value,
        references: rule.references,
        occurrences: n,
    };
    let key = |row: StopTimeRow| row.stop_id@;
    lemma_rule_alone(feed, 3, v);
    lemma_count(feed.stop_times@, key, value);
    assert(rule.values =~= feed.stop_times@.map_values(key));
    assert((|row: StopTimeRow| key(row) == value) =~= (|row: StopTimeRow| row.stop_id@ == value));
    keys::lemma_rows_with(rule.values, value);
    lemma_listed(stop_ids(feed.stops@), value);
    assert(stop_ids(feed.stops@).contains(value) <==> (exists|i: int|
        0 <= i < feed.stops@.len() && (#[trigger] feed.stops@[i]).stop_id@ == value)) by {
        let ids = stop_ids(feed.stops@);
        if ids.contains(value) {
            let i = choose|i: int| 0 <= i < ids.len() && ids[i] == value;
            assert(feed.stops@[i].stop_id@ == value);
        }
        if exists|i: int| 0 <= i < feed.stops@.len() && (#[trigger] feed.stops@[i]).stop_id@ == value {
            let i = choose|i: int|
                0 <= i < feed.stops@.len() && (#[trigger] feed.stops@[i]).stop_id@ == value;
            assert(ids[i] == value);
        }
    }
    assert(report.contains(v) <==> is_violation(feed, v));
}

/// Whether a text that may be left out is there, not empty, and this one.
pub open spec fn names(field: Option<String>, value: Seq<char>) -> bool {
    &&& field matches Some(s)
    &&& s@ == value
    &&& value.len() > 0
}

/// A parent that stops name and `stops.txt` does not have is reported once, with
/// the number of those stops. A parent that is left blank is none.
pub proof fn law_unknown_parents_are_reported(
    feed: StaticFeed,
    report: Seq<ViolationView>,
    value: Seq<char>,
    n: int,
)
    requires
        is_report(feed, report),
    ensures
        ({
            let rows = feed.stops@.filter(|row: StopRow| names(row.parent_station, value));
            report.contains(
                ViolationView {
                    file: "stops.txt"@,
                    field: "parent_station"@,
                    value,
                    references: "stops.txt"@,
                    occurrences: n,
                },
            ) <==> n == rows.len() && n > 0 && !(exists|i: int| 0 <= i < feed.stops@.len() && (#[trigger] feed.stops@[i]).stop_id@ == value)
        }),
{
    let rule = rules(feed)[4];
    let v = ViolationView {
        file: rule.file,
        field: rule.field,
        value,
        references: rule.references,
        occurrences: n,
    };
    let key = |row: StopRow| records::present(row.parent_station);
    lemma_rule_alone(feed, 4, v);
    lemma_count_some(feed.stops@, key, value);
    assert(feed.stops@.map_values(|stop: StopRow| records::present(stop.parent_station))
        =~= feed.stops@.map_values(key));
    assert((|row: StopRow| key(row) == Some(value)) =~= (|row: StopRow|
        names(row.parent_station, value)));
    keys::lemma_rows_with(rule.values, value);
    lemma_listed(stop_ids(feed.stops@), value);
    assert(stop_ids(feed.stops@).contains(value) <==> (exists|i: int|
        0 <= i < feed.stops@.len() && (#[trigger] feed.stops@[i]).stop_id@ == value)) by {
        let ids = stop_ids(feed.stops@);
        if ids.contains(value) {
            let i = choose|i: int| 0 <= i < ids.len() && ids[i] == value;
            assert(feed.stops@[i].stop_id@ == value);
        }
        if exists|i: int| 0 <= i < feed.stops@.len() && (#[trigger] feed.stops@[i]).stop_id@ == value {
            let i = choose|i: int|
                0 <= i < feed.stops@.len() && (#[trigger] feed.stops@[i]).stop_id@ == value;
            assert(ids[i] == value);
        }
    }
    assert(report.contains(v) <==> is_violation(feed, v));
}

/// An agency that routes name and `agency.txt` does not declare is reported once,
/// with the number of those routes, as long as `agency.txt` declares any id at
/// all. An agency that is left blank is none.
pub proof fn law_unknown_agencies_are_reported(
    feed: StaticFeed,
    report: Seq<ViolationView>,
    value: Seq<char>,
    n: int,
)
    requires
        is_report(feed, report),
    ensures
        ({
            let rows = feed.routes@.filter(|row: RouteRow| names(row.agency_id, value));
            report.contains(
                ViolationView {
                    file: "routes.txt"@,
                    field: "agency_id"@,
                    value,
                    references: "agency.txt"@,
                    occurrences: n,
                },
            ) <==> {
                &&& n == rows.len()
                &&& n > 0
                &&& exists|i: int|
                    0 <= i < feed.agencies@.len() && (#[trigger] feed.agencies@[i]).agency_id is Some
                &&& forall|i: int|
                    0 <= i < feed.agencies@.len() ==> ((#[trigger] feed.agencies@[i]).agency_id
                        matches Some(id) ==> id@ != value)
            }
        }),
{
    let rule = rules(feed)[5];
    let v = ViolationView {
        file: rule.file,
        field: rule.field,
        value,
        references: rule.references,
        occurrences: n,
    };
    let key = |row: RouteRow| records::present(row.agency_id);
    let ids = feed.agencies@.map_values(
        |agency: AgencyRow| records::opt_text(agency.agency_id),
    );
    let declared = declared_agencies(feed.agencies@);
    lemma_rule_alone(feed, 5, v);
    lemma_count_some(feed.routes@, key, value);
    assert(feed.routes@.map_values(|route: RouteRow| records::present(route.agency_id))
        =~= feed.routes@.map_values(key));
    assert((|row: RouteRow| key(row) == Some(value)) =~= (|row: RouteRow|
        names(row.agency_id, value)));
    keys::lemma_rows_with(rule.values, value);
    lemma_somes(ids);
    lemma_listed(declared, value);
    assert(declared.len() > 0 <==> (exists|i: int|
        0 <= i < feed.agencies@.len() && (#[trigger] feed.agencies@[i]).agency_id is Some)) by {
        if declared.len() > 0 {
            assert(declared.contains(declared[0]));
            let i = choose|i: int| 0 <= i < ids.len() && #[trigger] ids[i] == Some(declared[0]);
            assert(feed.agencies@[i].agency_id is Some);
        }
        if exists|i: int|
            0 <= i < feed.agencies@.len() && (#[trigger] feed.agencies@[i]).agency_id is Some {
            let i = choose|i: int|
                0 <= i < feed.agencies@.len() && (#[trigger] feed.agencies@[i]).agency_id is Some;
            let id = feed.agencies@[i].agency_id->0@;
            assert(ids[i] == Some(id));
            assert(declared.contains(id));
        }
    }
    assert(declared.contains(value) <==> !(forall|i: int|
        0 <= i < feed.agencies@.len() ==> ((#[trigger] feed.agencies@[i]).agency_id matches Some(id)
            ==> id@ != value))) by {
        if declared.contains(value) {
            let i = choose|i: int| 0 <= i < ids.len() && #[trigger] ids[i] == Some(value);
            assert(feed.agencies@[i].agency_id matches Some(id) && id@ == value);
        }
        if !(forall|i: int|
            0 <= i < feed.agencies@.len() ==> ((#[trigger] feed.agencies@[i]).agency_id
                matches Some(id) ==> id@ != value)) {
            let i = choose|i: int|
                0 <= i < feed.agencies@.len() && ((#[trigger] feed.agencies@[i]).agency_id
                    matches Some(id) && id@ == value);
            assert(ids[i] == Some(value));
        }
    }
    assert(report.contains(v) <==> is_violation(feed, v));
}

/// An id that more than one route has is reported once, with the number of rows that
/// have it.
pub proof fn law_repeated_routes_are_reported(
    feed: StaticFeed,
    report: Seq<ViolationView>,
    value: Seq<char>,
    n: int,
)
    requires
        is_report(feed, report),
    ensures
        ({
            let rows = feed.routes@.filter(|row: RouteRow| row.route_id@ == value);
            report.contains(
                ViolationView {
                    file: "routes.txt"@,
                    field: "route_id"@,
                    value,
                    references: "a unique key"@,
                    occurrences: n,
                },
            ) <==> n == rows.len() && n > 1
        }),
{
    let rule = rules(feed)[6];
    let v = ViolationView {
        file: rule.file,
        field: rule.field,
        value,
        references: rule.references,
        occurrences: n,
    };
    let key = |row: RouteRow| row.route_id@;
    lemma_rule_alone(feed, 6, v);
    lemma_count(feed.routes@, key, value);
    assert(rule.values =~= feed.routes@.map_values(key));
    assert((|row: RouteRow| key(row) == value) =~= (|row: RouteRow| row.route_id@ == value));
    assert(report.contains(v) <==> is_violation(feed, v));
}

/// An id that more than one stop has is reported once, with the number of rows that
/// have it.
pub proof fn law_repeated_stops_are_reported(
    feed: StaticFeed,
    report: Seq<ViolationView>,
    value: Seq<char>,
    n: int,
)
    requires
        is_report(feed, report),
    ensures
        ({
            let rows = feed.stops@.filter(|row: StopRow| row.stop_id@ == value);
            report.contains(
                ViolationView {
                    file: "stops.txt"@,
                    field: "stop_id"@,
                    value,
                    references: "a unique key"@,
                    occurrences: n,
                },
            ) <==> n == rows.len() && n > 1
        }),
{
    let rule = rules(feed)[7];
    let v = ViolationView {
        file: rule.file,
        field: rule.field,
        value,
        references: rule.references,
        occurrences: n,
    };
    let key = |row: StopRow| row.stop_id@;
    lemma_rule_alone(feed, 7, v);
    lemma_count(feed.stops@, key, value);
    assert(rule.values =~= feed.stops@.map_values(key));
    assert((|row: StopRow| key(row) == value) =~= (|row: StopRow| row.stop_id@ == value));
    assert(report.contains(v) <==> is_violation(feed, v));
}

/// An id that more than one trip has is reported once, with the number of rows that
/// have it.
pub proof fn law_repeated_trips_are_reported(
    feed: StaticFeed,
    report: Seq<ViolationView>,
    value: Seq<char>,
    n: int,
)
    requires
        is_report(feed, report),
    ensures
        ({
            let rows = feed.trips@.filter(|row: TripRow| row.trip_id@ == value);
            report.contains(
                ViolationView {
                    file: "trips.txt"@,
                    field: "trip_id"@,
                    value,
                    references: "a unique key"@,
                    occurrences: n,
                },
            ) <==> n == rows.len() && n > 1
        }),
{
    let rule = rules(feed)[8];
    let v = ViolationView {
        file: rule.file,
        field: rule.field,
        value,
        references: rule.references,
        occurrences: n,
    };
    let key = |row: TripRow| row.trip_id@;
    lemma_rule_alone(feed, 8, v);
    lemma_count(feed.trips@, key, value);
    assert(rule.values =~= feed.trips@.map_values(key));
    assert((|row: TripRow| key(row) == value) =~= (|row: TripRow| row.trip_id@ == value));
    assert(report.contains(v) <==> is_violation(feed, v));
}

/// A report holds nothing else: every violation is of one of nine fields, and
/// says what the field refers to.
pub proof fn law_reports_are_of_nine_fields(
    feed: StaticFeed,
    report: Seq<ViolationView>,
    v: ViolationView,
)
    requires
        is_report(feed, report),
        report.contains(v),
    ensures
        ({
            let place = (v.file, v.field, v.references);
            ||| place == ("trips.txt"@, "route_id"@, "routes.txt"@)
            ||| place == ("trips.txt"@, "service_id"@, "calendar.txt/calendar_dates.txt"@)
            ||| place == ("stop_times.txt"@, "trip_id"@, "trips.txt"@)
            ||| place == ("stop_times.txt"@, "stop_id"@, "stops.txt"@)
            ||| place == ("stops.txt"@, "parent_station"@, "stops.txt"@)
            ||| place == ("routes.txt"@, "agency_id"@, "agency.txt"@)
            ||| place == ("routes.txt"@, "route_id"@, "a unique key"@)
            ||| place == ("stops.txt"@, "stop_id"@, "a unique key"@)
            ||| place == ("trips.txt"@, "trip_id"@, "a unique key"@)
        }),
{
    let all = rules(feed);
    assert(is_violation(feed, v));
    let i = choose|i: int| 0 <= i < all.len() && breaks(#[trigger] all[i], v);
    assert(0 <= i < 9);
}

/// A report is sorted by file, then by field, then by value, and no two of its
/// violations are of the same value of the same field.
pub proof fn law_reports_are_sorted(feed: StaticFeed, report: Seq<ViolationView>, i: int, j: int)
    requires
        is_report(feed, report),
        0 <= i < j < report.len(),
    ensures
        text::text_le(report[i].file, report[j].file),
        report[i].file == report[j].file ==> text::text_le(report[i].field, report[j].field),
        report[i].file == report[j].file && report[i].field == report[j].field ==> text::text_le(
            report[i].value,
            report[j].value,
        ) && report[i].value != report[j].value,
{
    assert(violation_lt(report[i], report[j]));
    text::lemma_text_le_total(report[i].file, report[i].file);
    text::lemma_text_le_total(report[i].field, report[i].field);
}

/// A feed with violations is refused, with the whole report, unless they are
/// allowed; a feed without any never is, and gives an empty report.
pub proof fn law_violations_are_refused_unless_allowed(
    feed: StaticFeed,
    allow_violations: bool,
    report: Seq<ViolationView>,
    result: Result<Seq<ViolationView>, ErrorView>,
)
    requires
        is_report(feed, report),
        is_clearance(feed, allow_violations, result),
    ensures
        report.len() == 0 || allow_violations ==> result == Ok::<Seq<ViolationView>, ErrorView>(
            report,
        ),
        report.len() > 0 && !allow_violations ==> result == Err::<Seq<ViolationView>, ErrorView>(
            ErrorView::Integrity(report),
        ),
{
    law_clean_means_consistent(feed, report);
    match result {
        Ok(given) => law_one_report(feed, report, given),
        Err(ErrorView::Integrity(given)) => law_one_report(feed, report, given),
        Err(_) => {},
    }
}

} // verus!
