//! The `routes` and `stops` dimension tables.
//!
//! Dimensions are where hierarchies live, so the work here is mostly about not
//! leaving holes that a hierarchy level can fall through.
//!
//! GTFS models a station as a stop whose children are platforms, but not every
//! feed uses it. A stop with no parent is therefore its own station, so that
//! the geography can be walked everywhere. And `borough` and `municipality`
//! exist in no feed: until they are derived they are `Unknown` rather than
//! null, which is a slice one can select.

use vstd::prelude::*;

use crate::config;
use crate::config::Agency;
use crate::dataset::columns;
use crate::dataset::columns::{Batch, Cells, CellsView, Column, ColumnView, Field, FieldView, Kind};
use crate::error::Error;
use crate::gtfs::archive::StaticFeed;
use crate::gtfs::records;
use crate::gtfs::records::{RouteRow, StopRow};
use crate::gtfs::validate;
use crate::schedule;

verus! {

/// Placeholder for a hierarchy level not yet derivable. Never null.
pub const UNKNOWN: &'static str = "Unknown";

/// The fields of the `routes` table.
pub open spec fn route_fields() -> Seq<FieldView> {
    seq![
        FieldView { name: "route_key"@, kind: Kind::Text, nullable: false },
        FieldView { name: "route_id"@, kind: Kind::Text, nullable: false },
        FieldView { name: "agency_id"@, kind: Kind::Text, nullable: false },
        FieldView { name: "mode"@, kind: Kind::Text, nullable: false },
        FieldView { name: "route_type"@, kind: Kind::Int32, nullable: false },
        FieldView { name: "route_short_name"@, kind: Kind::Text, nullable: true },
        FieldView { name: "route_long_name"@, kind: Kind::Text, nullable: true },
        FieldView { name: "display_name"@, kind: Kind::Text, nullable: false },
        FieldView { name: "route_color"@, kind: Kind::Text, nullable: true },
    ]
}

/// The fields of the `stops` table.
pub open spec fn stop_fields() -> Seq<FieldView> {
    seq![
        FieldView { name: "stop_key"@, kind: Kind::Text, nullable: false },
        FieldView { name: "stop_id"@, kind: Kind::Text, nullable: false },
        FieldView { name: "agency_id"@, kind: Kind::Text, nullable: false },
        FieldView { name: "stop_name"@, kind: Kind::Text, nullable: true },
        FieldView { name: "stop_lat"@, kind: Kind::Double, nullable: true },
        FieldView { name: "stop_lon"@, kind: Kind::Double, nullable: true },
        FieldView { name: "is_station"@, kind: Kind::Flag, nullable: false },
        FieldView { name: "parent_station_key"@, kind: Kind::Text, nullable: true },
        FieldView { name: "station_key"@, kind: Kind::Text, nullable: false },
        FieldView { name: "borough"@, kind: Kind::Text, nullable: false },
        FieldView { name: "municipality"@, kind: Kind::Text, nullable: false },
    ]
}

/// The `routes` schema.
pub fn routes_schema() -> (r: Vec<Field>)
    ensures
        columns::field_views(r@) == route_fields(),
{
    let mut r: Vec<Field> = Vec::new();
    r.push(columns::field("route_key", Kind::Text, false));
    r.push(columns::field("route_id", Kind::Text, false));
    r.push(columns::field("agency_id", Kind::Text, false));
    // The agency's mode from config, not from the feed: the network hierarchy
    // wants one label per agency above its routes.
    r.push(columns::field("mode", Kind::Text, false));
    r.push(columns::field("route_type", Kind::Int32, false));
    r.push(columns::field("route_short_name", Kind::Text, true));
    r.push(columns::field("route_long_name", Kind::Text, true));
    r.push(columns::field("display_name", Kind::Text, false));
    r.push(columns::field("route_color", Kind::Text, true));
    assert(columns::field_views(r@) =~= route_fields());
    r
}

/// The `stops` schema.
pub fn stops_schema() -> (r: Vec<Field>)
    ensures
        columns::field_views(r@) == stop_fields(),
{
    let mut r: Vec<Field> = Vec::new();
    r.push(columns::field("stop_key", Kind::Text, false));
    r.push(columns::field("stop_id", Kind::Text, false));
    r.push(columns::field("agency_id", Kind::Text, false));
    r.push(columns::field("stop_name", Kind::Text, true));
    // Nullable, and not defaulted to zero: (0, 0) is in the Atlantic.
    r.push(columns::field("stop_lat", Kind::Double, true));
    r.push(columns::field("stop_lon", Kind::Double, true));
    r.push(columns::field("is_station", Kind::Flag, false));
    // The raw GTFS link, null for a stop with no parent.
    r.push(columns::field("parent_station_key", Kind::Text, true));
    // The hierarchy level: parent if there is one, self if not.
    r.push(columns::field("station_key", Kind::Text, false));
    r.push(columns::field("borough", Kind::Text, false));
    r.push(columns::field("municipality", Kind::Text, false));
    assert(columns::field_views(r@) =~= stop_fields());
    r
}

/// The key of a stop's parent, if it names one.
pub open spec fn parent_key(agency: Seq<char>, stop: StopRow) -> Option<Seq<char>> {
    match records::present(stop.parent_station) {
        Some(parent) => Some(config::namespaced(agency, parent)),
        None => None,
    }
}

/// The key of a stop's station: its parent's, or its own.
pub open spec fn station_key(agency: Seq<char>, stop: StopRow) -> Seq<char> {
    match parent_key(agency, stop) {
        Some(key) => key,
        None => config::namespaced(agency, stop.stop_id@),
    }
}

/// The cells of the `routes` table, column by column.
pub open spec fn route_cells(agency: Agency, routes: Seq<RouteRow>) -> Seq<CellsView> {
    seq![
        CellsView::Text(
            routes.map_values(|r: RouteRow| Some(config::namespaced(agency.id@, r.route_id@))),
        ),
        CellsView::Text(routes.map_values(|r: RouteRow| Some(r.route_id@))),
        CellsView::Text(routes.map_values(|r: RouteRow| Some(agency.id@))),
        CellsView::Text(routes.map_values(|r: RouteRow| Some(agency.mode@))),
        CellsView::Int32(routes.map_values(|r: RouteRow| Some(r.route_type))),
        CellsView::Text(routes.map_values(|r: RouteRow| records::present(r.route_short_name))),
        CellsView::Text(routes.map_values(|r: RouteRow| records::present(r.route_long_name))),
        CellsView::Text(routes.map_values(|r: RouteRow| Some(r.label()))),
        CellsView::Text(routes.map_values(|r: RouteRow| records::present(r.route_color))),
    ]
}

/// The cells of the `stops` table, column by column.
pub open spec fn stop_cells(agency: Agency, stops: Seq<StopRow>) -> Seq<CellsView> {
    seq![
        CellsView::Text(
            stops.map_values(|s: StopRow| Some(config::namespaced(agency.id@, s.stop_id@))),
        ),
        CellsView::Text(stops.map_values(|s: StopRow| Some(s.stop_id@))),
        CellsView::Text(stops.map_values(|s: StopRow| Some(agency.id@))),
        CellsView::Text(stops.map_values(|s: StopRow| records::present(s.stop_name))),
        CellsView::Double(stops.map_values(|s: StopRow| s.stop_lat)),
        CellsView::Double(stops.map_values(|s: StopRow| s.stop_lon)),
        CellsView::Flag(stops.map_values(|s: StopRow| Some(s.location_type == Some(1i32)))),
        CellsView::Text(stops.map_values(|s: StopRow| parent_key(agency.id@, s))),
        CellsView::Text(stops.map_values(|s: StopRow| Some(station_key(agency.id@, s)))),
        CellsView::Text(stops.map_values(|s: StopRow| Some(UNKNOWN@))),
        CellsView::Text(stops.map_values(|s: StopRow| Some(UNKNOWN@))),
    ]
}

/// The columns of the `routes` table.
pub open spec fn route_columns(agency: Agency, routes: Seq<RouteRow>) -> Seq<ColumnView> {
    columns::under_fields(route_fields(), route_cells(agency, routes))
}

/// The columns of the `stops` table.
pub open spec fn stop_columns(agency: Agency, stops: Seq<StopRow>) -> Seq<ColumnView> {
    columns::under_fields(stop_fields(), stop_cells(agency, stops))
}

/// A text that may be absent, owned.
fn owned(value: Option<&str>) -> (r: Option<String>)
    ensures
        match (value, r) {
            (Some(s), Some(t)) => t@ == s@,
            (None, None) => true,
            _ => false,
        },
{
    match value {
        Some(s) => Some(s.to_string()),
        None => None,
    }
}

/// The key of a stop's parent, if it names one.
fn parent_key_of(agency: &Agency, stop: &StopRow) -> (r: Option<String>)
    ensures
        records::opt_text(r) == parent_key(agency.id@, *stop),
{
    match records::non_empty(&stop.parent_station) {
        Some(parent) => Some(agency.stop_key(parent)),
        None => None,
    }
}

/// The columns of the `routes` table.
#[verifier::rlimit(40)]
pub fn routes_table(routes: &Vec<RouteRow>, agency: &Agency) -> (r: Vec<Column>)
    ensures
        columns::column_views(r@) == route_columns(*agency, routes@),
{
    let mut keys: Vec<Option<String>> = Vec::new();
    let mut ids: Vec<Option<String>> = Vec::new();
    let mut agencies: Vec<Option<String>> = Vec::new();
    let mut modes: Vec<Option<String>> = Vec::new();
    let mut types: Vec<Option<i32>> = Vec::new();
    let mut short_names: Vec<Option<String>> = Vec::new();
    let mut long_names: Vec<Option<String>> = Vec::new();
    let mut labels: Vec<Option<String>> = Vec::new();
    let mut colors: Vec<Option<String>> = Vec::new();
    let mut i: usize = 0;
    while i < routes.len()
        invariant
            i <= routes@.len(),
            keys@.len() == i,
            ids@.len() == i,
            agencies@.len() == i,
            modes@.len() == i,
            types@.len() == i,
            short_names@.len() == i,
            long_names@.len() == i,
            labels@.len() == i,
            colors@.len() == i,
            forall|k: int|
                0 <= k < i ==> records::opt_text(#[trigger] keys@[k]) == Some(
                    config::namespaced(agency.id@, routes@[k].route_id@),
                ),
            forall|k: int|
                0 <= k < i ==> records::opt_text(#[trigger] ids@[k]) == Some(routes@[k].route_id@),
            forall|k: int|
                0 <= k < i ==> records::opt_text(#[trigger] agencies@[k]) == Some(agency.id@),
            forall|k: int|
                0 <= k < i ==> records::opt_text(#[trigger] modes@[k]) == Some(agency.mode@),
            forall|k: int| 0 <= k < i ==> #[trigger] types@[k] == Some(routes@[k].route_type),
            forall|k: int|
                0 <= k < i ==> records::opt_text(#[trigger] short_names@[k]) == records::present(
                    routes@[k].route_short_name,
                ),
            forall|k: int|
                0 <= k < i ==> records::opt_text(#[trigger] long_names@[k]) == records::present(
                    routes@[k].route_long_name,
                ),
            forall|k: int|
                0 <= k < i ==> records::opt_text(#[trigger] labels@[k]) == Some(
                    routes@[k].label(),
                ),
            forall|k: int|
                0 <= k < i ==> records::opt_text(#[trigger] colors@[k]) == records::present(
                    routes@[k].route_color,
                ),
        decreases routes@.len() - i,
    {
        let route: &RouteRow = &routes[i];
        keys.push(Some(agency.route_key(route.route_id.as_str())));
        ids.push(Some(route.route_id.clone()));
        agencies.push(Some(agency.id.clone()));
        modes.push(Some(agency.mode.clone()));
        types.push(Some(route.route_type));
        short_names.push(owned(records::non_empty(&route.route_short_name)));
        long_names.push(owned(records::non_empty(&route.route_long_name)));
        labels.push(Some(route.display_name().to_string()));
        colors.push(owned(records::non_empty(&route.route_color)));
        i = i + 1;
    }
    let mut r: Vec<Column> = Vec::new();
    r.push(columns::column("route_key", false, Cells::Text(keys)));
    r.push(columns::column("route_id", false, Cells::Text(ids)));
    r.push(columns::column("agency_id", false, Cells::Text(agencies)));
    r.push(columns::column("mode", false, Cells::Text(modes)));
    r.push(columns::column("route_type", false, Cells::Int32(types)));
    r.push(columns::column("route_short_name", true, Cells::Text(short_names)));
    r.push(columns::column("route_long_name", true, Cells::Text(long_names)));
    r.push(columns::column("display_name", false, Cells::Text(labels)));
    r.push(columns::column("route_color", true, Cells::Text(colors)));
    proof {
        let made = columns::column_views(r@);
        let cells = route_cells(*agency, routes@);
        assert(made[0].cells->Text_0 =~= cells[0]->Text_0);
        assert(made[1].cells->Text_0 =~= cells[1]->Text_0);
        assert(made[2].cells->Text_0 =~= cells[2]->Text_0);
        assert(made[3].cells->Text_0 =~= cells[3]->Text_0);
        assert(made[4].cells->Int32_0 =~= cells[4]->Int32_0);
        assert(made[5].cells->Text_0 =~= cells[5]->Text_0);
        assert(made[6].cells->Text_0 =~= cells[6]->Text_0);
        assert(made[7].cells->Text_0 =~= cells[7]->Text_0);
        assert(made[8].cells->Text_0 =~= cells[8]->Text_0);
        assert(made =~= route_columns(*agency, routes@));
    }
    r
}

/// The columns of the `stops` table.
#[verifier::rlimit(40)]
pub fn stops_table(stops: &Vec<StopRow>, agency: &Agency) -> (r: Vec<Column>)
    ensures
        columns::column_views(r@) == stop_columns(*agency, stops@),
{
    let mut keys: Vec<Option<String>> = Vec::new();
    let mut ids: Vec<Option<String>> = Vec::new();
    let mut agencies: Vec<Option<String>> = Vec::new();
    let mut names: Vec<Option<String>> = Vec::new();
    let mut lats: Vec<Option<u64>> = Vec::new();
    let mut lons: Vec<Option<u64>> = Vec::new();
    let mut stations: Vec<Option<bool>> = Vec::new();
    let mut parents: Vec<Option<String>> = Vec::new();
    let mut station_keys: Vec<Option<String>> = Vec::new();
    let mut boroughs: Vec<Option<String>> = Vec::new();
    let mut municipalities: Vec<Option<String>> = Vec::new();
    let mut i: usize = 0;
    while i < stops.len()
        invariant
            i <= stops@.len(),
            keys@.len() == i,
            ids@.len() == i,
            agencies@.len() == i,
            names@.len() == i,
            lats@.len() == i,
            lons@.len() == i,
            stations@.len() == i,
            parents@.len() == i,
            station_keys@.len() == i,
            boroughs@.len() == i,
            municipalities@.len() == i,
            forall|k: int|
                0 <= k < i ==> records::opt_text(#[trigger] keys@[k]) == Some(
                    config::namespaced(agency.id@, stops@[k].stop_id@),
                ),
            forall|k: int|
                0 <= k < i ==> records::opt_text(#[trigger] ids@[k]) == Some(stops@[k].stop_id@),
            forall|k: int|
                0 <= k < i ==> records::opt_text(#[trigger] agencies@[k]) == Some(agency.id@),
            forall|k: int|
                0 <= k < i ==> records::opt_text(#[trigger] names@[k]) == records::present(
                    stops@[k].stop_name,
                ),
            forall|k: int| 0 <= k < i ==> #[trigger] lats@[k] == stops@[k].stop_lat,
            forall|k: int| 0 <= k < i ==> #[trigger] lons@[k] == stops@[k].stop_lon,
            forall|k: int|
                0 <= k < i ==> #[trigger] stations@[k] == Some(
                    stops@[k].location_type == Some(1i32),
                ),
            forall|k: int|
                0 <= k < i ==> records::opt_text(#[trigger] parents@[k]) == parent_key(
                    agency.id@,
                    stops@[k],
                ),
            forall|k: int|
                0 <= k < i ==> records::opt_text(#[trigger] station_keys@[k]) == Some(
                    station_key(agency.id@, stops@[k]),
                ),
            forall|k: int|
                0 <= k < i ==> records::opt_text(#[trigger] boroughs@[k]) == Some(UNKNOWN@),
            forall|k: int|
                0 <= k < i ==> records::opt_text(#[trigger] municipalities@[k]) == Some(
                    UNKNOWN@,
                ),
        decreases stops@.len() - i,
    {
        let stop: &StopRow = &stops[i];
        keys.push(Some(agency.stop_key(stop.stop_id.as_str())));
        ids.push(Some(stop.stop_id.clone()));
        agencies.push(Some(agency.id.clone()));
        names.push(owned(records::non_empty(&stop.stop_name)));
        lats.push(stop.stop_lat);
        lons.push(stop.stop_lon);
        stations.push(Some(stop.is_station()));
        parents.push(parent_key_of(agency, stop));
        // A stop with no parent is its own station.
        station_keys.push(
            Some(
                match parent_key_of(agency, stop) {
                    Some(key) => key,
                    None => agency.stop_key(stop.stop_id.as_str()),
                },
            ),
        );
        boroughs.push(Some(UNKNOWN.to_string()));
        municipalities.push(Some(UNKNOWN.to_string()));
        i = i + 1;
    }
    let mut r: Vec<Column> = Vec::new();
    r.push(columns::column("stop_key", false, Cells::Text(keys)));
    r.push(columns::column("stop_id", false, Cells::Text(ids)));
    r.push(columns::column("agency_id", false, Cells::Text(agencies)));
    r.push(columns::column("stop_name", true, Cells::Text(names)));
    r.push(columns::column("stop_lat", true, Cells::Double(lats)));
    r.push(columns::column("stop_lon", true, Cells::Double(lons)));
    r.push(columns::column("is_station", false, Cells::Flag(stations)));
    r.push(columns::column("parent_station_key", true, Cells::Text(parents)));
    r.push(columns::column("station_key", false, Cells::Text(station_keys)));
    r.push(columns::column("borough", false, Cells::Text(boroughs)));
    r.push(columns::column("municipality", false, Cells::Text(municipalities)));
    proof {
        let made = columns::column_views(r@);
        let cells = stop_cells(*agency, stops@);
        assert(made[0].cells->Text_0 =~= cells[0]->Text_0);
        assert(made[1].cells->Text_0 =~= cells[1]->Text_0);
        assert(made[2].cells->Text_0 =~= cells[2]->Text_0);
        assert(made[3].cells->Text_0 =~= cells[3]->Text_0);
        assert(made[4].cells->Double_0 =~= cells[4]->Double_0);
        assert(made[5].cells->Double_0 =~= cells[5]->Double_0);
        assert(made[6].cells->Flag_0 =~= cells[6]->Flag_0);
        assert(made[7].cells->Text_0 =~= cells[7]->Text_0);
        assert(made[8].cells->Text_0 =~= cells[8]->Text_0);
        assert(made[9].cells->Text_0 =~= cells[9]->Text_0);
        assert(made[10].cells->Text_0 =~= cells[10]->Text_0);
        assert(made =~= stop_columns(*agency, stops@));
    }
    r
}

/// The columns of the `routes` table make a table, under its fields.
pub proof fn lemma_route_table(agency: Agency, routes: Seq<RouteRow>)
    ensures
        columns::is_table(route_columns(agency, routes), routes.len()),
        columns::fields_of(route_columns(agency, routes)) == route_fields(),
{
    let all = route_columns(agency, routes);
    let cells = route_cells(agency, routes);
    assert(columns::fields_of(all) =~= route_fields());
    assert forall|i: int| 0 <= i < all.len() implies (#[trigger] all[i]).cells.len()
        == routes.len() && (all[i].nullable || all[i].cells.full()) by {
        assert(all[i].cells == cells[i]);
    }
}

/// The columns of the `stops` table make a table, under its fields.
pub proof fn lemma_stop_table(agency: Agency, stops: Seq<StopRow>)
    ensures
        columns::is_table(stop_columns(agency, stops), stops.len()),
        columns::fields_of(stop_columns(agency, stops)) == stop_fields(),
{
    let all = stop_columns(agency, stops);
    let cells = stop_cells(agency, stops);
    assert(columns::fields_of(all) =~= stop_fields());
    assert forall|i: int| 0 <= i < all.len() implies (#[trigger] all[i]).cells.len() == stops.len()
        && (all[i].nullable || all[i].cells.full()) by {
        assert(all[i].cells == cells[i]);
    }
}

/// The `routes` table of a feed as a record batch.
pub fn routes_batch(feed: &StaticFeed, agency: &Agency) -> (r: Result<Batch, Error>)
    requires
        columns::texts_fit(route_columns(*agency, feed.routes@)),
    ensures
        r matches Ok(batch) && columns::batch_columns(batch) == route_columns(
            *agency,
            feed.routes@,
        ),
{
    proof {
        lemma_route_table(*agency, feed.routes@);
    }
    Ok(Batch::from_columns(routes_table(&feed.routes, agency), feed.routes.len()))
}

/// The `stops` table of a feed as a record batch.
pub fn stops_batch(feed: &StaticFeed, agency: &Agency) -> (r: Result<Batch, Error>)
    requires
        columns::texts_fit(stop_columns(*agency, feed.stops@)),
    ensures
        r matches Ok(batch) && columns::batch_columns(batch) == stop_columns(*agency, feed.stops@),
{
    proof {
        lemma_stop_table(*agency, feed.stops@);
    }
    Ok(Batch::from_columns(stops_table(&feed.stops, agency), feed.stops.len()))
}

// ---------------------------------------------------------------------------
// Laws
// ---------------------------------------------------------------------------

/// No level of the geography hierarchy is ever null: every stop has a station,
/// a borough and a municipality.
pub proof fn law_geography_has_no_holes(agency: Agency, stops: Seq<StopRow>)
    ensures
        stop_columns(agency, stops)[8].cells.full(),
        stop_columns(agency, stops)[9].cells.full(),
        stop_columns(agency, stops)[10].cells.full(),
        stop_columns(agency, stops)[8].name == "station_key"@,
        stop_columns(agency, stops)[9].name == "borough"@,
        stop_columns(agency, stops)[10].name == "municipality"@,
{
}

/// A route's label is never null, and never blank as long as its id is not.
pub proof fn law_labels_are_never_blank(agency: Agency, routes: Seq<RouteRow>)
    ensures
        route_columns(agency, routes)[7].name == "display_name"@,
        route_columns(agency, routes)[7].cells.full(),
        forall|i: int|
            0 <= i < routes.len() && (#[trigger] routes[i]).route_id@.len() > 0
                ==> routes[i].label().len() > 0,
{
}

/// Every event of a consistent feed joins: its route key is the key of a row of
/// the `routes` table, and its stop key that of a row of the `stops` table.
pub proof fn law_events_of_consistent_feeds_join(
    agency: Agency,
    feed: StaticFeed,
    days: Map<Seq<char>, Set<int>>,
    day: int,
    noon: int,
    i: int,
)
    requires
        validate::consistent(feed),
        0 <= i < schedule::events_of(
            agency.id@,
            day,
            noon,
            feed.trips@,
            feed.stop_times@,
            schedule::calls_of_day(feed.trips@, feed.stop_times@, days, day),
        ).len(),
    ensures
        ({
            let event = schedule::events_of(
                agency.id@,
                day,
                noon,
                feed.trips@,
                feed.stop_times@,
                schedule::calls_of_day(feed.trips@, feed.stop_times@, days, day),
            )[i];
            &&& key_column(route_columns(agency, feed.routes@)).contains(Some(event.route_key))
            &&& key_column(stop_columns(agency, feed.stops@)).contains(Some(event.stop_key))
        }),
{
    let calls = schedule::calls_of_day(feed.trips@, feed.stop_times@, days, day);
    schedule::lemma_call_rows(feed.trips@, feed.stop_times@, days, day);
    let k = schedule::lemma_event_has_call(
        agency.id@,
        day,
        noon,
        feed.trips@,
        feed.stop_times@,
        calls,
        i,
    );
    assert(calls[k] == calls[k]);
    let trip = feed.trips@[calls[k].0];
    let stop_time = feed.stop_times@[calls[k].1];
    lemma_route_joins(agency, feed.routes@, trip.route_id@);
    lemma_stop_joins(agency, feed.stops@, stop_time.stop_id@);
}

/// Every stop of a consistent feed belongs to a station that is itself a row of
/// the `stops` table.
pub proof fn law_stations_of_consistent_feeds_are_stops(agency: Agency, feed: StaticFeed, i: int)
    requires
        validate::consistent(feed),
        0 <= i < feed.stops@.len(),
    ensures
        key_column(stop_columns(agency, feed.stops@)).contains(
            Some(station_key(agency.id@, feed.stops@[i])),
        ),
{
    let stop = feed.stops@[i];
    match records::present(stop.parent_station) {
        Some(parent) => {
            lemma_stop_joins(agency, feed.stops@, parent);
        },
        None => {
            assert(validate::stop_ids(feed.stops@)[i] == stop.stop_id@);
            lemma_stop_joins(agency, feed.stops@, stop.stop_id@);
        },
    }
}

/// The key column of a dimension table, which is its first.
pub open spec fn key_column(table: Seq<ColumnView>) -> Seq<Option<Seq<char>>> {
    table[0].cells->Text_0
}

proof fn lemma_route_joins(agency: Agency, routes: Seq<RouteRow>, id: Seq<char>)
    requires
        validate::route_ids(routes).contains(id),
    ensures
        key_column(route_columns(agency, routes)).contains(
            Some(config::namespaced(agency.id@, id)),
        ),
{
    let ids = validate::route_ids(routes);
    let i = choose|i: int| 0 <= i < ids.len() && ids[i] == id;
    assert(routes[i].route_id@ == id);
    assert(key_column(route_columns(agency, routes))[i] == Some(
        config::namespaced(agency.id@, id),
    ));
}

proof fn lemma_stop_joins(agency: Agency, stops: Seq<StopRow>, id: Seq<char>)
    requires
        validate::stop_ids(stops).contains(id),
    ensures
        key_column(stop_columns(agency, stops)).contains(Some(config::namespaced(agency.id@, id))),
{
    let ids = validate::stop_ids(stops);
    let i = choose|i: int| 0 <= i < ids.len() && ids[i] == id;
    assert(stops[i].stop_id@ == id);
    assert(key_column(stop_columns(agency, stops))[i] == Some(config::namespaced(agency.id@, id)));
}

/// No two columns of the `routes` table have the same name.
proof fn lemma_route_names(j: int, k: int)
    requires
        0 <= j < route_fields().len(),
        0 <= k < route_fields().len(),
        route_fields()[j].name == route_fields()[k].name,
    ensures
        j == k,
{
    reveal_strlit("route_key");
    reveal_strlit("route_id");
    reveal_strlit("agency_id");
    reveal_strlit("mode");
    reveal_strlit("route_type");
    reveal_strlit("route_short_name");
    reveal_strlit("route_long_name");
    reveal_strlit("display_name");
    reveal_strlit("route_color");
    assert("route_key"@.len() == 9 && "route_key"@[0] == 'r');
    assert("route_id"@.len() == 8 && "route_id"@[0] == 'r');
    assert("agency_id"@.len() == 9 && "agency_id"@[0] == 'a');
    assert("mode"@.len() == 4 && "mode"@[0] == 'm');
    assert("route_type"@.len() == 10 && "route_type"@[0] == 'r');
    assert("route_short_name"@.len() == 16 && "route_short_name"@[0] == 'r');
    assert("route_long_name"@.len() == 15 && "route_long_name"@[0] == 'r');
    assert("display_name"@.len() == 12 && "display_name"@[0] == 'd');
    assert("route_color"@.len() == 11 && "route_color"@[0] == 'r');
}

/// The `routes` table has the columns of its schema, one of each of these names.
/// Only the names and the color of a route can be null.
pub proof fn law_route_columns_by_name(agency: Agency, routes: Seq<RouteRow>)
    ensures
        ({
            let table = route_columns(agency, routes);
            &&& columns::fields_of(table) == route_fields()
            &&& table.len() == 9
            &&& columns::is_column(table, "route_key"@, 0)
            &&& columns::is_column(table, "route_id"@, 1)
            &&& columns::is_column(table, "agency_id"@, 2)
            &&& columns::is_column(table, "mode"@, 3)
            &&& columns::is_column(table, "route_type"@, 4)
            &&& columns::is_column(table, "route_short_name"@, 5)
            &&& columns::is_column(table, "route_long_name"@, 6)
            &&& columns::is_column(table, "display_name"@, 7)
            &&& columns::is_column(table, "route_color"@, 8)
            &&& forall|k: int|
                0 <= k < table.len() ==> ((#[trigger] table[k]).nullable <==> k == 5 || k == 6 || k == 8)
        }),
{
    let table = route_columns(agency, routes);
    let fields = route_fields();
    lemma_route_table(agency, routes);
    assert forall|j: int, k: int|
        0 <= j < table.len() && 0 <= k < table.len() && (#[trigger] table[j]).name == (
        #[trigger] table[k]).name implies j == k by {
        assert(table[j].name == fields[j].name);
        assert(table[k].name == fields[k].name);
        lemma_route_names(j, k);
    }
    assert forall|k: int| 0 <= k < table.len() implies (#[trigger] table[k]).name == fields[k].name
        && table[k].nullable == fields[k].nullable by {}
}

/// Whether a cell shows a text field: its text where it is there and not empty,
/// and otherwise null.
pub open spec fn shows(cell: Option<Seq<char>>, field: Option<String>) -> bool {
    match field {
        Some(s) => if s@.len() > 0 {
            cell == Some(s@)
        } else {
            cell is None
        },
        None => cell is None,
    }
}

/// Every row of the `routes` table tells of its route, each column the field of
/// the same name: the names and the color where they are there and not empty,
/// the type, and the ids, of which the key is made.
pub proof fn law_route_rows_tell_their_routes(agency: Agency, routes: Seq<RouteRow>, i: int)
    requires
        0 <= i < routes.len(),
    ensures
        ({
            let table = route_columns(agency, routes);
            let route = routes[i];
            &&& table[0].cells matches CellsView::Text(v) && v.len() == routes.len() && v[i] == Some(
                agency.id@ + ":"@ + route.route_id@,
            )
            &&& table[1].cells matches CellsView::Text(v) && v.len() == routes.len() && v[i] == Some(
                route.route_id@,
            )
            &&& table[2].cells matches CellsView::Text(v) && v.len() == routes.len() && v[i] == Some(
                agency.id@,
            )
            &&& table[3].cells matches CellsView::Text(v) && v.len() == routes.len() && v[i] == Some(
                agency.mode@,
            )
            &&& table[4].cells matches CellsView::Int32(v) && v.len() == routes.len() && v[i] == Some(
                route.route_type,
            )
            &&& table[5].cells matches CellsView::Text(v) && v.len() == routes.len() && shows(
                v[i],
                route.route_short_name,
            )
            &&& table[6].cells matches CellsView::Text(v) && v.len() == routes.len() && shows(
                v[i],
                route.route_long_name,
            )
            &&& table[7].cells matches CellsView::Text(v) && v.len() == routes.len()
            &&& table[8].cells matches CellsView::Text(v) && v.len() == routes.len() && shows(
                v[i],
                route.route_color,
            )
        }),
{
    let table = route_columns(agency, routes);
    let cells = route_cells(agency, routes);
    assert forall|k: int| 0 <= k < table.len() implies (#[trigger] table[k]).cells == cells[k] by {}
}

/// A route is labelled with what stands beside the label: the short name of its
/// row where that is not null, else the long name, else the id.
pub proof fn law_route_labels(agency: Agency, routes: Seq<RouteRow>, i: int)
    requires
        0 <= i < routes.len(),
    ensures
        ({
            let table = route_columns(agency, routes);
            let id = table[1].cells->Text_0[i];
            let short = table[5].cells->Text_0[i];
            let long = table[6].cells->Text_0[i];
            let label = table[7].cells->Text_0[i];
            &&& short is Some ==> label == short
            &&& short is None && long is Some ==> label == long
            &&& short is None && long is None ==> label == id
        }),
{
    let table = route_columns(agency, routes);
    let cells = route_cells(agency, routes);
    assert forall|k: int| 0 <= k < table.len() implies (#[trigger] table[k]).cells == cells[k] by {}
}

/// The `routes` table determines its routes, but for what a feed may leave
/// blank: two lists with equal tables agree row by row.
pub proof fn law_route_table_determines_its_routes(
    agency: Agency,
    routes: Seq<RouteRow>,
    others: Seq<RouteRow>,
    i: int,
)
    requires
        route_columns(agency, routes) == route_columns(agency, others),
        0 <= i < routes.len(),
    ensures
        routes.len() == others.len(),
        routes[i].route_id@ == others[i].route_id@,
        routes[i].route_type == others[i].route_type,
        routes[i].route_short_name matches Some(s) ==> s@.len() > 0 ==> (
        others[i].route_short_name matches Some(o) && o@ == s@),
        routes[i].route_long_name matches Some(s) ==> s@.len() > 0 ==> (
        others[i].route_long_name matches Some(o) && o@ == s@),
        routes[i].route_color matches Some(s) ==> s@.len() > 0 ==> (
        others[i].route_color matches Some(o) && o@ == s@),
{
    lemma_route_table(agency, routes);
    lemma_route_table(agency, others);
    assert(route_columns(agency, routes)[0].cells.len() == routes.len());
    assert(route_columns(agency, others)[0].cells.len() == others.len());
    law_route_rows_tell_their_routes(agency, routes, i);
    law_route_rows_tell_their_routes(agency, others, i);
}

/// No two columns of the `stops` table have the same name.
proof fn lemma_stop_names(j: int, k: int)
    requires
        0 <= j < stop_fields().len(),
        0 <= k < stop_fields().len(),
        stop_fields()[j].name == stop_fields()[k].name,
    ensures
        j == k,
{
    reveal_strlit("stop_key");
    reveal_strlit("stop_id");
    reveal_strlit("agency_id");
    reveal_strlit("stop_name");
    reveal_strlit("stop_lat");
    reveal_strlit("stop_lon");
    reveal_strlit("is_station");
    reveal_strlit("parent_station_key");
    reveal_strlit("station_key");
    reveal_strlit("borough");
    reveal_strlit("municipality");
    assert("stop_key"@.len() == 8 && "stop_key"@[0] == 's');
    assert("stop_id"@.len() == 7 && "stop_id"@[0] == 's');
    assert("agency_id"@.len() == 9 && "agency_id"@[0] == 'a');
    assert("stop_name"@.len() == 9 && "stop_name"@[0] == 's');
    assert("stop_lat"@.len() == 8 && "stop_lat"@[0] == 's');
    assert("stop_lon"@.len() == 8 && "stop_lon"@[0] == 's');
    assert("is_station"@.len() == 10 && "is_station"@[0] == 'i');
    assert("parent_station_key"@.len() == 18 && "parent_station_key"@[0] == 'p');
    assert("station_key"@.len() == 11 && "station_key"@[0] == 's');
    assert("borough"@.len() == 7 && "borough"@[0] == 'b');
    assert("municipality"@.len() == 12 && "municipality"@[0] == 'm');
    assert("stop_key"@[6] == 'e');
    assert("stop_lat"@[6] == 'a');
    assert("stop_lon"@[6] == 'o');
}

/// The `stops` table has the columns of its schema, one of each of these names.
/// Only the name, the coordinates and the parent of a stop can be null.
pub proof fn law_stop_columns_by_name(agency: Agency, stops: Seq<StopRow>)
    ensures
        ({
            let table = stop_columns(agency, stops);
            &&& columns::fields_of(table) == stop_fields()
            &&& table.len() == 11
            &&& columns::is_column(table, "stop_key"@, 0)
            &&& columns::is_column(table, "stop_id"@, 1)
            &&& columns::is_column(table, "agency_id"@, 2)
            &&& columns::is_column(table, "stop_name"@, 3)
            &&& columns::is_column(table, "stop_lat"@, 4)
            &&& columns::is_column(table, "stop_lon"@, 5)
            &&& columns::is_column(table, "is_station"@, 6)
            &&& columns::is_column(table, "parent_station_key"@, 7)
            &&& columns::is_column(table, "station_key"@, 8)
            &&& columns::is_column(table, "borough"@, 9)
            &&& columns::is_column(table, "municipality"@, 10)
            &&& forall|k: int|
                0 <= k < table.len() ==> ((#[trigger] table[k]).nullable <==> k == 3 || k == 4 || k == 5 || k == 7)
        }),
{
    let table = stop_columns(agency, stops);
    let fields = stop_fields();
    lemma_stop_table(agency, stops);
    assert forall|j: int, k: int|
        0 <= j < table.len() && 0 <= k < table.len() && (#[trigger] table[j]).name == (
        #[trigger] table[k]).name implies j == k by {
        assert(table[j].name == fields[j].name);
        assert(table[k].name == fields[k].name);
        lemma_stop_names(j, k);
    }
    assert forall|k: int| 0 <= k < table.len() implies (#[trigger] table[k]).name == fields[k].name
        && table[k].nullable == fields[k].nullable by {}
}

/// Every row of the `stops` table tells of its stop, each column the field of
/// the same name: the name where it is there and not empty, the coordinates as
/// they are, the ids, of which the keys are made, and whether it is a station.
pub proof fn law_stop_rows_tell_their_stops(agency: Agency, stops: Seq<StopRow>, i: int)
    requires
        0 <= i < stops.len(),
    ensures
        ({
            let table = stop_columns(agency, stops);
            let stop = stops[i];
            &&& table[0].cells matches CellsView::Text(v) && v.len() == stops.len() && v[i] == Some(
                agency.id@ + ":"@ + stop.stop_id@,
            )
            &&& table[1].cells matches CellsView::Text(v) && v.len() == stops.len() && v[i] == Some(
                stop.stop_id@,
            )
            &&& table[2].cells matches CellsView::Text(v) && v.len() == stops.len() && v[i] == Some(
                agency.id@,
            )
            &&& table[3].cells matches CellsView::Text(v) && v.len() == stops.len() && shows(
                v[i],
                stop.stop_name,
            )
            &&& table[4].cells matches CellsView::Double(v) && v.len() == stops.len() && v[i]
                == stop.stop_lat
            &&& table[5].cells matches CellsView::Double(v) && v.len() == stops.len() && v[i]
                == stop.stop_lon
            &&& table[6].cells matches CellsView::Flag(v) && v.len() == stops.len() && (
            v[i] matches Some(station) && (station <==> stop.location_type == Some(1i32)))
            &&& table[7].cells matches CellsView::Text(v) && v.len() == stops.len() && match v[i] {
                Some(key) => stop.parent_station matches Some(parent) && parent@.len() > 0 && key
                    == agency.id@ + ":"@ + parent@,
                None => stop.parent_station matches Some(parent) ==> parent@.len() == 0,
            }
        }),
{
    let table = stop_columns(agency, stops);
    let cells = stop_cells(agency, stops);
    assert forall|k: int| 0 <= k < table.len() implies (#[trigger] table[k]).cells == cells[k] by {}
}

/// The station of a stop is its parent where its row has one, and otherwise the
/// stop itself. Borough and municipality are `Unknown`.
pub proof fn law_stops_have_stations(agency: Agency, stops: Seq<StopRow>, i: int)
    requires
        0 <= i < stops.len(),
    ensures
        ({
            let table = stop_columns(agency, stops);
            let own = table[0].cells->Text_0[i];
            let parent = table[7].cells->Text_0[i];
            let station = table[8].cells->Text_0[i];
            &&& table[8].cells->Text_0.len() == stops.len()
            &&& parent is Some ==> station == parent
            &&& parent is None ==> station == own
            &&& table[9].cells->Text_0.len() == stops.len()
            &&& table[9].cells->Text_0[i] == Some("Unknown"@)
            &&& table[10].cells->Text_0.len() == stops.len()
            &&& table[10].cells->Text_0[i] == Some("Unknown"@)
        }),
{
    let table = stop_columns(agency, stops);
    let cells = stop_cells(agency, stops);
    assert forall|k: int| 0 <= k < table.len() implies (#[trigger] table[k]).cells == cells[k] by {}
}

} // verus!
