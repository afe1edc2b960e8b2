//! The `scheduled_events` fact table.
//!
//! The schema is the full fact schema, with the five columns that only realtime
//! data can fill. From a static feed they are written as typed nulls, so that
//! what is built on this table does not change when they are filled.
//!
//! `service_date` is deliberately not a column. It is the partition key and
//! lives in the directory name; a reader that found it in both places would see
//! two columns of different types.

use vstd::prelude::*;

use crate::dataset::columns;
use crate::dataset::columns::{Batch, Cells, CellsView, Column, ColumnView, Field, FieldView, Kind};
use crate::error::{Error, ErrorView};
use crate::schedule;
use crate::schedule::{EventView, ScheduledEvent};
use crate::zone;

verus! {

/// The fields of the fact table.
pub open spec fn fact_fields() -> Seq<FieldView> {
    seq![
        FieldView { name: "event_id"@, kind: Kind::Text, nullable: false },
        FieldView { name: "agency_id"@, kind: Kind::Text, nullable: false },
        FieldView { name: "route_id"@, kind: Kind::Text, nullable: false },
        FieldView { name: "route_key"@, kind: Kind::Text, nullable: false },
        FieldView { name: "trip_id"@, kind: Kind::Text, nullable: false },
        FieldView { name: "stop_id"@, kind: Kind::Text, nullable: false },
        FieldView { name: "stop_key"@, kind: Kind::Text, nullable: false },
        FieldView { name: "stop_sequence"@, kind: Kind::Int32, nullable: false },
        FieldView { name: "direction_id"@, kind: Kind::Int32, nullable: true },
        FieldView { name: "scheduled_arrival"@, kind: Kind::Micros, nullable: false },
        FieldView { name: "scheduled_departure"@, kind: Kind::Micros, nullable: false },
        FieldView { name: "dwell_seconds"@, kind: Kind::Int32, nullable: false },
        FieldView { name: "crosses_midnight"@, kind: Kind::Flag, nullable: false },
        FieldView { name: "actual_arrival"@, kind: Kind::Micros, nullable: true },
        FieldView { name: "delay_seconds"@, kind: Kind::Int32, nullable: true },
        FieldView { name: "headway_seconds"@, kind: Kind::Int32, nullable: true },
        FieldView { name: "is_cancelled"@, kind: Kind::Flag, nullable: true },
        FieldView { name: "vehicle_id"@, kind: Kind::Text, nullable: true },
    ]
}

/// The `scheduled_events` schema.
pub fn schema() -> (r: Vec<Field>)
    ensures
        columns::field_views(r@) == fact_fields(),
{
    let mut r: Vec<Field> = Vec::new();
    r.push(columns::field("event_id", Kind::Text, false));
    r.push(columns::field("agency_id", Kind::Text, false));
    r.push(columns::field("route_id", Kind::Text, false));
    r.push(columns::field("route_key", Kind::Text, false));
    r.push(columns::field("trip_id", Kind::Text, false));
    r.push(columns::field("stop_id", Kind::Text, false));
    r.push(columns::field("stop_key", Kind::Text, false));
    r.push(columns::field("stop_sequence", Kind::Int32, false));
    // Nullable because GTFS makes it optional. Defaulting to 0 would assert a
    // direction the feed did not state.
    r.push(columns::field("direction_id", Kind::Int32, true));
    r.push(columns::field("scheduled_arrival", Kind::Micros, false));
    r.push(columns::field("scheduled_departure", Kind::Micros, false));
    r.push(columns::field("dwell_seconds", Kind::Int32, false));
    r.push(columns::field("crosses_midnight", Kind::Flag, false));
    r.push(columns::field("actual_arrival", Kind::Micros, true));
    r.push(columns::field("delay_seconds", Kind::Int32, true));
    r.push(columns::field("headway_seconds", Kind::Int32, true));
    r.push(columns::field("is_cancelled", Kind::Flag, true));
    r.push(columns::field("vehicle_id", Kind::Text, true));
    assert(columns::field_views(r@) =~= fact_fields());
    r
}

/// A text of each event.
pub open spec fn texts(events: Seq<EventView>, part: spec_fn(EventView) -> Seq<char>) -> CellsView {
    CellsView::Text(events.map_values(|event: EventView| Some(part(event))))
}

/// An integer of each event.
pub open spec fn numbers(
    events: Seq<EventView>,
    part: spec_fn(EventView) -> Option<i32>,
) -> CellsView {
    CellsView::Int32(events.map_values(part))
}

/// An instant of each event, in microseconds.
pub open spec fn instants(events: Seq<EventView>, part: spec_fn(EventView) -> int) -> CellsView {
    CellsView::Micros(
        events.map_values(|event: EventView| Some((part(event) * 1_000_000) as i64)),
    )
}

/// The cells of the fact table, column by column.
pub open spec fn fact_cells(events: Seq<EventView>) -> Seq<CellsView> {
    let rows = events.len();
    seq![
        texts(events, |event: EventView| event.event_id),
        texts(events, |event: EventView| event.agency_id),
        texts(events, |event: EventView| event.route_id),
        texts(events, |event: EventView| event.route_key),
        texts(events, |event: EventView| event.trip_id),
        texts(events, |event: EventView| event.stop_id),
        texts(events, |event: EventView| event.stop_key),
        numbers(events, |event: EventView| Some(event.stop_sequence as i32)),
        numbers(events, |event: EventView| event.direction_id),
        instants(events, |event: EventView| event.scheduled_arrival),
        instants(events, |event: EventView| event.scheduled_departure),
        numbers(events, |event: EventView| Some(event.dwell_seconds as i32)),
        CellsView::Flag(events.map_values(|event: EventView| Some(event.crosses_midnight))),
        CellsView::Micros(Seq::new(rows, |i: int| None::<i64>)),
        CellsView::Int32(Seq::new(rows, |i: int| None::<i32>)),
        CellsView::Int32(Seq::new(rows, |i: int| None::<i32>)),
        CellsView::Flag(Seq::new(rows, |i: int| None::<bool>)),
        CellsView::Text(Seq::new(rows, |i: int| None::<Seq<char>>)),
    ]
}

/// The columns of the fact table.
pub open spec fn fact_columns(events: Seq<EventView>) -> Seq<ColumnView> {
    columns::under_fields(fact_fields(), fact_cells(events))
}

/// The columns of one service date's events.
#[verifier::rlimit(40)]
pub fn table(events: &[ScheduledEvent]) -> (r: Vec<Column>)
    ensures
        columns::column_views(r@) == fact_columns(schedule::event_views(events@)),
{
    let ghost views = schedule::event_views(events@);
    let mut event_ids: Vec<Option<String>> = Vec::new();
    let mut agency_ids: Vec<Option<String>> = Vec::new();
    let mut route_ids: Vec<Option<String>> = Vec::new();
    let mut route_keys: Vec<Option<String>> = Vec::new();
    let mut trip_ids: Vec<Option<String>> = Vec::new();
    let mut stop_ids: Vec<Option<String>> = Vec::new();
    let mut stop_keys: Vec<Option<String>> = Vec::new();
    let mut sequences: Vec<Option<i32>> = Vec::new();
    let mut directions: Vec<Option<i32>> = Vec::new();
    let mut arrivals: Vec<Option<i64>> = Vec::new();
    let mut departures: Vec<Option<i64>> = Vec::new();
    let mut dwells: Vec<Option<i32>> = Vec::new();
    let mut crossings: Vec<Option<bool>> = Vec::new();
    let mut i: usize = 0;
    while i < events.len()
        invariant
            i <= events@.len(),
            views == schedule::event_views(events@),
            event_ids@.len() == i,
            agency_ids@.len() == i,
            route_ids@.len() == i,
            route_keys@.len() == i,
            trip_ids@.len() == i,
            stop_ids@.len() == i,
            stop_keys@.len() == i,
            sequences@.len() == i,
            directions@.len() == i,
            arrivals@.len() == i,
            departures@.len() == i,
            dwells@.len() == i,
            crossings@.len() == i,
            forall|k: int|
                0 <= k < i ==> (#[trigger] event_ids@[k] matches Some(s) && s@
                    == views[k].event_id),
            forall|k: int|
                0 <= k < i ==> (#[trigger] agency_ids@[k] matches Some(s) && s@
                    == views[k].agency_id),
            forall|k: int|
                0 <= k < i ==> (#[trigger] route_ids@[k] matches Some(s) && s@
                    == views[k].route_id),
            forall|k: int|
                0 <= k < i ==> (#[trigger] route_keys@[k] matches Some(s) && s@
                    == views[k].route_key),
            forall|k: int|
                0 <= k < i ==> (#[trigger] trip_ids@[k] matches Some(s) && s@
                    == views[k].trip_id),
            forall|k: int|
                0 <= k < i ==> (#[trigger] stop_ids@[k] matches Some(s) && s@
                    == views[k].stop_id),
            forall|k: int|
                0 <= k < i ==> (#[trigger] stop_keys@[k] matches Some(s) && s@
                    == views[k].stop_key),
            forall|k: int|
                0 <= k < i ==> #[trigger] sequences@[k] == Some(views[k].stop_sequence as i32),
            forall|k: int| 0 <= k < i ==> #[trigger] directions@[k] == views[k].direction_id,
            forall|k: int|
                0 <= k < i ==> #[trigger] arrivals@[k] == Some(
                    (views[k].scheduled_arrival * 1_000_000) as i64,
                ),
            forall|k: int|
                0 <= k < i ==> #[trigger] departures@[k] == Some(
                    (views[k].scheduled_departure * 1_000_000) as i64,
                ),
            forall|k: int|
                0 <= k < i ==> #[trigger] dwells@[k] == Some(views[k].dwell_seconds as i32),
            forall|k: int|
                0 <= k < i ==> #[trigger] crossings@[k] == Some(views[k].crosses_midnight),
        decreases events@.len() - i,
    {
        let event: &ScheduledEvent = &events[i];
        assert(views[i as int] == events@[i as int]@);
        event_ids.push(Some(event.event_id.clone()));
        agency_ids.push(Some(event.agency_id.clone()));
        route_ids.push(Some(event.route_id.clone()));
        route_keys.push(Some(event.route_key.clone()));
        trip_ids.push(Some(event.trip_id.clone()));
        stop_ids.push(Some(event.stop_id.clone()));
        stop_keys.push(Some(event.stop_key.clone()));
        sequences.push(Some(event.stop_sequence as i32));
        directions.push(event.direction_id);
        arrivals.push(Some(event.scheduled_arrival.micros()));
        departures.push(Some(event.scheduled_departure.micros()));
        dwells.push(Some(event.dwell_seconds));
        crossings.push(Some(event.crosses_midnight));
        i = i + 1;
    }
    let rows: usize = events.len();
    let mut r: Vec<Column> = Vec::new();
    r.push(columns::column("event_id", false, Cells::Text(event_ids)));
    r.push(columns::column("agency_id", false, Cells::Text(agency_ids)));
    r.push(columns::column("route_id", false, Cells::Text(route_ids)));
    r.push(columns::column("route_key", false, Cells::Text(route_keys)));
    r.push(columns::column("trip_id", false, Cells::Text(trip_ids)));
    r.push(columns::column("stop_id", false, Cells::Text(stop_ids)));
    r.push(columns::column("stop_key", false, Cells::Text(stop_keys)));
    r.push(columns::column("stop_sequence", false, Cells::Int32(sequences)));
    r.push(columns::column("direction_id", true, Cells::Int32(directions)));
    r.push(columns::column("scheduled_arrival", false, Cells::Micros(arrivals)));
    r.push(columns::column("scheduled_departure", false, Cells::Micros(departures)));
    r.push(columns::column("dwell_seconds", false, Cells::Int32(dwells)));
    r.push(columns::column("crosses_midnight", false, Cells::Flag(crossings)));
    r.push(columns::column("actual_arrival", true, columns::nulls(Kind::Micros, rows)));
    r.push(columns::column("delay_seconds", true, columns::nulls(Kind::Int32, rows)));
    r.push(columns::column("headway_seconds", true, columns::nulls(Kind::Int32, rows)));
    r.push(columns::column("is_cancelled", true, columns::nulls(Kind::Flag, rows)));
    r.push(columns::column("vehicle_id", true, columns::nulls(Kind::Text, rows)));
    proof {
        let made = columns::column_views(r@);
        let cells = fact_cells(views);
        let wanted = fact_columns(views);
        assert(made[0].cells->Text_0 =~= cells[0]->Text_0);
        assert(made[1].cells->Text_0 =~= cells[1]->Text_0);
        assert(made[2].cells->Text_0 =~= cells[2]->Text_0);
        assert(made[3].cells->Text_0 =~= cells[3]->Text_0);
        assert(made[4].cells->Text_0 =~= cells[4]->Text_0);
        assert(made[5].cells->Text_0 =~= cells[5]->Text_0);
        assert(made[6].cells->Text_0 =~= cells[6]->Text_0);
        assert(made[7].cells->Int32_0 =~= cells[7]->Int32_0);
        assert(made[8].cells->Int32_0 =~= cells[8]->Int32_0);
        assert(made[9].cells->Micros_0 =~= cells[9]->Micros_0);
        assert(made[10].cells->Micros_0 =~= cells[10]->Micros_0);
        assert(made[11].cells->Int32_0 =~= cells[11]->Int32_0);
        assert(made[12].cells->Flag_0 =~= cells[12]->Flag_0);
        assert(made[13].cells->Micros_0 =~= cells[13]->Micros_0);
        assert(made[14].cells->Int32_0 =~= cells[14]->Int32_0);
        assert(made[15].cells->Int32_0 =~= cells[15]->Int32_0);
        assert(made[16].cells->Flag_0 =~= cells[16]->Flag_0);
        assert(made[17].cells->Text_0 =~= cells[17]->Text_0);
        assert(made =~= wanted);
    }
    r
}

/// The columns of the fact table make a table, under the fact fields.
pub proof fn lemma_fact_table(events: Seq<EventView>)
    ensures
        columns::is_table(fact_columns(events), events.len()),
        columns::fields_of(fact_columns(events)) == fact_fields(),
        fact_columns(events).len() == 18,
{
    let all = fact_columns(events);
    let cells = fact_cells(events);
    assert(columns::fields_of(all) =~= fact_fields());
    assert forall|i: int| 0 <= i < all.len() implies (#[trigger] all[i]).cells.len()
        == events.len() && (all[i].nullable || all[i].cells.full()) by {
        assert(all[i].cells == cells[i]);
    }
}

/// Encodes one service date's events as a record batch.
pub fn to_record_batch(events: &[ScheduledEvent]) -> (r: Result<Batch, Error>)
    requires
        columns::texts_fit(fact_columns(schedule::event_views(events@))),
    ensures
        r matches Ok(batch) && columns::batch_columns(batch) == fact_columns(
            schedule::event_views(events@),
        ),
{
    proof {
        lemma_fact_table(schedule::event_views(events@));
    }
    Ok(Batch::from_columns(table(events), events.len()))
}

/// The bytes of the Parquet file for a batch that is to be written to `path`.
pub fn encode_batch(path: &str, batch: &Batch) -> (r: Result<Vec<u8>, Error>)
    ensures
        match r {
            Ok(bytes) => columns::parquet_file(columns::batch_columns(*batch)) == Some(bytes@),
            Err(e) => columns::parquet_file(columns::batch_columns(*batch)) is None && e@
                == (ErrorView::Parquet { path: path@ }),
        },
{
    encoded(path, batch.encode())
}

/// The bytes of a Parquet file that is to be written to `path`, given what the
/// encoder returned.
pub fn encoded(path: &str, bytes: Option<Vec<u8>>) -> (r: Result<Vec<u8>, Error>)
    ensures
        match r {
            Ok(file) => bytes == Some(file),
            Err(e) => bytes is None && e@ == (ErrorView::Parquet { path: path@ }),
        },
{
    match bytes {
        Some(file) => Ok(file),
        None => Err(Error::Parquet { path: path.to_string() }),
    }
}

/// The bytes of the Parquet file for one service date's events.
pub fn encode_events(path: &str, events: &[ScheduledEvent]) -> (r: Result<Vec<u8>, Error>)
    requires
        columns::texts_fit(fact_columns(schedule::event_views(events@))),
    ensures
        match r {
            Ok(bytes) => columns::parquet_file(fact_columns(schedule::event_views(events@)))
                == Some(bytes@),
            Err(e) => columns::parquet_file(
                fact_columns(schedule::event_views(events@)),
            ) is None && e@ == (ErrorView::Parquet { path: path@ }),
        },
{
    match to_record_batch(events) {
        Ok(batch) => encode_batch(path, &batch),
        Err(e) => Err(e),
    }
}

// ---------------------------------------------------------------------------
// Laws
// ---------------------------------------------------------------------------

/// Whether the instants of an event lie within the bounds of an instant.
pub open spec fn instants_in_range(event: ScheduledEvent) -> bool {
    zone::is_instant(event.scheduled_arrival@) && zone::is_instant(event.scheduled_departure@)
}

/// No two columns of the fact table have the same name.
proof fn lemma_fact_names(j: int, k: int)
    requires
        0 <= j < fact_fields().len(),
        0 <= k < fact_fields().len(),
        fact_fields()[j].name == fact_fields()[k].name,
    ensures
        j == k,
{
    reveal_strlit("event_id");
    reveal_strlit("agency_id");
    reveal_strlit("route_id");
    reveal_strlit("route_key");
    reveal_strlit("trip_id");
    reveal_strlit("stop_id");
    reveal_strlit("stop_key");
    reveal_strlit("stop_sequence");
    reveal_strlit("direction_id");
    reveal_strlit("scheduled_arrival");
    reveal_strlit("scheduled_departure");
    reveal_strlit("dwell_seconds");
    reveal_strlit("crosses_midnight");
    reveal_strlit("actual_arrival");
    reveal_strlit("delay_seconds");
    reveal_strlit("headway_seconds");
    reveal_strlit("is_cancelled");
    reveal_strlit("vehicle_id");
    assert("event_id"@.len() == 8 && "event_id"@[0] == 'e' && "event_id"@[1] == 'v');
    assert("agency_id"@.len() == 9 && "agency_id"@[0] == 'a' && "agency_id"@[1] == 'g');
    assert("route_id"@.len() == 8 && "route_id"@[0] == 'r' && "route_id"@[1] == 'o');
    assert("route_key"@.len() == 9 && "route_key"@[0] == 'r' && "route_key"@[1] == 'o');
    assert("trip_id"@.len() == 7 && "trip_id"@[0] == 't' && "trip_id"@[1] == 'r');
    assert("stop_id"@.len() == 7 && "stop_id"@[0] == 's' && "stop_id"@[1] == 't');
    assert("stop_key"@.len() == 8 && "stop_key"@[0] == 's' && "stop_key"@[1] == 't');
    assert("stop_sequence"@.len() == 13 && "stop_sequence"@[0] == 's' && "stop_sequence"@[1] == 't');
    assert("direction_id"@.len() == 12 && "direction_id"@[0] == 'd' && "direction_id"@[1] == 'i');
    assert("scheduled_arrival"@.len() == 17 && "scheduled_arrival"@[0] == 's' && "scheduled_arrival"@[1] == 'c');
    assert("scheduled_departure"@.len() == 19 && "scheduled_departure"@[0] == 's' && "scheduled_departure"@[1] == 'c');
    assert("dwell_seconds"@.len() == 13 && "dwell_seconds"@[0] == 'd' && "dwell_seconds"@[1] == 'w');
    assert("crosses_midnight"@.len() == 16 && "crosses_midnight"@[0] == 'c' && "crosses_midnight"@[1] == 'r');
    assert("actual_arrival"@.len() == 14 && "actual_arrival"@[0] == 'a' && "actual_arrival"@[1] == 'c');
    assert("delay_seconds"@.len() == 13 && "delay_seconds"@[0] == 'd' && "delay_seconds"@[1] == 'e');
    assert("headway_seconds"@.len() == 15 && "headway_seconds"@[0] == 'h' && "headway_seconds"@[1] == 'e');
    assert("is_cancelled"@.len() == 12 && "is_cancelled"@[0] == 'i' && "is_cancelled"@[1] == 's');
    assert("vehicle_id"@.len() == 10 && "vehicle_id"@[0] == 'v' && "vehicle_id"@[1] == 'e');
}

/// The fact table has the columns of its schema: exactly one of each of these
/// names, of which only those that a feed may leave open can be null. The
/// service date is not among them.
pub proof fn law_fact_columns_by_name(events: Seq<ScheduledEvent>)
    ensures
        ({
            let table = fact_columns(schedule::event_views(events));
            &&& columns::fields_of(table) == fact_fields()
            &&& table.len() == 18
            &&& columns::is_column(table, "event_id"@, 0)
            &&& columns::is_column(table, "agency_id"@, 1)
            &&& columns::is_column(table, "route_id"@, 2)
            &&& columns::is_column(table, "route_key"@, 3)
            &&& columns::is_column(table, "trip_id"@, 4)
            &&& columns::is_column(table, "stop_id"@, 5)
            &&& columns::is_column(table, "stop_key"@, 6)
            &&& columns::is_column(table, "stop_sequence"@, 7)
            &&& columns::is_column(table, "direction_id"@, 8)
            &&& columns::is_column(table, "scheduled_arrival"@, 9)
            &&& columns::is_column(table, "scheduled_departure"@, 10)
            &&& columns::is_column(table, "dwell_seconds"@, 11)
            &&& columns::is_column(table, "crosses_midnight"@, 12)
            &&& columns::is_column(table, "actual_arrival"@, 13)
            &&& columns::is_column(table, "delay_seconds"@, 14)
            &&& columns::is_column(table, "headway_seconds"@, 15)
            &&& columns::is_column(table, "is_cancelled"@, 16)
            &&& columns::is_column(table, "vehicle_id"@, 17)
            &&& forall|k: int|
                0 <= k < table.len() ==> ((#[trigger] table[k]).nullable <==> k == 8 || k >= 13)
            &&& forall|k: int|
                0 <= k < table.len() ==> (#[trigger] table[k]).name != "service_date"@
        }),
{
    let table = fact_columns(schedule::event_views(events));
    assert forall|j: int, k: int|
        0 <= j < table.len() && 0 <= k < table.len() && (#[trigger] table[j]).name == (
        #[trigger] table[k]).name implies j == k by {
        assert(table[j].name == fact_fields()[j].name);
        assert(table[k].name == fact_fields()[k].name);
        lemma_fact_names(j, k);
    }
    lemma_fact_table(schedule::event_views(events));
    lemma_fact_positions(table);
    assert forall|k: int| 0 <= k < table.len() implies (#[trigger] table[k]).name
        != "service_date"@ by {
        lemma_no_service_date(k);
        assert(table[k].name == fact_fields()[k].name);
    }
}

proof fn lemma_no_service_date(k: int)
    requires
        0 <= k < fact_fields().len(),
    ensures
        fact_fields()[k].name != "service_date"@,
{
    reveal_strlit("service_date");
    reveal_strlit("event_id");
    reveal_strlit("agency_id");
    reveal_strlit("route_id");
    reveal_strlit("route_key");
    reveal_strlit("trip_id");
    reveal_strlit("stop_id");
    reveal_strlit("stop_key");
    reveal_strlit("stop_sequence");
    reveal_strlit("direction_id");
    reveal_strlit("scheduled_arrival");
    reveal_strlit("scheduled_departure");
    reveal_strlit("dwell_seconds");
    reveal_strlit("crosses_midnight");
    reveal_strlit("actual_arrival");
    reveal_strlit("delay_seconds");
    reveal_strlit("headway_seconds");
    reveal_strlit("is_cancelled");
    reveal_strlit("vehicle_id");
    assert("service_date"@.len() == 12 && "service_date"@[0] == 's');
    assert("event_id"@.len() == 8 && "event_id"@[0] == 'e');
    assert("agency_id"@.len() == 9 && "agency_id"@[0] == 'a');
    assert("route_id"@.len() == 8 && "route_id"@[0] == 'r');
    assert("route_key"@.len() == 9 && "route_key"@[0] == 'r');
    assert("trip_id"@.len() == 7 && "trip_id"@[0] == 't');
    assert("stop_id"@.len() == 7 && "stop_id"@[0] == 's');
    assert("stop_key"@.len() == 8 && "stop_key"@[0] == 's');
    assert("stop_sequence"@.len() == 13 && "stop_sequence"@[0] == 's');
    assert("direction_id"@.len() == 12 && "direction_id"@[0] == 'd');
    assert("scheduled_arrival"@.len() == 17 && "scheduled_arrival"@[0] == 's');
    assert("scheduled_departure"@.len() == 19 && "scheduled_departure"@[0] == 's');
    assert("dwell_seconds"@.len() == 13 && "dwell_seconds"@[0] == 'd');
    assert("crosses_midnight"@.len() == 16 && "crosses_midnight"@[0] == 'c');
    assert("actual_arrival"@.len() == 14 && "actual_arrival"@[0] == 'a');
    assert("delay_seconds"@.len() == 13 && "delay_seconds"@[0] == 'd');
    assert("headway_seconds"@.len() == 15 && "headway_seconds"@[0] == 'h');
    assert("is_cancelled"@.len() == 12 && "is_cancelled"@[0] == 'i');
    assert("vehicle_id"@.len() == 10 && "vehicle_id"@[0] == 'v');
}

proof fn lemma_fact_positions(table: Seq<ColumnView>)
    requires
        columns::fields_of(table) == fact_fields(),
    ensures
        table[0].name == "event_id"@,
        table[1].name == "agency_id"@,
        table[2].name == "route_id"@,
        table[3].name == "route_key"@,
        table[4].name == "trip_id"@,
        table[5].name == "stop_id"@,
        table[6].name == "stop_key"@,
        table[7].name == "stop_sequence"@,
        table[8].name == "direction_id"@,
        table[9].name == "scheduled_arrival"@,
        table[10].name == "scheduled_departure"@,
        table[11].name == "dwell_seconds"@,
        table[12].name == "crosses_midnight"@,
        table[13].name == "actual_arrival"@,
        table[14].name == "delay_seconds"@,
        table[15].name == "headway_seconds"@,
        table[16].name == "is_cancelled"@,
        table[17].name == "vehicle_id"@,
        forall|k: int|
            0 <= k < table.len() ==> ((#[trigger] table[k]).nullable <==> k == 8 || k >= 13),
        table.len() == 18,
{
    let fields = fact_fields();
    assert(table.len() == columns::fields_of(table).len());
    assert forall|k: int| 0 <= k < table.len() implies (#[trigger] table[k]).name == fields[k].name
        && table[k].nullable == fields[k].nullable by {
        assert(columns::fields_of(table)[k] == table[k].field());
    }
}

/// Every row of the fact table says of its event what the event says: under
/// each name the field of that name, the instants in microseconds. The columns
/// that only realtime data can fill are null.
pub proof fn law_fact_rows_tell_their_events(events: Seq<ScheduledEvent>, i: int)
    requires
        0 <= i < events.len(),
        instants_in_range(events[i]),
    ensures
        ({
            let table = fact_columns(schedule::event_views(events));
            let event = events[i];
            &&& table[0].cells matches CellsView::Text(v) && v.len() == events.len() && v[i] == Some(
                event.event_id@,
            )
            &&& table[1].cells matches CellsView::Text(v) && v.len() == events.len() && v[i] == Some(
                event.agency_id@,
            )
            &&& table[2].cells matches CellsView::Text(v) && v.len() == events.len() && v[i] == Some(
                event.route_id@,
            )
            &&& table[3].cells matches CellsView::Text(v) && v.len() == events.len() && v[i] == Some(
                event.route_key@,
            )
            &&& table[4].cells matches CellsView::Text(v) && v.len() == events.len() && v[i] == Some(
                event.trip_id@,
            )
            &&& table[5].cells matches CellsView::Text(v) && v.len() == events.len() && v[i] == Some(
                event.stop_id@,
            )
            &&& table[6].cells matches CellsView::Text(v) && v.len() == events.len() && v[i] == Some(
                event.stop_key@,
            )
            &&& table[7].cells matches CellsView::Int32(v) && v.len() == events.len() && v[i] == Some(
                event.stop_sequence as i32,
            )
            &&& table[8].cells matches CellsView::Int32(v) && v.len() == events.len() && v[i]
                == event.direction_id
            &&& table[9].cells matches CellsView::Micros(v) && v.len() == events.len() && (
            v[i] matches Some(at) && at == event.scheduled_arrival@ * 1_000_000)
            &&& table[10].cells matches CellsView::Micros(v) && v.len() == events.len() && (
            v[i] matches Some(at) && at == event.scheduled_departure@ * 1_000_000)
            &&& table[11].cells matches CellsView::Int32(v) && v.len() == events.len() && v[i] == Some(
                event.dwell_seconds,
            )
            &&& table[12].cells matches CellsView::Flag(v) && v.len() == events.len() && v[i] == Some(
                event.crosses_midnight,
            )
            &&& table[13].cells matches CellsView::Micros(v) && v.len() == events.len() && v[i] is None
            &&& table[14].cells matches CellsView::Int32(v) && v.len() == events.len() && v[i] is None
            &&& table[15].cells matches CellsView::Int32(v) && v.len() == events.len() && v[i] is None
            &&& table[16].cells matches CellsView::Flag(v) && v.len() == events.len() && v[i] is None
            &&& table[17].cells matches CellsView::Text(v) && v.len() == events.len() && v[i] is None
        }),
{
    let views = schedule::event_views(events);
    let table = fact_columns(views);
    let cells = fact_cells(views);
    assert(views[i] == events[i]@);
    assert forall|k: int| 0 <= k < table.len() implies (#[trigger] table[k]).cells == cells[k] by {}
}

/// Wherever an event departs as many seconds after it arrives as its dwell says,
/// the two instants of its row differ by the dwell of the same row.
pub proof fn law_fact_instants_differ_by_the_dwell(events: Seq<ScheduledEvent>, i: int)
    requires
        0 <= i < events.len(),
        instants_in_range(events[i]),
        events[i].scheduled_departure@ - events[i].scheduled_arrival@ == events[i].dwell_seconds,
    ensures
        ({
            let table = fact_columns(schedule::event_views(events));
            table[10].cells->Micros_0[i]->0 - table[9].cells->Micros_0[i]->0
                == table[11].cells->Int32_0[i]->0 * 1_000_000
        }),
{
    law_fact_rows_tell_their_events(events, i);
}

/// The fact table determines its events: two lists of events with equal columns
/// have equally many rows, and row by row the same event but for the service
/// date, which is in the path.
pub proof fn law_fact_table_determines_its_events(
    events: Seq<ScheduledEvent>,
    others: Seq<ScheduledEvent>,
    i: int,
)
    requires
        fact_columns(schedule::event_views(events)) == fact_columns(schedule::event_views(others)),
        0 <= i < events.len(),
        i < others.len() ==> instants_in_range(others[i]),
        instants_in_range(events[i]),
    ensures
        events.len() == others.len(),
        events[i].event_id@ == others[i].event_id@,
        events[i].agency_id@ == others[i].agency_id@,
        events[i].route_id@ == others[i].route_id@,
        events[i].route_key@ == others[i].route_key@,
        events[i].trip_id@ == others[i].trip_id@,
        events[i].stop_id@ == others[i].stop_id@,
        events[i].stop_key@ == others[i].stop_key@,
        events[i].stop_sequence == others[i].stop_sequence,
        events[i].direction_id == others[i].direction_id,
        events[i].scheduled_arrival@ == others[i].scheduled_arrival@,
        events[i].scheduled_departure@ == others[i].scheduled_departure@,
        events[i].dwell_seconds == others[i].dwell_seconds,
        events[i].crosses_midnight == others[i].crosses_midnight,
{
    let table = fact_columns(schedule::event_views(events));
    law_fact_rows_tell_their_events(events, i);
    lemma_fact_table(schedule::event_views(events));
    lemma_fact_table(schedule::event_views(others));
    assert(table[0].cells.len() == events.len());
    assert(table[0].cells.len() == others.len());
    law_fact_rows_tell_their_events(others, i);
    let a = events[i].stop_sequence;
    let b = others[i].stop_sequence;
    assert(a as i32 == b as i32 ==> a == b) by (bit_vector);
}

} // verus!
