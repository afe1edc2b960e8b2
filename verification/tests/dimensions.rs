use arrow::array::{Array, BooleanArray, Float64Array, RecordBatch, StringArray};
use arrow::datatypes::{DataType, Schema, TimeUnit};
use parquet::arrow::arrow_reader::ParquetRecordBatchReaderBuilder;

use transit_ingest::config::{Agency, Quirks};
use transit_ingest::dataset::columns::{Cells, Field, Kind};
use transit_ingest::dataset::dimensions::{
    routes_batch, routes_schema, routes_table, stops_batch, stops_schema, stops_table, UNKNOWN,
};
use transit_ingest::dataset::facts::encode_batch;
use transit_ingest::gtfs::{AgencyRow, CalendarDateRow, RouteRow, StaticFeed, StopRow};

fn agency(id: &str, mode: &str) -> Agency {
    Agency {
        id: id.to_string(),
        name: id.to_string(),
        mode: mode.to_string(),
        timezone: "America/New_York".to_string(),
        static_url: "http://example.com/gtfs.zip".to_string(),
        realtime: Vec::new(),
        quirks: Quirks::default(),
    }
}

fn subway() -> Agency {
    agency("MTA_NYCT", "subway")
}

fn lirr() -> Agency {
    agency("MTA_LIRR", "rail")
}

fn routes(feed: &StaticFeed, agency: &Agency) -> RecordBatch {
    let batch = routes_batch(feed, agency).ok().unwrap();
    read_back(encode_batch("routes.parquet", &batch).unwrap())
}

fn stops(feed: &StaticFeed, agency: &Agency) -> RecordBatch {
    let batch = stops_batch(feed, agency).ok().unwrap();
    read_back(encode_batch("stops.parquet", &batch).unwrap())
}

fn feed(routes: Vec<RouteRow>, stops: Vec<StopRow>) -> StaticFeed {
    StaticFeed {
        agency_id: "TEST".to_string(),
        agencies: vec![AgencyRow {
            agency_id: Some("A".to_string()),
            agency_name: "Test".to_string(),
            agency_timezone: "America/New_York".to_string(),
        }],
        routes,
        stops,
        trips: Vec::new(),
        stop_times: Vec::new(),
        calendar: Vec::new(),
        calendar_dates: vec![CalendarDateRow {
            service_id: "SVC".to_string(),
            date: "20260401".to_string(),
            exception_type: 1,
        }],
    }
}

fn route(id: &str, short: Option<&str>, long: Option<&str>) -> RouteRow {
    RouteRow {
        route_id: id.to_string(),
        agency_id: Some("A".to_string()),
        route_short_name: short.map(str::to_string),
        route_long_name: long.map(str::to_string),
        route_type: 1,
        route_color: Some("EE352E".to_string()),
    }
}

fn stop(id: &str, location_type: Option<i32>, parent: Option<&str>) -> StopRow {
    StopRow {
        stop_id: id.to_string(),
        stop_name: Some(format!("Stop {id}")),
        stop_lat: Some(40.7f64.to_bits()),
        stop_lon: Some((-73.9f64).to_bits()),
        location_type,
        parent_station: parent.map(str::to_string),
    }
}

fn strings<'a>(batch: &'a RecordBatch, column: &str) -> &'a StringArray {
    batch
        .column(batch.schema().index_of(column).unwrap())
        .as_any()
        .downcast_ref::<StringArray>()
        .unwrap()
}

/// The columns of a Parquet file, concatenated: the reader yields batches of its
/// own choosing, and none at all for an empty file.
fn read_back(bytes: Vec<u8>) -> RecordBatch {
    let builder = ParquetRecordBatchReaderBuilder::try_new(bytes::Bytes::from(bytes)).unwrap();
    let read_schema = builder.schema().clone();
    let batches: Vec<RecordBatch> = builder.build().unwrap().collect::<Result<_, _>>().unwrap();
    arrow::compute::concat_batches(&read_schema, &batches).unwrap()
}

/// A schema as Arrow has it.
fn arrow_schema(fields: Vec<Field>) -> Schema {
    let fields: Vec<arrow::datatypes::Field> = fields
        .into_iter()
        .map(|field| {
            let kind = match field.kind {
                Kind::Text => DataType::Utf8,
                Kind::Int32 => DataType::Int32,
                Kind::Micros => DataType::Timestamp(TimeUnit::Microsecond, Some("UTC".into())),
                Kind::Flag => DataType::Boolean,
                Kind::Double => DataType::Float64,
            };
            arrow::datatypes::Field::new(field.name, kind, field.nullable)
        })
        .collect();
    Schema::new(fields)
}

#[test]
fn routes_carry_the_namespaced_key_and_the_agency_mode() {
    let feed = feed(vec![route("1", Some("1"), Some("Broadway"))], Vec::new());
    let batch = routes(&feed, &subway());

    assert_eq!(strings(&batch, "route_key").value(0), "MTA_NYCT:1");
    assert_eq!(strings(&batch, "route_id").value(0), "1");
    assert_eq!(strings(&batch, "mode").value(0), "subway");
}

#[test]
fn the_same_route_id_yields_distinct_keys_per_agency() {
    // Route 1 is a Broadway local and a Babylon branch train. Nothing but
    // the key keeps them apart.
    let feed = feed(vec![route("1", Some("1"), None)], Vec::new());

    let subway_batch = routes(&feed, &subway());
    let lirr_batch = routes(&feed, &lirr());

    assert_ne!(
        strings(&subway_batch, "route_key").value(0),
        strings(&lirr_batch, "route_key").value(0)
    );
}

#[test]
fn display_name_is_never_null() {
    // Three feeds name routes three ways, and a null breaks the level.
    let feed = feed(
        vec![
            route("1", Some("1"), Some("Broadway")),
            route("2", None, Some("Babylon")),
            route("3", None, None),
        ],
        Vec::new(),
    );
    let batch = routes(&feed, &subway());

    let names = strings(&batch, "display_name");
    assert_eq!(names.null_count(), 0);
    assert_eq!(names.value(0), "1");
    assert_eq!(names.value(1), "Babylon");
    assert_eq!(names.value(2), "3", "falls back to the id");
}

#[test]
fn an_empty_name_column_reads_as_absent_not_blank() {
    // Producers write an empty field rather than omitting it. A blank label
    // in a hierarchy is worse than an honest null.
    let feed = feed(vec![route("1", Some(""), Some("Broadway"))], Vec::new());
    let batch = routes(&feed, &subway());

    assert_eq!(strings(&batch, "route_short_name").null_count(), 1);
    assert_eq!(strings(&batch, "display_name").value(0), "Broadway");
}

#[test]
fn a_platform_points_at_its_parent_station() {
    let feed = feed(
        Vec::new(),
        vec![
            stop("101", Some(1), None),
            stop("101N", Some(0), Some("101")),
        ],
    );
    let batch = stops(&feed, &subway());

    assert_eq!(
        strings(&batch, "parent_station_key").value(1),
        "MTA_NYCT:101"
    );
    assert_eq!(strings(&batch, "station_key").value(1), "MTA_NYCT:101");
}

#[test]
fn a_flat_agencys_stop_is_its_own_station() {
    // LIRR and Metro-North have no parent_station at all. Leaving
    // station_key null there would break the geography level for the
    // Subway too, since a hierarchy is defined once across all agencies.
    let feed = feed(Vec::new(), vec![stop("102", None, None)]);
    let batch = stops(&feed, &lirr());

    let stations = strings(&batch, "station_key");
    assert_eq!(stations.null_count(), 0);
    assert_eq!(stations.value(0), "MTA_LIRR:102");
    assert_eq!(
        strings(&batch, "parent_station_key").null_count(),
        1,
        "the raw GTFS link stays honestly absent"
    );
}

#[test]
fn an_empty_parent_station_is_treated_as_no_parent() {
    let feed = feed(Vec::new(), vec![stop("102", None, Some(""))]);
    let batch = stops(&feed, &lirr());

    assert_eq!(strings(&batch, "parent_station_key").null_count(), 1);
    assert_eq!(strings(&batch, "station_key").value(0), "MTA_LIRR:102");
}

#[test]
fn stations_are_distinguished_from_platforms() {
    let feed = feed(
        Vec::new(),
        vec![
            stop("101", Some(1), None),
            stop("101N", Some(0), Some("101")),
        ],
    );
    let batch = stops(&feed, &subway());

    let is_station = batch
        .column(batch.schema().index_of("is_station").unwrap())
        .as_any()
        .downcast_ref::<BooleanArray>()
        .unwrap();
    assert!(is_station.value(0));
    assert!(!is_station.value(1));
}

#[test]
fn missing_coordinates_stay_null_rather_than_becoming_the_atlantic() {
    let mut feed = feed(Vec::new(), vec![stop("102", None, None)]);
    feed.stops[0].stop_lat = None;
    feed.stops[0].stop_lon = None;
    let batch = stops(&feed, &lirr());

    for column in ["stop_lat", "stop_lon"] {
        let index = batch.schema().index_of(column).unwrap();
        assert_eq!(batch.column(index).null_count(), 1, "{column}");
    }
}

#[test]
fn geography_levels_are_unknown_rather_than_null() {
    // Derived from boundary geometry later. Until then a selectable
    // "Unknown" beats a hole in the hierarchy.
    let feed = feed(Vec::new(), vec![stop("102", None, None)]);
    let batch = stops(&feed, &lirr());

    for column in ["borough", "municipality"] {
        assert_eq!(strings(&batch, column).null_count(), 0, "{column}");
        assert_eq!(strings(&batch, column).value(0), UNKNOWN);
    }
}

#[test]
fn an_empty_feed_yields_empty_batches_with_the_right_shape() {
    let feed = feed(Vec::new(), Vec::new());

    let routes = routes(&feed, &subway());
    assert_eq!(routes.num_rows(), 0);
    assert_eq!(*routes.schema(), arrow_schema(routes_schema()));

    let stops = stops(&feed, &subway());
    assert_eq!(stops.num_rows(), 0);
    assert_eq!(*stops.schema(), arrow_schema(stops_schema()));
}


#[test]
fn coordinates_are_carried_through() {
    let feed = feed(Vec::new(), vec![stop("102", None, None)]);
    let batch = stops(&feed, &lirr());
    for (column, value) in [("stop_lat", 40.7), ("stop_lon", -73.9)] {
        let array = batch.column(batch.schema().index_of(column).unwrap()).clone();
        assert_eq!(array.as_any().downcast_ref::<Float64Array>().unwrap().value(0), value);
    }
}

#[test]
fn tables_have_the_columns_of_their_schemas() {
    let feed = feed(
        vec![route("1", Some("1"), None)],
        vec![stop("101N", Some(0), Some("101"))],
    );
    for (columns, fields) in [
        (routes_table(&feed.routes, &subway()), routes_schema()),
        (stops_table(&feed.stops, &subway()), stops_schema()),
    ] {
        let names: Vec<&str> = columns.iter().map(|c| c.name.as_str()).collect();
        let expected: Vec<&str> = fields.iter().map(|f| f.name.as_str()).collect();
        assert_eq!(names, expected);
    }
}

#[test]
fn a_stop_without_a_name_has_none() {
    let mut unnamed = stop("102", None, None);
    unnamed.stop_name = None;
    let mut blank = stop("103", None, None);
    blank.stop_name = Some(String::new());
    let columns = stops_table(&vec![unnamed, blank], &lirr());
    let names = &columns.iter().find(|c| c.name == "stop_name").unwrap().cells;
    assert_eq!(*names, Cells::Text(vec![None, None]));
}
