use arrow::array::{
    Array, BooleanArray, Float64Array, Int32Array, RecordBatch, StringArray,
    TimestampMicrosecondArray,
};
use arrow::datatypes::{DataType, Schema, TimeUnit};
use chrono::{DateTime, Datelike, NaiveDate, Utc};
use parquet::arrow::arrow_reader::ParquetRecordBatchReaderBuilder;

use transit_ingest::dataset::columns::{self, Batch, Cells, Column, Field, Kind};
use transit_ingest::dataset::facts::{
    encode_batch, encode_events, encoded, schema, table, to_record_batch,
};
use transit_ingest::date::Date;
use transit_ingest::error::Error;
use transit_ingest::schedule::ScheduledEvent;
use transit_ingest::zone::UtcInstant;

fn date(y: i32, m: u32, d: u32) -> Date {
    Date::from_day(NaiveDate::from_ymd_opt(y, m, d).unwrap().num_days_from_ce()).unwrap()
}

fn instant(text: &str) -> UtcInstant {
    UtcInstant::from_seconds(text.parse::<DateTime<Utc>>().unwrap().timestamp()).unwrap()
}

fn event(sequence: u32) -> ScheduledEvent {
    ScheduledEvent {
        event_id: format!("id{sequence}"),
        service_date: date(2026, 4, 1),
        agency_id: "MTA_NYCT".to_string(),
        route_id: "1".to_string(),
        route_key: "MTA_NYCT:1".to_string(),
        trip_id: "T1".to_string(),
        stop_id: "101N".to_string(),
        stop_key: "MTA_NYCT:101N".to_string(),
        stop_sequence: sequence,
        direction_id: Some(0),
        scheduled_arrival: instant("2026-04-01T10:00:00Z"),
        scheduled_departure: instant("2026-04-01T10:00:30Z"),
        dwell_seconds: 30,
        crosses_midnight: false,
    }
}

/// The events as they are read back from a file of them.
fn round_trip(events: &[ScheduledEvent]) -> RecordBatch {
    let batch = read_back(encode_events("part.parquet", events).unwrap());

    // The schema read back must be the schema written; otherwise the cube
    // is reading something other than what this module claims to produce.
    assert_eq!(*batch.schema(), arrow_schema(schema()));
    batch
}

/// The columns of a Parquet file, concatenated: the reader yields batches of its
/// own choosing, and none at all for an empty file.
fn read_back(bytes: Vec<u8>) -> RecordBatch {
    let builder = ParquetRecordBatchReaderBuilder::try_new(bytes::Bytes::from(bytes)).unwrap();
    let read_schema = builder.schema().clone();
    let batches: Vec<RecordBatch> = builder.build().unwrap().collect::<Result<_, _>>().unwrap();
    arrow::compute::concat_batches(&read_schema, &batches).unwrap()
}

/// A schema as Arrow has it.
fn arrow_schema(fields: Vec<Field>) -> Schema {
    let fields: Vec<arrow::datatypes::Field> = fields
        .into_iter()
        .map(|field| {
            let kind = match field.kind {
                Kind::Text => DataType::Utf8,
                Kind::Int32 => DataType::Int32,
                Kind::Micros => DataType::Timestamp(TimeUnit::Microsecond, Some("UTC".into())),
                Kind::Flag => DataType::Boolean,
                Kind::Double => DataType::Float64,
            };
            arrow::datatypes::Field::new(field.name, kind, field.nullable)
        })
        .collect();
    Schema::new(fields)
}

#[test]
fn the_schema_matches_the_documented_fact_table() {
    let schema = schema();
    let names: Vec<&str> = schema.iter().map(|f| f.name.as_str()).collect();

    assert_eq!(
        names,
        [
            "event_id",
            "agency_id",
            "route_id",
            "route_key",
            "trip_id",
            "stop_id",
            "stop_key",
            "stop_sequence",
            "direction_id",
            "scheduled_arrival",
            "scheduled_departure",
            "dwell_seconds",
            "crosses_midnight",
            "actual_arrival",
            "delay_seconds",
            "headway_seconds",
            "is_cancelled",
            "vehicle_id",
        ]
    );
}

#[test]
fn realtime_columns_are_present_and_null() {
    // Realtime data can arrive without the cube's schema changing.
    let built = to_record_batch(&[event(1), event(2)]).ok().unwrap();
    let batch = read_back(encode_batch("part.parquet", &built).unwrap());

    for column in [
        "actual_arrival",
        "delay_seconds",
        "headway_seconds",
        "is_cancelled",
        "vehicle_id",
    ] {
        let index = batch.schema().index_of(column).unwrap();
        let array = batch.column(index);
        assert_eq!(array.len(), 2, "{column} must have a value per row");
        assert_eq!(array.null_count(), 2, "{column} must be entirely null");
    }
}

#[test]
fn keys_and_measures_survive_a_parquet_round_trip() {
    let batch = round_trip(&[event(1)]);

    let keys = batch
        .column(batch.schema().index_of("stop_key").unwrap())
        .as_any()
        .downcast_ref::<StringArray>()
        .unwrap();
    assert_eq!(keys.value(0), "MTA_NYCT:101N");

    let dwell = batch
        .column(batch.schema().index_of("dwell_seconds").unwrap())
        .as_any()
        .downcast_ref::<Int32Array>()
        .unwrap();
    assert_eq!(dwell.value(0), 30);
}

#[test]
fn timestamps_round_trip_as_utc_microseconds() {
    // A naive timestamp here would invite a second timezone conversion
    // downstream, on data that has already been resolved once.
    let batch = round_trip(&[event(1)]);
    let index = batch.schema().index_of("scheduled_arrival").unwrap();

    assert_eq!(
        batch.schema().field(index).data_type(),
        &DataType::Timestamp(TimeUnit::Microsecond, Some("UTC".into()))
    );

    let arrivals = batch
        .column(index)
        .as_any()
        .downcast_ref::<TimestampMicrosecondArray>()
        .unwrap();
    assert_eq!(
        arrivals.value(0),
        "2026-04-01T10:00:00Z".parse::<DateTime<Utc>>().unwrap().timestamp_micros()
    );
}

#[test]
fn service_date_is_not_a_column() {
    // It is the partition key and lives in the directory name. Writing it
    // in both places makes every partition-aware reader fail on the whole
    // dataset with a date32-versus-string type conflict.
    let batch = round_trip(&[event(1)]);

    assert!(
        batch.schema().index_of("service_date").is_err(),
        "service_date must come from the partition path, not the file"
    );
}

#[test]
fn an_absent_direction_stays_null_rather_than_becoming_zero() {
    // 0 is a real direction. Defaulting to it would invent a fact.
    let mut event = event(1);
    event.direction_id = None;
    let batch = round_trip(&[event]);

    let index = batch.schema().index_of("direction_id").unwrap();
    assert_eq!(batch.column(index).null_count(), 1);
}

#[test]
fn an_empty_date_writes_a_readable_file_with_no_rows() {
    // A service date with nothing scheduled is a real state -- a holiday on
    // a weekday-only feed. It must not produce an unreadable file.
    let batch = round_trip(&[]);
    assert_eq!(batch.num_rows(), 0);
    assert_eq!(batch.num_columns(), schema().len());
}


#[test]
fn a_row_count_survives_many_rows() {
    let events: Vec<_> = (1..=5_000).map(event).collect();
    let batch = round_trip(&events);
    assert_eq!(batch.num_rows(), 5_000);
}


#[test]
fn every_column_survives_a_parquet_round_trip() {
    let mut late = event(7);
    late.direction_id = None;
    late.crosses_midnight = true;
    let batch = round_trip(&[event(1), late]);

    let text = |column: &str| -> Vec<String> {
        let array = batch.column(batch.schema().index_of(column).unwrap()).clone();
        let array = array.as_any().downcast_ref::<StringArray>().unwrap().clone();
        array.iter().map(|cell| cell.unwrap().to_string()).collect()
    };
    assert_eq!(text("event_id"), ["id1", "id7"]);
    assert_eq!(text("agency_id"), ["MTA_NYCT", "MTA_NYCT"]);
    assert_eq!(text("route_id"), ["1", "1"]);
    assert_eq!(text("route_key"), ["MTA_NYCT:1", "MTA_NYCT:1"]);
    assert_eq!(text("trip_id"), ["T1", "T1"]);
    assert_eq!(text("stop_id"), ["101N", "101N"]);
    let ints = |column: &str| -> Vec<Option<i32>> {
        let array = batch.column(batch.schema().index_of(column).unwrap()).clone();
        array.as_any().downcast_ref::<Int32Array>().unwrap().iter().collect()
    };
    assert_eq!(ints("stop_sequence"), [Some(1), Some(7)]);
    assert_eq!(ints("direction_id"), [Some(0), None]);
    let flags = batch.column(batch.schema().index_of("crosses_midnight").unwrap()).clone();
    let flags: Vec<Option<bool>> =
        flags.as_any().downcast_ref::<BooleanArray>().unwrap().iter().collect();
    assert_eq!(flags, [Some(false), Some(true)]);
}

#[test]
fn batches_hold_their_columns() {
    let column = |name: &str, cells| Column { name: name.to_string(), nullable: true, cells };
    let values = [Some(40.7f64), None, Some(-0.0), Some(f64::NAN)];
    let built = Batch::from_columns(
        vec![
            column("text", Cells::Text(vec![Some("a".to_string()), None, Some(String::new()), None])),
            column("number", Cells::Int32(vec![Some(-1), None, Some(i32::MAX), Some(0)])),
            column("instant", Cells::Micros(vec![Some(-1), None, Some(i64::MAX), Some(0)])),
            column("flag", Cells::Flag(vec![Some(true), None, Some(false), None])),
            column("double", Cells::Double(values.map(|v| v.map(f64::to_bits)).to_vec())),
        ],
        4,
    );
    let batch = read_back(encode_batch("p", &built).unwrap());
    assert_eq!(batch.num_rows(), 4);
    let texts = batch.column(0).as_any().downcast_ref::<StringArray>().unwrap();
    assert_eq!(texts.iter().collect::<Vec<_>>(), [Some("a"), None, Some(""), None]);
    let numbers = batch.column(1).as_any().downcast_ref::<Int32Array>().unwrap();
    assert_eq!(numbers.iter().collect::<Vec<_>>(), [Some(-1), None, Some(i32::MAX), Some(0)]);
    let instants = batch.column(2).as_any().downcast_ref::<TimestampMicrosecondArray>().unwrap();
    assert_eq!(instants.iter().collect::<Vec<_>>(), [Some(-1), None, Some(i64::MAX), Some(0)]);
    let flags = batch.column(3).as_any().downcast_ref::<BooleanArray>().unwrap();
    assert_eq!(flags.iter().collect::<Vec<_>>(), [Some(true), None, Some(false), None]);
    let doubles = batch.column(4).as_any().downcast_ref::<Float64Array>().unwrap();
    let bits: Vec<Option<u64>> = doubles.iter().map(|cell| cell.map(f64::to_bits)).collect();
    assert_eq!(bits, values.map(|v| v.map(f64::to_bits)));
}

#[test]
fn a_table_has_the_columns_of_its_schema() {
    let columns = table(&[event(1)]);
    let fields = schema();
    assert_eq!(columns.len(), fields.len());
    for (column, field) in columns.iter().zip(&fields) {
        assert_eq!(column.name, field.name);
        assert_eq!(column.nullable, field.nullable);
    }
    assert!(columns::fits(&columns));
    assert_eq!(columns[7].cells, Cells::Int32(vec![Some(1)]));
    assert_eq!(columns[14].cells, Cells::Int32(vec![None]));
}

#[test]
fn a_stop_sequence_past_the_column_type_wraps() {
    let mut event = event(1);
    event.stop_sequence = u32::MAX;
    assert_eq!(table(&[event])[7].cells, Cells::Int32(vec![Some(-1)]));
}

#[test]
fn an_encoding_that_fails_names_its_file() {
    assert_eq!(encoded("p", Some(vec![1])).unwrap(), [1]);
    let err = encoded("a/b.parquet", None).unwrap_err();
    assert_eq!(err, Error::Parquet { path: "a/b.parquet".to_string() });
    assert_eq!(err.message(), "could not encode parquet for a/b.parquet");
}

#[test]
fn encoding_is_deterministic() {
    let events = [event(1), event(2)];
    assert_eq!(encode_events("p", &events).unwrap(), encode_events("q", &events).unwrap());
}
