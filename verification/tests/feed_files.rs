use std::io::{Cursor, Write};

use zip::write::SimpleFileOptions;

use transit_ingest::config::{Agency, Quirks};
use transit_ingest::error::{Error, FeedError};
use transit_ingest::gtfs::archive::{bad_row, find_entry, without_mark, Archive};
use transit_ingest::gtfs::records::non_empty;
use transit_ingest::gtfs::{
    AgencyRow, CalendarDateRow, CalendarRow, RouteRow, StaticFeed, StopRow, StopTimeRow, TripRow,
};

fn write_zip(entries: &[(&str, &str)]) -> Vec<u8> {
    let mut buffer = Vec::new();
    {
        let mut writer = zip::ZipWriter::new(Cursor::new(&mut buffer));
        for (name, body) in entries {
            writer.start_file(*name, SimpleFileOptions::default()).unwrap();
            writer.write_all(body.as_bytes()).unwrap();
        }
        writer.finish().unwrap();
    }
    buffer
}

const MINIMAL: &[(&str, &str)] = &[
    (
        "agency.txt",
        "agency_id,agency_name,agency_timezone\nA,Test,America/New_York\n",
    ),
    ("routes.txt", "route_id,route_type\nR1,2\n"),
    ("stops.txt", "stop_id,stop_name\nS1,First\n"),
    (
        "trips.txt",
        "trip_id,route_id,service_id\nT1,R1,SVC\n",
    ),
    (
        "stop_times.txt",
        "trip_id,stop_id,arrival_time,departure_time,stop_sequence\nT1,S1,06:00:00,06:00:00,1\n",
    ),
    ("calendar_dates.txt", "service_id,date,exception_type\nSVC,20260401,1\n"),
];

fn agency() -> Agency {
    Agency {
        id: "MTA_NYCT".to_string(),
        name: "New York City Transit".to_string(),
        mode: "subway".to_string(),
        timezone: "America/New_York".to_string(),
        static_url: "http://example.com/gtfs.zip".to_string(),
        realtime: Vec::new(),
        quirks: Quirks::default(),
    }
}

/// One record of a file, by column name.
struct Record {
    headers: csv::StringRecord,
    cells: csv::StringRecord,
    file: &'static str,
    row: u64,
}

impl Record {
    fn cell(&self, column: &str) -> Option<&str> {
        let index = self.headers.iter().position(|h| h == column)?;
        self.cells.get(index)
    }

    fn required(&self, column: &str) -> Result<String, FeedError> {
        match self.cell(column) {
            Some(cell) => Ok(cell.to_string()),
            None => Err(bad_row(self.file, self.row)),
        }
    }

    fn optional(&self, column: &str) -> Option<String> {
        self.cell(column).filter(|cell| !cell.is_empty()).map(str::to_string)
    }

    fn number<T: std::str::FromStr>(&self, column: &str) -> Result<T, FeedError> {
        self.required(column)?.parse().map_err(|_| bad_row(self.file, self.row))
    }

    fn optional_number<T: std::str::FromStr>(&self, column: &str) -> Result<Option<T>, FeedError> {
        match self.optional(column) {
            Some(cell) => cell.parse().map(Some).map_err(|_| bad_row(self.file, self.row)),
            None => Ok(None),
        }
    }
}

fn parse_csv<T>(
    bytes: &[u8],
    file: &'static str,
    row: fn(&Record) -> Result<T, FeedError>,
) -> Result<Vec<T>, FeedError> {
    let mut reader = csv::ReaderBuilder::new().flexible(true).from_reader(without_mark(bytes));
    let headers = reader.headers().unwrap().clone();
    let mut rows = Vec::new();
    for (index, cells) in reader.records().enumerate() {
        let record = Record { headers: headers.clone(), cells: cells.unwrap(), file, row: index as u64 };
        rows.push(row(&record)?);
    }
    Ok(rows)
}

fn agency_row(r: &Record) -> Result<AgencyRow, FeedError> {
    Ok(AgencyRow {
        agency_id: r.optional("agency_id"),
        agency_name: r.required("agency_name")?,
        agency_timezone: r.required("agency_timezone")?,
    })
}

fn route_row(r: &Record) -> Result<RouteRow, FeedError> {
    Ok(RouteRow {
        route_id: r.required("route_id")?,
        agency_id: r.optional("agency_id"),
        route_short_name: r.optional("route_short_name"),
        route_long_name: r.optional("route_long_name"),
        route_type: r.number("route_type")?,
        route_color: r.optional("route_color"),
    })
}

fn stop_row(r: &Record) -> Result<StopRow, FeedError> {
    Ok(StopRow {
        stop_id: r.required("stop_id")?,
        stop_name: r.optional("stop_name"),
        stop_lat: r.optional_number::<f64>("stop_lat")?.map(f64::to_bits),
        stop_lon: r.optional_number::<f64>("stop_lon")?.map(f64::to_bits),
        location_type: r.optional_number("location_type")?,
        parent_station: r.optional("parent_station"),
    })
}

fn trip_row(r: &Record) -> Result<TripRow, FeedError> {
    Ok(TripRow {
        trip_id: r.required("trip_id")?,
        route_id: r.required("route_id")?,
        service_id: r.required("service_id")?,
        trip_headsign: r.optional("trip_headsign"),
        direction_id: r.optional_number("direction_id")?,
    })
}

fn stop_time_row(r: &Record) -> Result<StopTimeRow, FeedError> {
    Ok(StopTimeRow {
        trip_id: r.required("trip_id")?,
        stop_id: r.required("stop_id")?,
        arrival_time: r.cell("arrival_time").unwrap_or("").to_string(),
        departure_time: r.cell("departure_time").unwrap_or("").to_string(),
        stop_sequence: r.number("stop_sequence")?,
    })
}

fn calendar_row(r: &Record) -> Result<CalendarRow, FeedError> {
    Ok(CalendarRow {
        service_id: r.required("service_id")?,
        monday: r.number("monday")?,
        tuesday: r.number("tuesday")?,
        wednesday: r.number("wednesday")?,
        thursday: r.number("thursday")?,
        friday: r.number("friday")?,
        saturday: r.number("saturday")?,
        sunday: r.number("sunday")?,
        start_date: r.required("start_date")?,
        end_date: r.required("end_date")?,
    })
}

fn calendar_date_row(r: &Record) -> Result<CalendarDateRow, FeedError> {
    Ok(CalendarDateRow {
        service_id: r.required("service_id")?,
        date: r.required("date")?,
        exception_type: r.number("exception_type")?,
    })
}

fn read(zip: Vec<u8>) -> Result<StaticFeed, Error> {
    let archive = Archive::open("feed.zip", zip)?;
    let required = |name: &str| archive.read_required(name);
    let agencies = required("agency.txt")?;
    let routes = required("routes.txt")?;
    let stops = required("stops.txt")?;
    let trips = required("trips.txt")?;
    let stop_times = required("stop_times.txt")?;
    let calendar = archive.read_optional("calendar.txt")?;
    let calendar_dates = archive.read_optional("calendar_dates.txt")?;
    StaticFeed::from_rows(
        &agency(),
        parse_csv(&agencies, "agency.txt", agency_row).unwrap(),
        parse_csv(&routes, "routes.txt", route_row).unwrap(),
        parse_csv(&stops, "stops.txt", stop_row).unwrap(),
        parse_csv(&trips, "trips.txt", trip_row).unwrap(),
        parse_csv(&stop_times, "stop_times.txt", stop_time_row).unwrap(),
        match calendar {
            Some(bytes) => parse_csv(&bytes, "calendar.txt", calendar_row).unwrap(),
            None => Vec::new(),
        },
        match calendar_dates {
            Some(bytes) => parse_csv(&bytes, "calendar_dates.txt", calendar_date_row).unwrap(),
            None => Vec::new(),
        },
    )
}

#[test]
fn reads_a_minimal_feed() {
    let zip = write_zip(MINIMAL);
    let feed = read(zip).unwrap();

    assert_eq!(feed.routes.len(), 1);
    assert_eq!(feed.stop_times.len(), 1);
    assert_eq!(feed.agency_id, "MTA_NYCT");
}

#[test]
fn a_feed_without_calendar_txt_is_fine() {
    // LIRR and Metro-North both ship calendar_dates.txt only.
    let zip = write_zip(MINIMAL);
    let feed = read(zip).unwrap();

    assert!(feed.calendar.is_empty());
    assert_eq!(feed.calendar_dates.len(), 1);
}

#[test]
fn a_feed_with_no_service_definition_at_all_is_rejected() {
    let entries: Vec<_> = MINIMAL
        .iter()
        .filter(|(name, _)| *name != "calendar_dates.txt")
        .copied()
        .collect();
    let zip = write_zip(&entries);

    let err = read(zip).unwrap_err();
    assert!(
        err.message().contains("calendar"),
        "expected a calendar complaint, got: {}",
        err.message()
    );
}

#[test]
fn a_missing_required_file_is_an_error() {
    let entries: Vec<_> = MINIMAL
        .iter()
        .filter(|(name, _)| *name != "stop_times.txt")
        .copied()
        .collect();
    let zip = write_zip(&entries);

    let err = read(zip).unwrap_err();
    assert!(err.message().contains("stop_times.txt"), "got: {}", err.message());
    assert_eq!(err, Error::Feed(FeedError::MissingFile { file: "stop_times.txt".to_string() }));
}

#[test]
fn files_nested_in_a_directory_still_read() {
    let entries: Vec<(String, &str)> = MINIMAL
        .iter()
        .map(|(name, body)| (format!("gtfs/{name}"), *body))
        .collect();
    let borrowed: Vec<(&str, &str)> = entries.iter().map(|(n, b)| (n.as_str(), *b)).collect();
    let zip = write_zip(&borrowed);

    let feed = read(zip).unwrap();
    assert_eq!(feed.stops.len(), 1);
}

#[test]
fn a_byte_order_mark_does_not_break_the_first_column() {
    // With the BOM left in place the first header becomes "\u{feff}stop_id"
    // and every row fails on a missing stop_id -- a confusing way to learn
    // your feed has a BOM.
    let mut bytes = vec![0xEF, 0xBB, 0xBF];
    bytes.extend_from_slice(b"stop_id,stop_name\nS1,First\n");

    let rows: Vec<StopRow> = parse_csv(&bytes, "stops.txt", stop_row).unwrap();
    assert_eq!(rows[0].stop_id, "S1");
}

#[test]
fn a_short_row_is_tolerated() {
    // Producers drop trailing empty columns. Rejecting the feed over an
    // absent optional field would be worse than reading it as absent.
    let rows: Vec<StopRow> =
        parse_csv(b"stop_id,stop_name,parent_station\nS1,First\n", "stops.txt", stop_row).unwrap();
    assert_eq!(rows[0].parent_station, None);
}

#[test]
fn a_parse_failure_reports_the_editor_line_number() {
    let err = parse_csv(
        b"stop_id,stop_lat\nS1,40.7\nS2,not-a-number\n",
        "stops.txt",
        stop_row,
    )
    .unwrap_err();

    let message = err.message();
    assert!(message.contains("stops.txt"), "got: {message}");
    assert!(message.contains("record 3"), "got: {message}");
}

#[test]
fn a_file_that_is_not_a_zip_is_reported_as_such() {
    let err = match Archive::open("feed.zip", b"this is not a zip archive".to_vec()) {
        Err(err) => err,
        Ok(_) => panic!("a text file should not open as an archive"),
    };
    assert!(err.message().contains("zip"), "got: {}", err.message());
    assert_eq!(err.message(), "archive feed.zip is not a readable zip");
}

#[test]
fn parses_subway_routes() {
    let rows: Vec<RouteRow> = parse_csv(
        b"route_id,agency_id,route_short_name,route_long_name,route_type,route_color\n\
         1,MTA NYCT,1,Broadway - 7 Avenue Local,1,EE352E\n",
        "routes.txt",
        route_row,
    )
    .unwrap();
    assert_eq!(rows[0].display_name(), "1");
    assert_eq!(rows[0].route_type, 1);
}

#[test]
fn parses_lirr_routes_without_agency_or_short_name() {
    // LIRR ships exactly these five columns. Requiring agency_id or
    // route_short_name here would reject the feed outright.
    let rows: Vec<RouteRow> = parse_csv(
        b"route_id,route_long_name,route_type,route_color,route_text_color\n\
         1,Babylon,2,B3DE96,000000\n",
        "routes.txt",
        route_row,
    )
    .unwrap();
    assert_eq!(rows[0].agency_id, None);
    assert_eq!(rows[0].display_name(), "Babylon");
}

#[test]
fn falls_back_to_route_id_when_a_feed_names_nothing() {
    let rows: Vec<RouteRow> =
        parse_csv(b"route_id,route_type\nX9,2\n", "routes.txt", route_row).unwrap();
    assert_eq!(rows[0].display_name(), "X9");
}

#[test]
fn ignores_columns_we_do_not_model() {
    // Metro-North's stop_times.txt carries track and note_id.
    let rows: Vec<StopTimeRow> = parse_csv(
        b"trip_id,arrival_time,departure_time,stop_id,stop_sequence,pickup_type,drop_off_type,track,note_id\n\
         T1,06:48:00,06:48:00,131,1,0,0,3,\n",
        "stop_times.txt",
        stop_time_row,
    )
    .unwrap();
    assert_eq!(rows[0].trip_id, "T1");
    assert_eq!(rows[0].stop_sequence, 1);
}

#[test]
fn column_order_does_not_matter() {
    // Subway puts stop_id second, LIRR puts it fourth. Reading by header
    // name is what makes one struct serve both.
    let rows: Vec<StopTimeRow> = parse_csv(
        b"trip_id,stop_id,arrival_time,departure_time,stop_sequence\n\
         T1,101S,00:06:00,00:06:00,1\n",
        "stop_times.txt",
        stop_time_row,
    )
    .unwrap();
    assert_eq!(rows[0].stop_id, "101S");
}

#[test]
fn quoted_fields_parse() {
    // The LIRR feed quotes every field, including numerics.
    let rows: Vec<StopTimeRow> = parse_csv(
        b"\"trip_id\",\"arrival_time\",\"departure_time\",\"stop_id\",\"stop_sequence\"\n\
         \"GO201_26_2\",\"01:05:00\",\"01:05:00\",\"102\",\"1\"\n",
        "stop_times.txt",
        stop_time_row,
    )
    .unwrap();
    assert_eq!(rows[0].trip_id, "GO201_26_2");
    assert_eq!(rows[0].stop_sequence, 1);
}

#[test]
fn missing_stop_coordinates_are_absent_not_zero() {
    // (0, 0) is in the Atlantic. A stop with no coordinates must stay
    // unknown, or it lands in the ocean and skews any geographic rollup.
    let rows: Vec<StopRow> = parse_csv(
        b"stop_id,stop_name,stop_lat,stop_lon\nS1,Nowhere,,\n",
        "stops.txt",
        stop_row,
    )
    .unwrap();
    assert_eq!(rows[0].stop_lat, None);
    assert_eq!(rows[0].stop_lon, None);
}

#[test]
fn detects_stations_versus_platforms() {
    let rows: Vec<StopRow> = parse_csv(
        b"stop_id,stop_name,location_type,parent_station\n\
         101,Van Cortlandt Park,1,\n\
         101N,Van Cortlandt Park,0,101\n",
        "stops.txt",
        stop_row,
    )
    .unwrap();
    assert!(rows[0].is_station());
    assert!(!rows[1].is_station());
    assert_eq!(rows[1].parent_station.as_deref(), Some("101"));
}

#[test]
fn missing_required_identifier_is_an_error() {
    let result = parse_csv(b"route_id,service_id\n1,S1\n", "trips.txt", trip_row);
    assert!(result.is_err(), "trips.txt without trip_id must not parse");
}

#[test]
fn calendar_weekday_flags() {
    let rows: Vec<CalendarRow> = parse_csv(
        b"service_id,monday,tuesday,wednesday,thursday,friday,saturday,sunday,start_date,end_date\n\
         WK,1,1,1,1,1,0,0,20260101,20261231\n",
        "calendar.txt",
        calendar_row,
    )
    .unwrap();
    assert!(rows[0].runs_on_weekday(0)); // Monday
    assert!(rows[0].runs_on_weekday(4)); // Friday
    assert!(!rows[0].runs_on_weekday(5)); // Saturday
    assert!(!rows[0].runs_on_weekday(9)); // out of range, not a panic
}

#[test]
fn calendar_date_exception_types() {
    let rows: Vec<CalendarDateRow> = parse_csv(
        b"service_id,date,exception_type\nA,20260704,1\nB,20261225,2\n",
        "calendar_dates.txt",
        calendar_date_row,
    )
    .unwrap();
    assert!(rows[0].adds_service());
    assert!(!rows[1].adds_service());
}

#[test]
fn files_are_found_by_base_name_whatever_the_case() {
    let entries: Vec<String> =
        ["x/", "a/STOPS.TXT", "stops.txt", "b\\trips.txt", "trips.txt.bak", "agency.txt/"]
            .iter()
            .map(|e| e.to_string())
            .collect();
    assert_eq!(find_entry(&entries, "stops.txt"), Some(1));
    assert_eq!(find_entry(&entries, "Trips.txt"), Some(3));
    assert_eq!(find_entry(&entries, "routes.txt"), None);
    assert_eq!(find_entry(&entries, "agency.txt"), None);
}

#[test]
fn entries_give_their_bytes_back() {
    let zip = write_zip(&[("a/STOPS.txt", "one"), ("b/stops.txt", "two")]);
    let archive = Archive::open("feed.zip", zip.clone()).ok().unwrap();
    assert_eq!(archive.index_of("stops.txt"), Some(0));
    assert_eq!(archive.read_required("stops.txt").unwrap(), b"one");
    assert_eq!(archive.read_optional("stops.txt").unwrap(), Some(b"one".to_vec()));
    assert_eq!(archive.read_optional("trips.txt").unwrap(), None);
    assert_eq!(
        archive.read_required("trips.txt").unwrap_err(),
        Error::Feed(FeedError::MissingFile { file: "trips.txt".to_string() })
    );

    // The index of a damaged archive can still be read where its entries cannot.
    let mut damaged = zip;
    damaged[0] = b'X';
    if let Ok(archive) = Archive::open("feed.zip", damaged) {
        assert_eq!(
            archive.read_required("stops.txt").unwrap_err(),
            Error::Feed(FeedError::BadArchive { path: "feed.zip".to_string() })
        );
    }
}

#[test]
fn a_listing_decides_what_an_archive_holds() {
    let listed = |names: Option<Vec<&str>>| {
        Archive::open_listed(
            "p.zip",
            Vec::new(),
            names.map(|names| names.into_iter().map(str::to_string).collect()),
        )
    };
    let archive = listed(Some(vec!["x/stops.txt"])).ok().unwrap();
    assert_eq!(archive.index_of("stops.txt"), Some(0));
    let bad = || Error::Feed(FeedError::BadArchive { path: "p.zip".to_string() });
    assert_eq!(listed(None).err().unwrap(), bad());
    assert_eq!(archive.entry_bytes("stops.txt", Some(Some(b"x".to_vec()))).unwrap(), b"x");
    assert_eq!(archive.entry_bytes("stops.txt", None).unwrap_err(), bad());
    let unreadable = archive.entry_bytes("stops.txt", Some(None)).unwrap_err();
    assert_eq!(unreadable, Error::Io { path: "p.zip/stops.txt".to_string() });
    assert_eq!(unreadable.message(), "i/o error at p.zip/stops.txt");
}

#[test]
fn an_empty_value_is_no_value() {
    assert_eq!(non_empty(&None), None);
    assert_eq!(non_empty(&Some(String::new())), None);
    assert_eq!(non_empty(&Some("x".to_string())), Some("x"));
}

#[test]
fn only_a_whole_mark_is_taken_off() {
    assert_eq!(without_mark(&[0xEF, 0xBB, 0xBF, b'a']), b"a");
    assert_eq!(without_mark(&[0xEF, 0xBB]), [0xEF, 0xBB]);
    assert_eq!(without_mark(&[]), b"");
    assert_eq!(without_mark(&[0xEF, 0xBB, 0xBF, 0xEF, 0xBB, 0xBF]), [0xEF, 0xBB, 0xBF]);
}
