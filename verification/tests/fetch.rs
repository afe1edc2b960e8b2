use std::io::{Cursor, Write};

use zip::write::SimpleFileOptions;

use transit_ingest::config::{Agency, Quirks};
use transit_ingest::error::{Error, FeedError};
use transit_ingest::fetch::{
    begin, installed, judge, kept, required_files, validate_archive, validate_listing, Answer,
    CacheValidators, Fetched, Installable, Opening,
};

fn zip_of(names: &[&str]) -> Vec<u8> {
    let mut buffer = Vec::new();
    {
        let mut writer = zip::ZipWriter::new(Cursor::new(&mut buffer));
        for name in names {
            writer.start_file(*name, SimpleFileOptions::default()).unwrap();
            writer.write_all(b"header\n").unwrap();
        }
        writer.finish().unwrap();
    }
    buffer
}

fn valid_zip() -> Vec<u8> {
    zip_of(&required_files())
}

fn agency() -> Agency {
    Agency {
        id: "MTA_NYCT".to_string(),
        name: "New York City Transit".to_string(),
        mode: "subway".to_string(),
        timezone: "America/New_York".to_string(),
        static_url: "http://example.com/gtfs.zip".to_string(),
        realtime: Vec::new(),
        quirks: Quirks::default(),
    }
}

#[test]
fn the_sidecar_sits_beside_the_archive_not_in_place_of_it() {
    assert_eq!(
        CacheValidators::path_for("data/raw/MTA_NYCT.zip"),
        "data/raw/MTA_NYCT.zip.cache.json",
        "the .zip extension must be kept, or two agencies could collide"
    );
}

#[test]
fn validators_are_empty_when_neither_header_came() {
    assert!(CacheValidators::default().is_empty());
    assert!(!CacheValidators { etag: Some("\"old\"".to_string()), last_modified: None }.is_empty());
    assert!(!CacheValidators { etag: None, last_modified: Some("x".to_string()) }.is_empty());
}

#[test]
fn a_first_download_is_unconditional() {
    assert_eq!(
        CacheValidators::default(),
        CacheValidators { etag: None, last_modified: None }
    );
    assert!(matches!(
        begin(&agency(), "data", None, false),
        Opening::Ask { conditional: false }
    ));
}

#[test]
fn a_valid_archive_is_installable() {
    let archive = Installable::new(valid_zip(), "raw/MTA_NYCT.zip").ok().unwrap();
    assert_eq!(archive.body(), &valid_zip()[..]);
    let fetched = installed(&agency(), "data", &archive);
    assert_eq!(fetched.bytes, valid_zip().len() as u64);
    assert!(!fetched.reused);
    assert_eq!(fetched.path, "data/raw/MTA_NYCT.zip");
}

#[test]
fn an_html_error_page_never_reaches_the_destination() {
    let body = b"<html><body>503 Service Unavailable</body></html>".to_vec();
    let err = Installable::new(body, "MTA_NYCT.zip").err().unwrap();
    assert!(err.message().contains("zip"), "got: {}", err.message());
    assert_eq!(err, Error::Feed(FeedError::BadArchive { path: "MTA_NYCT.zip".to_string() }));
}

#[test]
fn a_truncated_download_never_reaches_the_destination() {
    let full = valid_zip();
    assert!(Installable::new(full[..full.len() / 2].to_vec(), "MTA_NYCT.zip").is_err());
}

#[test]
fn a_zip_missing_a_required_file_is_rejected() {
    let err = Installable::new(zip_of(&["agency.txt", "routes.txt"]), "MTA_NYCT.zip")
        .err()
        .unwrap();
    assert!(err.message().contains("stops.txt"), "got: {}", err.message());
    assert_eq!(err, Error::Feed(FeedError::MissingFile { file: "stops.txt".to_string() }));
}

#[test]
fn an_archive_that_was_installable_still_is() {
    let first = Installable::new(valid_zip(), "MTA_NYCT.zip").ok().unwrap();
    let second = Installable::new(valid_zip(), "MTA_NYCT.zip").ok().unwrap();
    assert_eq!(first.body(), second.body());
}

#[test]
fn files_nested_in_a_directory_still_validate() {
    let nested: Vec<String> = required_files().iter().map(|n| format!("gtfs/{n}")).collect();
    let names: Vec<&str> = nested.iter().map(String::as_str).collect();
    assert!(Installable::new(zip_of(&names), "MTA_NYCT.zip").is_ok());
}

#[test]
fn the_case_of_a_file_name_does_not_matter() {
    let names = ["Agency.TXT", "x\\ROUTES.txt", "a/b/Stops.txt", "trips.txt", "STOP_times.txt"];
    assert!(validate_archive(&zip_of(&names), "d").is_ok());
}

#[test]
fn a_listing_decides_whether_an_archive_is_a_feed() {
    let all: Vec<String> = required_files().iter().map(|n| n.to_string()).collect();
    assert!(validate_listing(&Some(all.clone()), "d").is_ok());
    for missing in 0..5 {
        let mut names = all.clone();
        let file = names.remove(missing);
        assert_eq!(
            validate_listing(&Some(names), "d").unwrap_err(),
            Error::Feed(FeedError::MissingFile { file })
        );
    }
    assert_eq!(
        validate_listing(&None, "d").unwrap_err(),
        Error::Feed(FeedError::BadArchive { path: "d".to_string() })
    );
    assert_eq!(
        validate_listing(&Some(Vec::new()), "d").unwrap_err().message(),
        "archive is missing required file `agency.txt`"
    );
}

#[test]
fn an_existing_archive_is_reused_rather_than_redownloaded() {
    let size = valid_zip().len() as u64;
    match begin(&agency(), "data", Some(size), false) {
        Opening::Keep(fetched) => {
            assert!(fetched.reused);
            assert_eq!(fetched.bytes, size);
            assert_eq!(fetched.agency_id, "MTA_NYCT");
            assert_eq!(fetched.path, "data/raw/MTA_NYCT.zip");
        }
        Opening::Ask { .. } => panic!("an existing archive is kept"),
    }
}

#[test]
fn force_asks_the_server_whether_the_archive_changed() {
    assert!(matches!(
        begin(&agency(), "data", Some(7), true),
        Opening::Ask { conditional: true }
    ));
    assert!(matches!(
        begin(&agency(), "data", None, true),
        Opening::Ask { conditional: false }
    ));
    assert_eq!(
        kept(&agency(), "data/", 7),
        Fetched {
            agency_id: "MTA_NYCT".to_string(),
            path: "data/raw/MTA_NYCT.zip".to_string(),
            bytes: 7,
            reused: true,
        }
    );
}

#[test]
fn a_status_is_unchanged_a_body_or_an_error() {
    assert_eq!(judge("u", 304).unwrap(), Answer::NotModified);
    for status in [200, 204, 299] {
        assert_eq!(judge("u", status).unwrap(), Answer::Body);
    }
    for status in [100, 199, 300, 301, 303, 305, 404, 500, 503] {
        let err = judge("http://x/y", status).unwrap_err();
        assert_eq!(err, FeedError::HttpStatus { url: "http://x/y".to_string(), status });
        assert_eq!(err.message(), format!("http://x/y returned HTTP {status}"));
    }
}
