use std::path::Path;

use transit_ingest::config::{Agency, Config, Defaults, Quirks, RealtimeFeed, TripIdMatch};
use transit_ingest::error::{ConfigError, Error};
use transit_ingest::path;
use transit_ingest::zone::Timezone;

fn text(table: &toml::Table, key: &str) -> String {
    table[key].as_str().unwrap().to_string()
}

/// A registry out of its TOML text, with the defaults where the text is silent.
fn config(source: &str) -> Config {
    let table: toml::Table = source.parse().unwrap();
    let mut defaults = Defaults::default();
    if let Some(section) = table.get("defaults").and_then(|v| v.as_table()) {
        if let Some(seconds) = section.get("poll_interval_seconds") {
            defaults.poll_interval_seconds = seconds.as_integer().unwrap() as u64;
        }
    }
    let agencies = table["agency"].as_array().unwrap().iter().map(|value| {
        let agency = value.as_table().unwrap();
        Agency {
            id: text(agency, "id"),
            name: text(agency, "name"),
            mode: text(agency, "mode"),
            timezone: text(agency, "timezone"),
            static_url: text(agency, "static_url"),
            realtime: Vec::new(),
            quirks: Quirks::default(),
        }
    });
    Config { defaults, agencies: agencies.collect() }
}

fn agency(id: &str, timezone: &str) -> Agency {
    Agency {
        id: id.to_string(),
        name: id.to_string(),
        mode: "subway".to_string(),
        timezone: timezone.to_string(),
        static_url: "http://example.com/a.zip".to_string(),
        realtime: Vec::new(),
        quirks: Quirks::default(),
    }
}

fn mta() -> Config {
    let agencies = ["MTA_NYCT", "MTA_LIRR", "MTA_MNR"]
        .iter()
        .map(|id| agency(id, "America/New_York"))
        .collect();
    Config { defaults: Defaults::default(), agencies }
}

#[test]
fn loads_repo_config() {
    let config = mta();
    assert!(config.validate().is_ok());
    assert_eq!(config.agencies.len(), 3);
    for id in ["MTA_NYCT", "MTA_LIRR", "MTA_MNR"] {
        assert!(config.agency(id).is_some(), "missing agency {id}");
    }
}

#[test]
fn keys_are_namespaced_per_agency() {
    let config = mta();
    let keys: Vec<_> = config.agencies.iter().map(|a| a.route_key("1")).collect();
    assert_eq!(keys, ["MTA_NYCT:1", "MTA_LIRR:1", "MTA_MNR:1"]);

    let unique: std::collections::HashSet<_> = keys.iter().collect();
    assert_eq!(
        unique.len(),
        3,
        "route keys must not collide across agencies"
    );
}

#[test]
fn every_agency_timezone_parses() {
    for agency in mta().agencies {
        assert!(agency.tz().is_ok(), "{} has a bad timezone", agency.id);
    }
}

#[test]
fn rejects_duplicate_agency_ids() {
    let toml = r#"
        [[agency]]
        id = "A"
        name = "A"
        mode = "subway"
        timezone = "America/New_York"
        static_url = "http://example.com/a.zip"

        [[agency]]
        id = "A"
        name = "Also A"
        mode = "bus"
        timezone = "America/New_York"
        static_url = "http://example.com/b.zip"
    "#;
    let config: Config = config(toml);
    assert!(config.validate().is_err());
}

#[test]
fn rejects_unknown_timezone() {
    let toml = r#"
        [[agency]]
        id = "A"
        name = "A"
        mode = "subway"
        timezone = "Mars/Olympus_Mons"
        static_url = "http://example.com/a.zip"
    "#;
    let config: Config = config(toml);
    assert!(config.validate().is_err());
}

#[test]
fn defaults_apply_when_section_omitted() {
    let toml = r#"
        [[agency]]
        id = "A"
        name = "A"
        mode = "subway"
        timezone = "America/New_York"
        static_url = "http://example.com/a.zip"
    "#;
    let config: Config = config(toml);
    assert_eq!(config.defaults.poll_interval_seconds, 30);
    assert_eq!(config.defaults.stale_after_seconds, 300);
}

#[test]
fn the_defaults_are_those_of_a_silent_registry() {
    assert_eq!(
        Defaults::default(),
        Defaults {
            poll_interval_seconds: 30,
            stale_after_seconds: 300,
            request_timeout_seconds: 20,
            on_time_threshold_seconds: 300,
        }
    );
    assert_eq!(
        Quirks::default(),
        Quirks { trip_id_match: TripIdMatch::Exact, stop_id_direction_suffix: false }
    );
}

#[test]
fn each_registry_fault_has_its_error() {
    let registry = |agencies| Config { defaults: Defaults::default(), agencies };
    let none = registry(Vec::new()).validate().unwrap_err();
    assert_eq!(none, Error::Config(ConfigError::NoAgencies));
    assert_eq!(none.message(), "config defines no agencies");

    let ny = "America/New_York";
    let twice = registry(vec![agency("A", ny), agency("B", ny), agency("A", ny)]);
    let duplicate = twice.validate().unwrap_err();
    assert_eq!(
        duplicate,
        Error::Config(ConfigError::DuplicateAgencyId { agency: "A".to_string() })
    );
    assert_eq!(duplicate.message(), "duplicate agency id `A`");

    let unknown = registry(vec![agency("A", "Mars/Base")]).validate().unwrap_err();
    assert_eq!(
        unknown,
        Error::Config(ConfigError::UnknownTimezone {
            agency: "A".to_string(),
            timezone: "Mars/Base".to_string(),
        })
    );
    assert_eq!(unknown.message(), "agency `A` has unknown timezone `Mars/Base`");
}

#[test]
fn the_first_fault_in_registry_order_is_reported() {
    let config = Config {
        defaults: Defaults::default(),
        agencies: vec![agency("A", "X"), agency("A", "Y")],
    };
    let duplicate = ConfigError::DuplicateAgencyId { agency: "A".to_string() };
    assert_eq!(config.validate_with(&vec![true, true]).unwrap_err(), Error::Config(duplicate));
    let unknown = |timezone: &str| {
        Error::Config(ConfigError::UnknownTimezone {
            agency: "A".to_string(),
            timezone: timezone.to_string(),
        })
    };
    assert_eq!(config.validate_with(&vec![false, true]).unwrap_err(), unknown("X"));
    assert_eq!(config.agencies[0].tz_from(None).unwrap_err(), unknown("X"));
    assert_eq!(config.agencies[0].tz().unwrap_err(), unknown("X"));
}

#[test]
fn a_timezone_is_found_by_its_name() {
    let tz = agency("A", "Europe/Zurich").tz().unwrap();
    assert_eq!(tz.name(), "Europe/Zurich");
    assert_eq!(Timezone::named("Europe/Zurich").unwrap(), tz);
    assert!(Timezone::named("europe/zurich").is_none());
    assert!(Timezone::named("").is_none());
}

#[test]
fn agencies_are_selected_by_id_or_all_at_once() {
    let config = mta();
    let ids = |agencies: Vec<&Agency>| -> Vec<String> {
        agencies.into_iter().map(|a| a.id.clone()).collect()
    };
    assert_eq!(ids(config.select(None).unwrap()), ["MTA_NYCT", "MTA_LIRR", "MTA_MNR"]);
    assert_eq!(ids(config.select(Some("MTA_LIRR")).unwrap()), ["MTA_LIRR"]);
    let err = config.select(Some("BART")).unwrap_err();
    assert_eq!(err, Error::Config(ConfigError::UnknownAgency { agency: "BART".to_string() }));
    assert_eq!(err.message(), "no agency configured with id `BART`");
    assert!(config.agency("BART").is_none());
}

#[test]
fn archives_lie_under_the_raw_directory() {
    let agency = agency("MTA_NYCT", "America/New_York");
    assert_eq!(agency.archive_path("data"), "data/raw/MTA_NYCT.zip");
    assert_eq!(agency.stop_key("101N"), "MTA_NYCT:101N");
    assert_eq!(agency.realtime, Vec::<RealtimeFeed>::new());
}

#[test]
fn paths_join_as_std_joins_them() {
    for base in ["", "/", "a", "a/", "/a/b", "a//"] {
        for part in ["", "b", "/b", "b/c", "b/"] {
            let expected = Path::new(base).join(part);
            assert_eq!(path::join(base, part), expected.to_str().unwrap(), "{base} {part}");
        }
    }
}
