# transit-ingest

GTFS static ingest: from the zip archives that transit agencies publish to a
partitioned Parquet dataset of scheduled stop events, with the rules of the
conversion proved in Verus.

- `src/` is the verified library. Each module opens with what it is for; the
  laws that relate several functions stand at the end of the module they are
  about, as public proof functions whose names begin with `law_`.
- `app/` is the command line around it: arguments, files, requests, and the
  serde types of the registry and of the feed's rows.
- `tests/` runs the library, the outside crates included.

```
transit-ingest agencies                  list the registry
transit-ingest fetch [AGENCY] [--force]  download archives
transit-ingest inspect AGENCY            contents and integrity of an archive
transit-ingest build [AGENCY] [--from DATE] [--to DATE | --days N]
```

The dataset is laid out for partition-aware readers:

```
data/parquet/
  scheduled_events/service_date=2026-05-26/MTA_NYCT.parquet
  routes/MTA_NYCT.parquet
  stops/MTA_NYCT.parquet
```

What is believed rather than proved is what the library has from other crates:
`chrono` and `chrono-tz` read dates and find local noon, `zip` lists and reads
archives, `arrow` holds record batches and `parquet` encodes them. Each such
call is a function marked `external_body` whose doc comment says what its
contract claims.
