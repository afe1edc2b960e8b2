//! GTFS static ingest.
//!
//! - [`config`]: the agency registry, so that adding an agency is config, not
//!   code
//! - [`error`]: one error variant per failure mode
//! - [`gtfs`]: static feeds: archives, row types, times, calendars, integrity
//! - [`schedule`]: the join from a feed to scheduled stop events, per service
//!   date
//! - [`dataset`]: the tables, as record batches and Parquet files
//! - [`fetch`]: what a download has to be before it replaces anything
//! - [`window`]: the window of service dates that a build covers
//!
//! The rest is what these stand on: [`date`], [`date_set`], [`zone`], [`text`],
//! [`path`], [`keys`], [`sort`] and [`fnv`].

pub mod config;
pub mod dataset;
pub mod date;
pub mod date_set;
pub mod error;
pub mod fetch;
pub mod fnv;
pub mod gtfs;
pub mod keys;
pub mod path;
pub mod schedule;
pub mod sort;
pub mod text;
pub mod window;
pub mod zone;

pub use config::{Agency, Config};
pub use error::Error;
pub use schedule::{Schedule, ScheduledEvent};
