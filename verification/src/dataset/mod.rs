//! The tables of the dataset.
//!
//! - [`columns`]: columns as plain values, and record batches of them
//! - [`dimensions`]: the `routes` and `stops` tables
//! - [`facts`]: the `scheduled_events` fact table
//! - [`write`]: where the files go, and what a build comes to

pub mod columns;
pub mod dimensions;
pub mod facts;
pub mod write;

pub use write::{Build, DatasetFile, Layout, Step, Summary};
