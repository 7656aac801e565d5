//! Append-only segmented storage.
//!
//! A partition is an ordered run of segments; each segment is a log of
//! records and an index from offsets to positions in that log.
pub mod record;
pub mod index;
pub mod segment;
pub mod log_model;
pub mod partition;
pub mod partition_model;
pub mod naming;
pub mod contents;
