//! Ruka: an append-only log and message broker.
//!
//! The library holds the binary wire protocol (frames, typed requests and
//! responses), the record and index encodings, the in-memory model of
//! segments and partitions with their rotation rules, and the decisions the
//! broker makes when it answers a request.
mod wire;
mod text;
mod clock;
pub mod config;
pub mod error;
pub mod protocol;
pub mod storage;
pub mod broker;
