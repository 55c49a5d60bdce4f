//! In-process time-series storage and query engine for a host-monitoring
//! agent: ingests periodic snapshots of labeled metric values, retains them
//! in ring buffers, persists them as versioned binary snapshots, and answers
//! label-filtered, optionally aggregated range queries.

pub mod codec;
pub mod cond;
pub mod history;
pub mod keys;
pub mod query;
pub mod ring;
pub mod schedule;
pub mod tstamp;
pub mod values;
