//! Streaming: chunks of changes, barriers, and the backfill of a table from a snapshot.

pub mod backfill_laws;
pub mod backfill_state_laws;
pub mod barrier;
pub mod change_log;
pub mod error;
pub mod mapping;
pub mod snapshot_backfill;
pub mod snapshot_consume;
pub mod snapshot_read;
pub mod upstream_buffer;
