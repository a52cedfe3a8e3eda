//! Storage and execution pieces of a streaming database.
//!
//! - [`file_cache`]: the files of a block cache.
//! - [`stream`]: the backfill of a streaming table from a snapshot of its upstream.
//! - [`insert`]: the insertion of batches into a table.

pub mod catalog;
pub mod chunk;
pub mod decimal;
pub mod file_cache;
pub mod insert;
pub mod stream;
