//! Flow storage engine: a sharded, append-only stream of fixed-size sectors kept
//! in batches over a column-keyed byte store, with the bookkeeping for sealing.

pub mod batch_iter;
pub mod codec;
pub mod entry_batch;
pub mod error;
pub mod flow;
pub mod flow_db;
pub mod kv;
pub mod laws;
pub mod merkle;
pub mod params;
pub mod pending;
pub mod seal;
pub mod seq_util;
pub mod shard;
pub mod types;
