//! A persistent key-value store built on an append-only log.
//!
//! Every mutation is appended to the active log as a self-delimiting JSON
//! record. An in-memory index maps each live key to the byte range of its
//! latest `set` record. When the log holds more than [`COMPACTION_THRESHOLD`]
//! records, its oldest records are folded into an immutable segment.
//!
//! The library works on a [`Directory`]: the bytes of the active log and of
//! the segments, held as plain values. The caller mirrors that value to disk.

pub mod address;
pub mod codec;
pub mod command;
pub mod engine;
pub mod error;
pub mod kvs_engine;
pub mod listing;
pub mod log;
pub mod model;
pub mod names;
pub mod order;
pub mod protocol;
pub mod segment;
pub mod store;
pub mod thread_pool;

pub use address::valid;
pub use error::KvsError;
pub use kvs_engine::KvsEngine;
pub use model::COMPACTION_THRESHOLD;
pub use segment::{Directory, Segment};
pub use store::KvStore;
pub use thread_pool::ThreadPool;
