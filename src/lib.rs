//! A persistent key/value store built on an append-only command log.
//!
//! - [`codec`]: the textual encoding of command records, with its round trip.
//! - [`index`], [`replay`]: the key index and the meaning of a log.
//! - [`store`]: the log-structured store, with replay on open and compaction.
//! - [`engine`]: the engine contract that the store meets.
//! - [`protocol`]: requests and replies between client and server.
//! - [`pool`]: the job queue and the supervisor of the worker pool.
//! - [`laws`]: laws of the store's observable behaviour.
pub mod cli;
pub mod codec;
pub mod engine;
pub mod errors;
pub mod index;
pub mod laws;
pub mod moves;
pub mod pool;
pub mod protocol;
pub mod replay;
pub mod store;
