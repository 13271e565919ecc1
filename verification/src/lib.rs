//! A log-structured key-value storage engine.
//!
//! The engine keeps every write as a record appended to a generation log and
//! an in-memory index from each live key to the record that holds its value.
//! This library decides; it performs no file I/O itself. It encodes and
//! decodes records, maintains the index and the staleness statistics, replays
//! logs, chooses when to roll the active log and what to compact, and tells
//! its caller which file operations to carry out.

pub mod account;
pub mod codec;
pub mod disk;
pub mod engine;
pub mod error;
pub mod gens;
pub mod index;
pub mod journal;
pub mod mpmc;
pub mod pointer;
pub mod protocol;
pub mod replay;
pub mod rewrite;
pub mod select;
pub mod server;
pub mod stats;
pub mod store;
