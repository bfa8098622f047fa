//! A key-value store backed by an append-only log of JSON-line records.
//!
//! The log-structured engine keeps the bytes of its log and an index from
//! each live key to the offset of its latest `Set` record; the decisions
//! about records, the index, compaction and recovery are made here, while
//! reading and writing the log file and the network socket are left to the
//! caller. A second engine keeps its data in an embedded `sled` database;
//! a server runs on one of the two, picked at start.

pub mod error;
pub mod escape;
pub mod logger;
pub mod marker;
pub mod protocol;
pub mod record;
pub mod sled_engine;
pub mod store;

pub use error::{KeyNotFound, KvsError};
pub use logger::{LogLevel, Logger};
pub use marker::check_engine;
pub use protocol::{execute, get_result, Command, Engine, Response};
pub use sled_engine::SledKvStore;
pub use store::KvStore;
