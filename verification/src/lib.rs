//! A log-structured key/value engine for string keys and string values.
//!
//! The engine keeps an image of its database directory: the bytes of one
//! append-only log per generation. Every mutation appends a record to the
//! log of the active generation, updates the index from key to the place
//! of the record with its value, and hands back the file operations that
//! bring a directory on disk in line with the image. Opening a store
//! replays the logs of a directory; compaction packs the live records into
//! a log of their own and drops every older log.
//!
//! - [`record`]: the on-disk form of a record, written and read;
//! - [`json`]: the JSON text of a string, which is `serde_json`'s;
//! - [`index`]: the index, ordered by key;
//! - [`logdir`]: the directory image and the file operations;
//! - [`names`]: the names of the log files;
//! - [`replay`]: what a run of records does to the index;
//! - [`compaction`]: where the live records come to lie;
//! - [`kv`]: the store;
//! - [`laws`]: what holds of the store over any run of mutations;
//! - [`cli`]: what the command-line front ends decide;
//! - [`error`]: the error type.

pub mod cli;
pub mod compaction;
pub mod cursor;
pub mod error;
pub mod index;
pub mod json;
pub mod kv;
pub mod laws;
pub mod logdir;
pub mod names;
pub mod record;
pub mod replay;

pub use crate::error::KvsError;
pub use crate::index::RecordArgs;
pub use crate::kv::{new_log_file, KvStore, KvsEngine, COMPACTION_THRESHOLD};
pub use crate::logdir::{FileOp, LogDir, LogFile};
pub use crate::names::{log_path, parse_log_name, sorted_log_list};
pub use crate::record::MultipleCmd;
pub use crate::replay::load;
