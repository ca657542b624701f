//! An append-only, log-structured key-value storage engine.
//!
//! Writes are framed by the entry codec and appended to segment files; an
//! in-memory key directory maps every live key to the location of its most
//! recent entry. The file system itself is driven by the caller: the types
//! here decide what is written where, and check what is read back.

pub mod entry;
pub mod error;
pub mod key;
pub mod key_directory;
pub mod segment;
pub mod time_based_id_generator;
pub mod segments;
pub mod replay;
pub mod kv_store;
pub mod command;
pub mod util;
