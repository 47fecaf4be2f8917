//! An embedded, persistent, ordered key-value store built on the
//! log-structured merge-tree pattern.
//!
//! The crate holds the storage core: records and their binary codec, the
//! bounded data block, the write-ahead-log frame format, the in-memory
//! staging table, the immutable sorted-run file format with its sparse index
//! and membership filter, the shared block cache, and the engine that ties
//! them together.  All file and clock access stays outside: callers read and
//! write whole byte images or ranges of them and hand the bytes in, so every
//! decision made here is checked.

pub mod block;
pub mod bloom;
pub mod builder;
pub mod cache;
pub mod codec;
pub mod compress;
pub mod config;
pub mod engine;
pub mod error;
pub mod keys;
pub mod memtable;
pub mod meta;
pub mod reader;
pub mod record;
pub mod sstable;
pub mod wal;
