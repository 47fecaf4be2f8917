//! Error taxonomy of the store.
//!
//! Each variant carries a fixed descriptive message; the kind itself is what
//! callers match on.

use vstd::prelude::*;

verus! {

/// Everything that can go wrong inside the storage core or in the thin I/O
/// shell around it.
#[derive(Debug, Clone)]
pub enum LsmError {
    /// Underlying filesystem or OS failure, raised by the embedding shell.
    Io(&'static str),
    /// The codec could not encode or decode a value.
    Serialization(&'static str),
    /// A monotonic timestamp could not be obtained.
    Time(&'static str),
    /// A holder of an exclusive lock panicked; raised by the embedding shell.
    LockPoisoned(&'static str),
    /// Absence reported as an error by some callers.
    KeyNotFound,
    /// A sorted-run file failed structural validation at open.
    InvalidSstable,
    /// A sorted-run file failed validation, with a description.
    InvalidSstableFormat(&'static str),
    /// A size or decode mismatch while reading data back.
    CorruptedData(&'static str),
    /// A compressed frame could not be unpacked.
    DecompressionFailed(&'static str),
    /// Building or merging a sorted run failed.
    CompactionFailed(&'static str),
    /// The write-ahead log does not parse back cleanly.
    WalCorruption,
    /// Configured block size out of range.
    InvalidBlockSize(&'static str),
    /// Configured cache size out of range.
    InvalidCacheSize(&'static str),
    /// Configured sparse-index interval out of range.
    InvalidIndexInterval(&'static str),
    /// Configured filter false-positive rate out of range.
    InvalidBloomRate(&'static str),
    /// Configured staging-table size out of range.
    InvalidMemtableSize(&'static str),
}

impl LsmError {
    /// A human-readable description of the error.
    pub fn message(&self) -> &'static str {
        match self {
            LsmError::Io(m) => m,
            LsmError::Serialization(m) => m,
            LsmError::Time(m) => m,
            LsmError::LockPoisoned(m) => m,
            LsmError::KeyNotFound => "key not found",
            LsmError::InvalidSstable => "invalid sstable format",
            LsmError::InvalidSstableFormat(m) => m,
            LsmError::CorruptedData(m) => m,
            LsmError::DecompressionFailed(m) => m,
            LsmError::CompactionFailed(m) => m,
            LsmError::WalCorruption => "wal corruption detected",
            LsmError::InvalidBlockSize(m) => m,
            LsmError::InvalidCacheSize(m) => m,
            LsmError::InvalidIndexInterval(m) => m,
            LsmError::InvalidBloomRate(m) => m,
            LsmError::InvalidMemtableSize(m) => m,
        }
    }
}

pub type Result<T> = core::result::Result<T, LsmError>;

} // verus!
