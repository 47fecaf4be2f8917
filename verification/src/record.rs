//! The record: the atomic unit of every write.
//!
//! A record carries a byte-string key, a byte-sequence value, the
//! nanosecond timestamp of its creation, and a tombstone flag.  A tombstone
//! is a record with an empty value and the flag set; it marks a deletion.
//! Records are immutable once created.  Timestamps come from the caller, as
//! the clock lives outside the verified core.

use vstd::prelude::*;

verus! {

/// The mathematical shape of a record.
pub ghost struct RecordModel {
    pub key: Seq<u8>,
    pub value: Seq<u8>,
    pub timestamp: u128,
    pub is_deleted: bool,
}

/// The unit of write: key, value, creation timestamp and tombstone flag.
#[derive(Debug, Clone)]
pub struct LogRecord {
    pub key: Vec<u8>,
    pub value: Vec<u8>,
    pub timestamp: u128,
    pub is_deleted: bool,
}

impl View for LogRecord {
    type V = RecordModel;

    open spec fn view(&self) -> RecordModel {
        RecordModel {
            key: self.key@,
            value: self.value@,
            timestamp: self.timestamp,
            is_deleted: self.is_deleted,
        }
    }
}

impl LogRecord {
    /// A live record for `key` with `value`, stamped `timestamp`.
    pub fn new(key: Vec<u8>, value: Vec<u8>, timestamp: u128) -> (r: LogRecord)
        ensures
            r@ == (RecordModel { key: key@, value: value@, timestamp, is_deleted: false }),
    {
        LogRecord { key, value, timestamp, is_deleted: false }
    }

    /// An exact copy of the record.
    pub fn duplicate(&self) -> (r: LogRecord)
        ensures
            r@ == self@,
    {
        LogRecord {
            key: vstd::slice::slice_to_vec(self.key.as_slice()),
            value: vstd::slice::slice_to_vec(self.value.as_slice()),
            timestamp: self.timestamp,
            is_deleted: self.is_deleted,
        }
    }

    /// A tombstone for `key`, stamped `timestamp`: empty value, flag set.
    pub fn tombstone(key: Vec<u8>, timestamp: u128) -> (r: LogRecord)
        ensures
            r@ == (RecordModel {
                key: key@,
                value: Seq::<u8>::empty(),
                timestamp,
                is_deleted: true,
            }),
    {
        let value: Vec<u8> = Vec::new();
        LogRecord { key, value, timestamp, is_deleted: true }
    }
}

} // verus!
