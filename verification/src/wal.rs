//! The write-ahead-log byte format.
//!
//! The log is a single append-only file: a plain concatenation of frames,
//! one per record, each `length: u32 LE | codec(record)`.  An empty log is
//! valid.  Recovery parses the whole image front to back and fails on any
//! irregularity: a frame length of zero or above the sanity ceiling, a
//! truncated length prefix or payload, or a payload that is no record
//! image.  The embedding shell appends frames, syncs the file, reads the
//! image back at startup, and truncates it after a successful flush; every
//! byte written or judged comes from this module.

use vstd::bytes::*;
use vstd::prelude::*;
use vstd::slice::slice_subrange;

use crate::codec::{
    decode_record, encode_record, push_bytes, push_u32_le, spec_decode_record, spec_encode_record,
};
use crate::error::{LsmError, Result};
use crate::record::{LogRecord, RecordModel};

verus! {

/// Sanity ceiling on one frame's payload: 32 MiB.
pub const MAX_WAL_RECORD_BYTES: u32 = 0x2000000;

/// The frame of one record.
pub open spec fn spec_frame(r: RecordModel) -> Seq<u8> {
    spec_u32_to_le_bytes(spec_encode_record(r).len() as u32) + spec_encode_record(r)
}

/// A record small enough for its frame to parse back.
pub open spec fn frameable(r: RecordModel) -> bool {
    0 < spec_encode_record(r).len() <= MAX_WAL_RECORD_BYTES
}

/// The byte image of a whole log: the frames of `rs`, in order.
pub open spec fn spec_wal_bytes(rs: Seq<RecordModel>) -> Seq<u8>
    decreases rs.len(),
{
    if rs.len() == 0 {
        Seq::<u8>::empty()
    } else {
        spec_frame(rs[0]) + spec_wal_bytes(rs.skip(1))
    }
}

/// What a log image parses back to: the records in written order, or
/// nothing if the image is corrupted.
pub open spec fn spec_wal_parse(d: Seq<u8>) -> Option<Seq<RecordModel>>
    decreases d.len(),
{
    if d.len() == 0 {
        Option::Some(Seq::<RecordModel>::empty())
    } else if d.len() < 4 {
        Option::None
    } else {
        let flen = spec_u32_from_le_bytes(d.subrange(0, 4)) as int;
        if flen == 0 || flen > MAX_WAL_RECORD_BYTES {
            Option::None
        } else if d.len() < 4 + flen {
            Option::None
        } else {
            match spec_decode_record(d.subrange(4, 4 + flen)) {
                Option::None => Option::None,
                Option::Some(r) => match spec_wal_parse(d.skip(4 + flen)) {
                    Option::None => Option::None,
                    Option::Some(rest) => Option::Some(seq![r] + rest),
                },
            }
        }
    }
}

/// Recovery inverts writing: the concatenated frames of any sequence of
/// small-enough records parse back to exactly those records.
pub proof fn lemma_wal_round_trip(rs: Seq<RecordModel>)
    requires
        forall|i: int| 0 <= i < rs.len() ==> frameable(#[trigger] rs[i]),
        forall|i: int|
            0 <= i < rs.len() ==> (#[trigger] rs[i]).key.len() <= u64::MAX && rs[i].value.len()
                <= u64::MAX,
    ensures
        spec_wal_parse(spec_wal_bytes(rs)) == Option::Some(rs),
    decreases rs.len(),
{
    lemma_auto_spec_u32_to_from_le_bytes();
    if rs.len() == 0 {
        assert(spec_wal_bytes(rs).len() == 0);
        assert(Option::Some(Seq::<RecordModel>::empty()) == Option::Some(rs)) by {
            assert(rs =~= Seq::<RecordModel>::empty());
        }
    } else {
        let d = spec_wal_bytes(rs);
        let r = rs[0];
        let body = spec_encode_record(r);
        let flen = body.len() as int;
        assert(d =~= spec_frame(r) + spec_wal_bytes(rs.skip(1)));
        assert(d.len() >= 4 + flen);
        assert(d.subrange(0, 4) =~= spec_u32_to_le_bytes(flen as u32));
        assert(spec_u32_from_le_bytes(d.subrange(0, 4)) as int == flen);
        assert(d.subrange(4, 4 + flen) =~= body);
        crate::codec::lemma_record_round_trip(r);
        assert(spec_decode_record(body) == Option::Some(r));
        assert(d.skip(4 + flen) =~= spec_wal_bytes(rs.skip(1)));
        assert forall|i: int| 0 <= i < rs.skip(1).len() implies frameable(#[trigger] rs.skip(1)[i])
            && rs.skip(1)[i].key.len() <= u64::MAX && rs.skip(1)[i].value.len() <= u64::MAX by {
            assert(rs.skip(1)[i] == rs[i + 1]);
        }
        lemma_wal_round_trip(rs.skip(1));
        assert(seq![r] + rs.skip(1) =~= rs);
    }
}

/// Cutting the last byte off a non-empty log leaves an image that no longer
/// parses: truncation is detected.
pub proof fn lemma_wal_truncation_detected(rs: Seq<RecordModel>)
    requires
        rs.len() > 0,
        forall|i: int| 0 <= i < rs.len() ==> frameable(#[trigger] rs[i]),
        forall|i: int|
            0 <= i < rs.len() ==> (#[trigger] rs[i]).key.len() <= u64::MAX && rs[i].value.len()
                <= u64::MAX,
    ensures
        spec_wal_parse(
            spec_wal_bytes(rs).subrange(0, spec_wal_bytes(rs).len() - 1),
        ) is None,
    decreases rs.len(),
{
    lemma_auto_spec_u32_to_from_le_bytes();
    let d = spec_wal_bytes(rs);
    let cut = d.subrange(0, d.len() - 1);
    let r = rs[0];
    let body = spec_encode_record(r);
    let flen = body.len() as int;
    assert(d =~= spec_frame(r) + spec_wal_bytes(rs.skip(1)));
    assert forall|i: int| 0 <= i < rs.skip(1).len() implies frameable(#[trigger] rs.skip(1)[i])
        && rs.skip(1)[i].key.len() <= u64::MAX && rs.skip(1)[i].value.len() <= u64::MAX by {
        assert(rs.skip(1)[i] == rs[i + 1]);
    }
    if rs.len() == 1 {
        assert(spec_wal_bytes(rs.skip(1)).len() == 0);
        assert(d.len() == 4 + flen);
        assert(cut.len() == 4 + flen - 1);
        if cut.len() < 4 {
            assert(cut.len() > 0);
        } else {
            assert(cut.subrange(0, 4) =~= d.subrange(0, 4));
            assert(d.subrange(0, 4) =~= spec_u32_to_le_bytes(flen as u32));
            assert(spec_u32_from_le_bytes(cut.subrange(0, 4)) as int == flen);
            assert(cut.len() < 4 + flen);
        }
    } else {
        assert(spec_wal_bytes(rs.skip(1)).len() > 0) by {
            assert(spec_wal_bytes(rs.skip(1)) =~= spec_frame(rs.skip(1)[0]) + spec_wal_bytes(
                rs.skip(1).skip(1),
            ));
            assert(spec_frame(rs.skip(1)[0]).len() > 0);
        }
        assert(cut.len() >= 4 + flen);
        assert(cut.subrange(0, 4) =~= d.subrange(0, 4));
        assert(d.subrange(0, 4) =~= spec_u32_to_le_bytes(flen as u32));
        assert(spec_u32_from_le_bytes(cut.subrange(0, 4)) as int == flen);
        assert(cut.subrange(4, 4 + flen) =~= d.subrange(4, 4 + flen));
        assert(d.subrange(4, 4 + flen) =~= body);
        crate::codec::lemma_record_round_trip(r);
        lemma_wal_truncation_detected(rs.skip(1));
        assert(cut.skip(4 + flen) =~= spec_wal_bytes(rs.skip(1)).subrange(
            0,
            spec_wal_bytes(rs.skip(1)).len() - 1,
        ));
    }
}

/// The codec image of a record is its key, its value, and 33 bytes of
/// lengths, timestamp and flag.
pub proof fn lemma_encoded_record_len(r: RecordModel)
    ensures
        spec_encode_record(r).len() == 33 + r.key.len() + r.value.len(),
{
    vstd::bytes::lemma_auto_spec_u64_to_from_le_bytes();
    vstd::bytes::lemma_auto_spec_u128_to_from_le_bytes();
}

/// Serializes one record as a log frame.
pub fn frame_record(record: &LogRecord) -> (out: Vec<u8>)
    requires
        record.key@.len() + record.value@.len() + 33 <= u32::MAX,
    ensures
        out@ == spec_frame(record@),
        out@.len() == 37 + record.key@.len() + record.value@.len(),
        record.key@.len() + record.value@.len() + 33 <= MAX_WAL_RECORD_BYTES ==> frameable(
            record@,
        ),
{
    proof {
        lemma_encoded_record_len(record@);
        lemma_auto_spec_u32_to_from_le_bytes();
    }
    let body = encode_record(record);
    let mut out: Vec<u8> = Vec::new();
    push_u32_le(&mut out, body.len() as u32);
    push_bytes(&mut out, body.as_slice());
    out
}

/// Parses a whole log image back into its records, front to back; fails
/// with log corruption on exactly the images that no record sequence
/// explains.
pub fn recover_records(d: &[u8]) -> (out: Result<Vec<LogRecord>>)
    ensures
        match out {
            Ok(rs) => {
                &&& spec_wal_parse(d@) is Some
                &&& spec_wal_parse(d@).unwrap() =~= rs@.map_values(|r: LogRecord| r@)
            },
            Err(e) => spec_wal_parse(d@) is None && e == LsmError::WalCorruption,
        },
{
    proof {
        lemma_auto_spec_u32_to_from_le_bytes();
    }
    let mut records: Vec<LogRecord> = Vec::new();
    let mut pos: usize = 0;
    let len: usize = d.len();
    proof {
        assert(d@.skip(0) =~= d@);
        if let Option::Some(rest) = spec_wal_parse(d@) {
            assert(records@.map_values(|r: LogRecord| r@) + rest =~= rest);
        }
    }
    while pos < len
        invariant
            0 <= pos <= len,
            len == d@.len(),
            spec_wal_parse(d@) == match spec_wal_parse(d@.skip(pos as int)) {
                Option::Some(rest) => Option::Some(
                    records@.map_values(|r: LogRecord| r@) + rest,
                ),
                Option::None => Option::<Seq<RecordModel>>::None,
            },
        decreases len - pos,
    {
        let ghost tail = d@.skip(pos as int);
        if len - pos < 4 {
            proof {
                assert(spec_wal_parse(tail) is None);
            }
            return Err(LsmError::WalCorruption);
        }
        let flen32 = u32_from_le_bytes(slice_subrange(d, pos, pos + 4));
        proof {
            assert(tail.subrange(0, 4) =~= d@.subrange(pos as int, pos + 4));
        }
        if flen32 == 0 || flen32 > MAX_WAL_RECORD_BYTES {
            proof {
                assert(spec_wal_parse(tail) is None);
            }
            return Err(LsmError::WalCorruption);
        }
        let flen = flen32 as usize;
        if len - pos - 4 < flen {
            proof {
                assert(tail.len() < 4 + flen);
                assert(spec_wal_parse(tail) is None);
            }
            return Err(LsmError::WalCorruption);
        }
        let payload = slice_subrange(d, pos + 4, pos + 4 + flen);
        proof {
            assert(payload@ =~= tail.subrange(4, 4 + flen));
        }
        match decode_record(payload) {
            Ok(rec) => {
                let ghost prev = records@;
                records.push(rec);
                proof {
                    assert(tail.skip(4 + flen) =~= d@.skip(pos + 4 + flen));
                    assert(spec_wal_parse(tail) == match spec_wal_parse(d@.skip(pos + 4 + flen)) {
                        Option::Some(rest) => Option::Some(seq![rec@] + rest),
                        Option::None => Option::<Seq<RecordModel>>::None,
                    });
                    if let Option::Some(rest) = spec_wal_parse(d@.skip(pos + 4 + flen)) {
                        assert(prev.map_values(|r: LogRecord| r@) + (seq![rec@] + rest)
                            =~= records@.map_values(|r: LogRecord| r@) + rest);
                    }
                }
                pos = pos + 4 + flen;
            },
            Err(_) => {
                proof {
                    assert(spec_decode_record(tail.subrange(4, 4 + flen)) is None);
                    assert(spec_wal_parse(tail) is None);
                }
                return Err(LsmError::WalCorruption);
            },
        }
    }
    proof {
        assert(d@.skip(len as int).len() == 0);
        assert(spec_wal_parse(d@.skip(len as int)) == Option::Some(Seq::<RecordModel>::empty()));
        assert(records@.map_values(|r: LogRecord| r@) + Seq::<RecordModel>::empty()
            =~= records@.map_values(|r: LogRecord| r@));
    }
    Ok(records)
}

} // verus!
