//! Deterministic binary codec for records.
//!
//! Fixed-width little-endian integers throughout: a record is laid out as
//! `len(key): u64 | key | len(value): u64 | value | timestamp: u128 |
//! tombstone: u8` with the tombstone byte restricted to 0 or 1.  The same
//! input always yields the same bytes, and decoding inverts encoding
//! exactly; both directions are stated as spec-level functions that the
//! executable code is proved to match.

use vstd::bytes::*;
use vstd::prelude::*;
use vstd::slice::{slice_subrange, slice_to_vec};

use crate::error::{LsmError, Result};
use crate::record::{LogRecord, RecordModel};

verus! {

/// The byte image of a record.
pub open spec fn spec_encode_record(r: RecordModel) -> Seq<u8> {
    spec_u64_to_le_bytes(r.key.len() as u64) + r.key + spec_u64_to_le_bytes(r.value.len() as u64)
        + r.value + spec_u128_to_le_bytes(r.timestamp) + seq![
        if r.is_deleted {
            1u8
        } else {
            0u8
        },
    ]
}

/// What a byte string decodes to: the record, or nothing if the bytes are
/// not a well-formed record image.
pub open spec fn spec_decode_record(d: Seq<u8>) -> Option<RecordModel> {
    if d.len() < 8 {
        Option::None
    } else {
        let klen = spec_u64_from_le_bytes(d.subrange(0, 8)) as int;
        if d.len() < 16 + klen {
            Option::None
        } else {
            let key = d.subrange(8, 8 + klen);
            let vlen = spec_u64_from_le_bytes(d.subrange(8 + klen, 16 + klen)) as int;
            if d.len() != 33 + klen + vlen {
                Option::None
            } else {
                let value = d.subrange(16 + klen, 16 + klen + vlen);
                let ts = spec_u128_from_le_bytes(
                    d.subrange(16 + klen + vlen, 32 + klen + vlen),
                );
                let flag = d[d.len() - 1];
                if flag == 0 {
                    Option::Some(
                        RecordModel { key, value, timestamp: ts, is_deleted: false },
                    )
                } else if flag == 1 {
                    Option::Some(RecordModel { key, value, timestamp: ts, is_deleted: true })
                } else {
                    Option::None
                }
            }
        }
    }
}

/// Decoding inverts encoding: every record round-trips through the codec.
pub proof fn lemma_record_round_trip(r: RecordModel)
    requires
        r.key.len() <= u64::MAX,
        r.value.len() <= u64::MAX,
    ensures
        spec_decode_record(spec_encode_record(r)) == Option::Some(r),
{
    lemma_auto_spec_u64_to_from_le_bytes();
    lemma_auto_spec_u128_to_from_le_bytes();
    let d = spec_encode_record(r);
    let klen = r.key.len() as int;
    let vlen = r.value.len() as int;
    assert(d.len() == 33 + klen + vlen);
    assert(d.subrange(0, 8) =~= spec_u64_to_le_bytes(r.key.len() as u64));
    assert(spec_u64_from_le_bytes(d.subrange(0, 8)) as int == klen);
    assert(d.subrange(8, 8 + klen) =~= r.key);
    assert(d.subrange(8 + klen, 16 + klen) =~= spec_u64_to_le_bytes(r.value.len() as u64));
    assert(spec_u64_from_le_bytes(d.subrange(8 + klen, 16 + klen)) as int == vlen);
    assert(d.subrange(16 + klen, 16 + klen + vlen) =~= r.value);
    assert(d.subrange(16 + klen + vlen, 32 + klen + vlen) =~= spec_u128_to_le_bytes(r.timestamp));
    assert(d[d.len() - 1] == if r.is_deleted { 1u8 } else { 0u8 });
}

/// Appends a byte slice to a vector.
pub fn push_bytes(out: &mut Vec<u8>, s: &[u8])
    ensures
        final(out)@ == old(out)@ + s@,
{
    let mut i: usize = 0;
    while i < s.len()
        invariant
            0 <= i <= s@.len(),
            out@ == old(out)@ + s@.subrange(0, i as int),
        decreases s@.len() - i,
    {
        out.push(s[i]);
        proof {
            assert(old(out)@ + s@.subrange(0, i + 1) =~= (old(out)@ + s@.subrange(0, i as int)).push(
                s@[i as int],
            ));
        }
        i = i + 1;
    }
    proof {
        assert(s@.subrange(0, s@.len() as int) =~= s@);
    }
}

/// Appends a `u64` in little-endian order.
pub fn push_u64_le(out: &mut Vec<u8>, x: u64)
    ensures
        final(out)@ == old(out)@ + spec_u64_to_le_bytes(x),
{
    let bytes = u64_to_le_bytes(x);
    push_bytes(out, bytes.as_slice());
}

/// Appends a `u32` in little-endian order.
pub fn push_u32_le(out: &mut Vec<u8>, x: u32)
    ensures
        final(out)@ == old(out)@ + spec_u32_to_le_bytes(x),
{
    let bytes = u32_to_le_bytes(x);
    push_bytes(out, bytes.as_slice());
}

/// Appends a `u16` in little-endian order.
pub fn push_u16_le(out: &mut Vec<u8>, x: u16)
    ensures
        final(out)@ == old(out)@ + spec_u16_to_le_bytes(x),
{
    let bytes = u16_to_le_bytes(x);
    push_bytes(out, bytes.as_slice());
}

/// Appends a `u128` in little-endian order.
pub fn push_u128_le(out: &mut Vec<u8>, x: u128)
    ensures
        final(out)@ == old(out)@ + spec_u128_to_le_bytes(x),
{
    let bytes = u128_to_le_bytes(x);
    push_bytes(out, bytes.as_slice());
}

/// Serializes a record to its byte image.
pub fn encode_record(r: &LogRecord) -> (out: Vec<u8>)
    ensures
        out@ == spec_encode_record(r@),
{
    let mut out: Vec<u8> = Vec::new();
    push_u64_le(&mut out, r.key.len() as u64);
    push_bytes(&mut out, r.key.as_slice());
    push_u64_le(&mut out, r.value.len() as u64);
    push_bytes(&mut out, r.value.as_slice());
    push_u128_le(&mut out, r.timestamp);
    out.push(if r.is_deleted { 1u8 } else { 0u8 });
    proof {
        assert(out@ =~= spec_encode_record(r@));
    }
    out
}

/// Parses a byte string back into a record; fails exactly on the byte
/// strings that are no record image.
pub fn decode_record(d: &[u8]) -> (out: Result<LogRecord>)
    ensures
        match out {
            Ok(r) => spec_decode_record(d@) == Option::Some(r@),
            Err(e) => spec_decode_record(d@) is None && e == LsmError::Serialization(
                "record bytes do not parse",
            ),
        },
{
    proof {
        lemma_auto_spec_u64_to_from_le_bytes();
        lemma_auto_spec_u128_to_from_le_bytes();
    }
    let len: usize = d.len();
    if len < 8 {
        return Err(LsmError::Serialization("record bytes do not parse"));
    }
    let klen64 = u64_from_le_bytes(slice_subrange(d, 0, 8));
    if klen64 > (len as u64) || (len as u64) - klen64 < 16 {
        return Err(LsmError::Serialization("record bytes do not parse"));
    }
    let klen = klen64 as usize;
    let key = slice_subrange(d, 8, 8 + klen);
    let vlen64 = u64_from_le_bytes(slice_subrange(d, 8 + klen, 16 + klen));
    let remaining = (len as u64) - klen64 - 16;
    if vlen64 > remaining || remaining - vlen64 != 17 {
        return Err(LsmError::Serialization("record bytes do not parse"));
    }
    let vlen = vlen64 as usize;
    let value = slice_subrange(d, 16 + klen, 16 + klen + vlen);
    let ts = u128_from_le_bytes(slice_subrange(d, 16 + klen + vlen, 32 + klen + vlen));
    let flag = d[len - 1];
    if flag == 0 {
        Ok(
            LogRecord {
                key: slice_to_vec(key),
                value: slice_to_vec(value),
                timestamp: ts,
                is_deleted: false,
            },
        )
    } else if flag == 1 {
        Ok(
            LogRecord {
                key: slice_to_vec(key),
                value: slice_to_vec(value),
                timestamp: ts,
                is_deleted: true,
            },
        )
    } else {
        Err(LsmError::Serialization("record bytes do not parse"))
    }
}

} // verus!
