//! Block compression, through `lz4_flex`.
//!
//! Every data block and the metadata block of a sorted-run file are stored
//! as the size-prepended LZ4 compression of their byte image.  The two
//! results are named abstractly: `lz4_packed` for what compression emits,
//! `lz4_unpacked` for what decompression makes of a byte string, with the
//! round trip stated where compression runs.

use vstd::prelude::*;

verus! {

/// The size-prepended LZ4 compression of `data`: a function of the bytes
/// alone.
pub uninterp spec fn lz4_packed(data: Seq<u8>) -> Seq<u8>;

/// What size-prepended LZ4 decompression makes of `data`: the recovered
/// bytes, or nothing when the frame is malformed.
pub uninterp spec fn lz4_unpacked(data: Seq<u8>) -> Option<Seq<u8>>;

/// Relies on `lz4_flex::compress_prepend_size`: deterministic compression
/// with the input length prepended as a little-endian `u32`, undone exactly
/// by `lz4_flex::decompress_size_prepended`; the output stays within the
/// documented worst-case bound.
#[verifier::external_body]
pub(crate) fn lz4_compress(input: &[u8]) -> (r: Vec<u8>)
    requires
        input@.len() <= u32::MAX,
    ensures
        r@ == lz4_packed(input@),
        lz4_unpacked(r@) == Option::Some(input@),
        r@.len() <= 20 + (input@.len() * 110) / 100,
{
    lz4_flex::compress_prepend_size(input)
}

/// Relies on `lz4_flex::decompress_size_prepended`: recovers exactly the
/// bytes a size-prepended frame encodes, or reports a malformed frame.
#[verifier::external_body]
pub(crate) fn lz4_decompress(input: &[u8]) -> (r: Option<Vec<u8>>)
    ensures
        match r {
            Option::Some(v) => lz4_unpacked(input@) == Option::Some(v@),
            Option::None => lz4_unpacked(input@) is None,
        },
{
    lz4_flex::decompress_size_prepended(input).ok()
}

} // verus!
