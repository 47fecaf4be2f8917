//! Metadata of a sorted-run file: the sparse index and the run summary.
//!
//! Each data block is described by a `BlockMeta` — its first key, its byte
//! offset in the file, its compressed and uncompressed sizes.  The
//! `MetaBlock` gathers the sparse index, the serialized membership filter,
//! the key range, the record count and the creation timestamp; it is
//! codec-encoded, compressed, and placed just before the footer.  The codec
//! here follows the record codec: fixed-width little-endian integers and
//! length-prefixed byte strings, with spec-level encoding and parsing
//! proved inverse.

use vstd::bytes::*;
use vstd::prelude::*;
use vstd::slice::{slice_subrange, slice_to_vec};

use crate::codec::{push_bytes, push_u128_le, push_u32_le, push_u64_le};
use crate::error::{LsmError, Result};

verus! {

/// The mathematical shape of one block's metadata.
pub ghost struct BlockMetaModel {
    pub first_key: Seq<u8>,
    pub offset: u64,
    pub size: u32,
    pub uncompressed_size: u32,
}

/// Sparse-index entry of one data block.
#[derive(Debug, Clone)]
pub struct BlockMeta {
    pub first_key: Vec<u8>,
    pub offset: u64,
    pub size: u32,
    pub uncompressed_size: u32,
}

impl View for BlockMeta {
    type V = BlockMetaModel;

    open spec fn view(&self) -> BlockMetaModel {
        BlockMetaModel {
            first_key: self.first_key@,
            offset: self.offset,
            size: self.size,
            uncompressed_size: self.uncompressed_size,
        }
    }
}

/// The mathematical shape of a run's metadata block.
pub ghost struct MetaBlockModel {
    pub blocks: Seq<BlockMetaModel>,
    pub bloom_filter_data: Seq<u8>,
    pub min_key: Seq<u8>,
    pub max_key: Seq<u8>,
    pub record_count: u64,
    pub timestamp: u128,
}

/// Metadata block of a sorted run: sparse index, serialized filter, key
/// range, record count, creation timestamp.
#[derive(Debug, Clone)]
pub struct MetaBlock {
    pub blocks: Vec<BlockMeta>,
    pub bloom_filter_data: Vec<u8>,
    pub min_key: Vec<u8>,
    pub max_key: Vec<u8>,
    pub record_count: u64,
    pub timestamp: u128,
}

impl View for MetaBlock {
    type V = MetaBlockModel;

    open spec fn view(&self) -> MetaBlockModel {
        MetaBlockModel {
            blocks: self.blocks@.map_values(|b: BlockMeta| b@),
            bloom_filter_data: self.bloom_filter_data@,
            min_key: self.min_key@,
            max_key: self.max_key@,
            record_count: self.record_count,
            timestamp: self.timestamp,
        }
    }
}

/// A length-prefixed byte string: `len: u64 LE | bytes`.
pub open spec fn spec_encode_bytes(b: Seq<u8>) -> Seq<u8> {
    spec_u64_to_le_bytes(b.len() as u64) + b
}

/// The byte image of one sparse-index entry.
pub open spec fn spec_encode_block_meta(m: BlockMetaModel) -> Seq<u8> {
    spec_encode_bytes(m.first_key) + spec_u64_to_le_bytes(m.offset) + spec_u32_to_le_bytes(m.size)
        + spec_u32_to_le_bytes(m.uncompressed_size)
}

/// The byte image of a list of sparse-index entries, in order.
pub open spec fn spec_encode_block_metas(ms: Seq<BlockMetaModel>) -> Seq<u8>
    decreases ms.len(),
{
    if ms.len() == 0 {
        Seq::<u8>::empty()
    } else {
        spec_encode_block_meta(ms[0]) + spec_encode_block_metas(ms.skip(1))
    }
}

/// The byte image of a whole metadata block.
pub open spec fn spec_encode_meta_block(m: MetaBlockModel) -> Seq<u8> {
    spec_u64_to_le_bytes(m.blocks.len() as u64) + spec_encode_block_metas(m.blocks)
        + spec_encode_bytes(m.bloom_filter_data) + spec_encode_bytes(m.min_key)
        + spec_encode_bytes(m.max_key) + spec_u64_to_le_bytes(m.record_count)
        + spec_u128_to_le_bytes(m.timestamp)
}

/// Parses one length-prefixed byte string; yields it and the rest of the
/// stream.
pub open spec fn spec_parse_bytes(d: Seq<u8>) -> Option<(Seq<u8>, Seq<u8>)> {
    if d.len() < 8 {
        Option::None
    } else {
        let blen = spec_u64_from_le_bytes(d.subrange(0, 8)) as int;
        if d.len() < 8 + blen {
            Option::None
        } else {
            Option::Some((d.subrange(8, 8 + blen), d.skip(8 + blen)))
        }
    }
}

/// Parses one sparse-index entry; yields it and the rest of the stream.
pub open spec fn spec_parse_block_meta(d: Seq<u8>) -> Option<(BlockMetaModel, Seq<u8>)> {
    match spec_parse_bytes(d) {
        Option::None => Option::None,
        Option::Some((first_key, rest)) => {
            if rest.len() < 16 {
                Option::None
            } else {
                Option::Some(
                    (
                        BlockMetaModel {
                            first_key,
                            offset: spec_u64_from_le_bytes(rest.subrange(0, 8)),
                            size: spec_u32_from_le_bytes(rest.subrange(8, 12)),
                            uncompressed_size: spec_u32_from_le_bytes(rest.subrange(12, 16)),
                        },
                        rest.skip(16),
                    ),
                )
            }
        },
    }
}

/// Parses `n` sparse-index entries; yields them and the rest of the stream.
pub open spec fn spec_parse_block_metas(d: Seq<u8>, n: nat) -> Option<
    (Seq<BlockMetaModel>, Seq<u8>),
>
    decreases n,
{
    if n == 0 {
        Option::Some((Seq::<BlockMetaModel>::empty(), d))
    } else {
        match spec_parse_block_meta(d) {
            Option::None => Option::None,
            Option::Some((m, rest)) => match spec_parse_block_metas(rest, (n - 1) as nat) {
                Option::None => Option::None,
                Option::Some((ms, rest2)) => Option::Some((seq![m] + ms, rest2)),
            },
        }
    }
}

/// What a byte string parses back to as a metadata block, consuming it
/// exactly; or nothing if it is no metadata-block image.
pub open spec fn spec_parse_meta_block(d: Seq<u8>) -> Option<MetaBlockModel> {
    if d.len() < 8 {
        Option::None
    } else {
        let n = spec_u64_from_le_bytes(d.subrange(0, 8));
        match spec_parse_block_metas(d.skip(8), n as nat) {
            Option::None => Option::None,
            Option::Some((blocks, r1)) => match spec_parse_bytes(r1) {
                Option::None => Option::None,
                Option::Some((bloom, r2)) => match spec_parse_bytes(r2) {
                    Option::None => Option::None,
                    Option::Some((min_key, r3)) => match spec_parse_bytes(r3) {
                        Option::None => Option::None,
                        Option::Some((max_key, r4)) => {
                            if r4.len() != 24 {
                                Option::None
                            } else {
                                Option::Some(
                                    MetaBlockModel {
                                        blocks,
                                        bloom_filter_data: bloom,
                                        min_key,
                                        max_key,
                                        record_count: spec_u64_from_le_bytes(r4.subrange(0, 8)),
                                        timestamp: spec_u128_from_le_bytes(r4.subrange(8, 24)),
                                    },
                                )
                            }
                        },
                    },
                },
            },
        }
    }
}

/// Parsing a length-prefixed byte string undoes encoding it, whatever
/// follows.
pub proof fn lemma_parse_bytes_round_trip(b: Seq<u8>, rest: Seq<u8>)
    requires
        b.len() <= u64::MAX,
    ensures
        spec_parse_bytes(spec_encode_bytes(b) + rest) matches Option::Some(p) && p.0 == b && p.1
            == rest,
{
    lemma_auto_spec_u64_to_from_le_bytes();
    let d = spec_encode_bytes(b) + rest;
    assert(d.subrange(0, 8) =~= spec_u64_to_le_bytes(b.len() as u64));
    assert(d.subrange(8, 8 + b.len() as int) =~= b);
    assert(d.skip(8 + b.len() as int) =~= rest);
}

/// Parsing one sparse-index entry undoes encoding it, whatever follows.
pub proof fn lemma_parse_block_meta_round_trip(m: BlockMetaModel, rest: Seq<u8>)
    requires
        m.first_key.len() <= u64::MAX,
    ensures
        spec_parse_block_meta(spec_encode_block_meta(m) + rest) matches Option::Some(p) && p.0 == m
            && p.1 == rest,
{
    lemma_auto_spec_u64_to_from_le_bytes();
    lemma_auto_spec_u32_to_from_le_bytes();
    let tail = spec_u64_to_le_bytes(m.offset) + spec_u32_to_le_bytes(m.size)
        + spec_u32_to_le_bytes(m.uncompressed_size) + rest;
    assert(spec_encode_block_meta(m) + rest =~= spec_encode_bytes(m.first_key) + tail);
    lemma_parse_bytes_round_trip(m.first_key, tail);
    assert(tail.subrange(0, 8) =~= spec_u64_to_le_bytes(m.offset));
    assert(tail.subrange(8, 12) =~= spec_u32_to_le_bytes(m.size));
    assert(tail.subrange(12, 16) =~= spec_u32_to_le_bytes(m.uncompressed_size));
    assert(tail.skip(16) =~= rest);
}

/// Parsing a list of sparse-index entries undoes encoding it, whatever
/// follows.
pub proof fn lemma_parse_block_metas_round_trip(ms: Seq<BlockMetaModel>, rest: Seq<u8>)
    requires
        forall|i: int| 0 <= i < ms.len() ==> (#[trigger] ms[i]).first_key.len() <= u64::MAX,
    ensures
        spec_parse_block_metas(spec_encode_block_metas(ms) + rest, ms.len()) matches Option::Some(
            p,
        ) && p.0 == ms && p.1 == rest,
    decreases ms.len(),
{
    if ms.len() == 0 {
        assert(spec_encode_block_metas(ms) + rest =~= rest);
        assert(spec_parse_block_metas(rest, 0) matches Option::Some(p) && p.0
            =~= Seq::<BlockMetaModel>::empty() && p.1 == rest);
        assert(ms =~= Seq::<BlockMetaModel>::empty());
    } else {
        let tail = spec_encode_block_metas(ms.skip(1)) + rest;
        assert(spec_encode_block_metas(ms) + rest =~= spec_encode_block_meta(ms[0]) + tail);
        lemma_parse_block_meta_round_trip(ms[0], tail);
        assert forall|i: int| 0 <= i < ms.skip(1).len() implies (#[trigger] ms.skip(
            1,
        )[i]).first_key.len() <= u64::MAX by {
            assert(ms.skip(1)[i] == ms[i + 1]);
        }
        lemma_parse_block_metas_round_trip(ms.skip(1), rest);
        assert(seq![ms[0]] + ms.skip(1) =~= ms);
    }
}

/// Parsing a metadata block undoes encoding it: the codec round-trips.
pub proof fn lemma_meta_block_round_trip(m: MetaBlockModel)
    requires
        m.blocks.len() <= u64::MAX,
        forall|i: int| 0 <= i < m.blocks.len() ==> (#[trigger] m.blocks[i]).first_key.len()
            <= u64::MAX,
        m.bloom_filter_data.len() <= u64::MAX,
        m.min_key.len() <= u64::MAX,
        m.max_key.len() <= u64::MAX,
    ensures
        spec_parse_meta_block(spec_encode_meta_block(m)) == Option::Some(m),
{
    lemma_auto_spec_u64_to_from_le_bytes();
    lemma_auto_spec_u128_to_from_le_bytes();
    let d = spec_encode_meta_block(m);
    let after_count = spec_encode_block_metas(m.blocks) + spec_encode_bytes(m.bloom_filter_data)
        + spec_encode_bytes(m.min_key) + spec_encode_bytes(m.max_key) + spec_u64_to_le_bytes(
        m.record_count,
    ) + spec_u128_to_le_bytes(m.timestamp);
    assert(d =~= spec_u64_to_le_bytes(m.blocks.len() as u64) + after_count);
    assert(d.subrange(0, 8) =~= spec_u64_to_le_bytes(m.blocks.len() as u64));
    assert(d.skip(8) =~= after_count);
    let rest1 = spec_encode_bytes(m.bloom_filter_data) + spec_encode_bytes(m.min_key)
        + spec_encode_bytes(m.max_key) + spec_u64_to_le_bytes(m.record_count)
        + spec_u128_to_le_bytes(m.timestamp);
    assert(after_count =~= spec_encode_block_metas(m.blocks) + rest1);
    lemma_parse_block_metas_round_trip(m.blocks, rest1);
    let rest2 = spec_encode_bytes(m.min_key) + spec_encode_bytes(m.max_key)
        + spec_u64_to_le_bytes(m.record_count) + spec_u128_to_le_bytes(m.timestamp);
    assert(rest1 =~= spec_encode_bytes(m.bloom_filter_data) + rest2);
    lemma_parse_bytes_round_trip(m.bloom_filter_data, rest2);
    let rest3 = spec_encode_bytes(m.max_key) + spec_u64_to_le_bytes(m.record_count)
        + spec_u128_to_le_bytes(m.timestamp);
    assert(rest2 =~= spec_encode_bytes(m.min_key) + rest3);
    lemma_parse_bytes_round_trip(m.min_key, rest3);
    let rest4 = spec_u64_to_le_bytes(m.record_count) + spec_u128_to_le_bytes(m.timestamp);
    assert(rest3 =~= spec_encode_bytes(m.max_key) + rest4);
    lemma_parse_bytes_round_trip(m.max_key, rest4);
    assert(rest4.len() == 24);
    assert(rest4.subrange(0, 8) =~= spec_u64_to_le_bytes(m.record_count));
    assert(rest4.subrange(8, 24) =~= spec_u128_to_le_bytes(m.timestamp));
}


/// The byte length of the sparse-index list's image: 24 bytes plus the
/// first key, per entry.
pub open spec fn spec_block_metas_len(ms: Seq<BlockMetaModel>) -> int
    decreases ms.len(),
{
    if ms.len() == 0 {
        0
    } else {
        24 + ms[0].first_key.len() + spec_block_metas_len(ms.skip(1))
    }
}

/// The sparse-index image is exactly that long.
pub proof fn lemma_block_metas_len(ms: Seq<BlockMetaModel>)
    ensures
        spec_encode_block_metas(ms).len() == spec_block_metas_len(ms),
    decreases ms.len(),
{
    lemma_auto_spec_u64_to_from_le_bytes();
    lemma_auto_spec_u32_to_from_le_bytes();
    if ms.len() > 0 {
        lemma_block_metas_len(ms.skip(1));
    }
}

/// Appending one entry adds 24 bytes plus its first key.
pub proof fn lemma_block_metas_len_snoc(ms: Seq<BlockMetaModel>, m: BlockMetaModel)
    ensures
        spec_block_metas_len(ms.push(m)) == spec_block_metas_len(ms) + 24 + m.first_key.len(),
{
    lemma_auto_spec_u64_to_from_le_bytes();
    lemma_auto_spec_u32_to_from_le_bytes();
    lemma_block_metas_len(ms.push(m));
    lemma_block_metas_len(ms);
    lemma_encode_block_metas_snoc(ms, m);
}

/// With every first key within its 16-bit encoding, the sparse-index
/// image stays within 65 559 bytes per entry.
pub proof fn lemma_block_metas_len_bound(ms: Seq<BlockMetaModel>)
    requires
        forall|i: int| 0 <= i < ms.len() ==> (#[trigger] ms[i]).first_key.len() <= 0xFFFF,
    ensures
        spec_block_metas_len(ms) <= ms.len() * 65559,
    decreases ms.len(),
{
    if ms.len() > 0 {
        assert forall|i: int| 0 <= i < ms.skip(1).len() implies (
        #[trigger] ms.skip(1)[i]).first_key.len() <= 0xFFFF by {
            assert(ms.skip(1)[i] == ms[i + 1]);
        }
        lemma_block_metas_len_bound(ms.skip(1));
    }
}

/// The byte length of a whole metadata-block image: 56 bytes of counts,
/// lengths and timestamp, plus the sparse index, the filter bytes and the
/// two range keys.
pub open spec fn spec_meta_block_len(m: MetaBlockModel) -> int {
    56 + spec_block_metas_len(m.blocks) + m.bloom_filter_data.len() + m.min_key.len()
        + m.max_key.len()
}

/// The metadata-block image is exactly that long.
pub proof fn lemma_meta_block_len(m: MetaBlockModel)
    ensures
        spec_encode_meta_block(m).len() == spec_meta_block_len(m),
{
    lemma_auto_spec_u64_to_from_le_bytes();
    lemma_auto_spec_u128_to_from_le_bytes();
    lemma_block_metas_len(m.blocks);
}

/// Serializes a metadata block.
pub fn encode_meta_block(m: &MetaBlock) -> (out: Vec<u8>)
    ensures
        out@ == spec_encode_meta_block(m@),
{
    let mut out: Vec<u8> = Vec::new();
    push_u64_le(&mut out, m.blocks.len() as u64);
    let ghost ms = m@.blocks;
    let mut i: usize = 0;
    while i < m.blocks.len()
        invariant
            0 <= i <= m.blocks@.len(),
            ms == m@.blocks,
            ms.len() == m.blocks@.len(),
            out@ == spec_u64_to_le_bytes(ms.len() as u64) + spec_encode_block_metas(
                ms.subrange(0, i as int),
            ),
        decreases m.blocks@.len() - i,
    {
        let bm = &m.blocks[i];
        push_u64_le(&mut out, bm.first_key.len() as u64);
        push_bytes(&mut out, bm.first_key.as_slice());
        push_u64_le(&mut out, bm.offset);
        push_u32_le(&mut out, bm.size);
        push_u32_le(&mut out, bm.uncompressed_size);
        proof {
            lemma_encode_block_metas_snoc(ms.subrange(0, i as int), ms[i as int]);
            assert(ms.subrange(0, i as int).push(ms[i as int]) =~= ms.subrange(0, i + 1));
            assert(out@ =~= spec_u64_to_le_bytes(ms.len() as u64) + spec_encode_block_metas(
                ms.subrange(0, i + 1),
            ));
        }
        i = i + 1;
    }
    proof {
        assert(ms.subrange(0, ms.len() as int) =~= ms);
    }
    push_u64_le(&mut out, m.bloom_filter_data.len() as u64);
    push_bytes(&mut out, m.bloom_filter_data.as_slice());
    push_u64_le(&mut out, m.min_key.len() as u64);
    push_bytes(&mut out, m.min_key.as_slice());
    push_u64_le(&mut out, m.max_key.len() as u64);
    push_bytes(&mut out, m.max_key.as_slice());
    push_u64_le(&mut out, m.record_count);
    push_u128_le(&mut out, m.timestamp);
    proof {
        assert(out@ =~= spec_encode_meta_block(m@));
    }
    out
}

/// Appending one entry to a list appends its image to the list's image.
pub proof fn lemma_encode_block_metas_snoc(ms: Seq<BlockMetaModel>, m: BlockMetaModel)
    ensures
        spec_encode_block_metas(ms.push(m)) =~= spec_encode_block_metas(ms)
            + spec_encode_block_meta(m),
    decreases ms.len(),
{
    if ms.len() == 0 {
        assert(ms.push(m)[0] == m);
        assert(ms.push(m).skip(1) =~= Seq::<BlockMetaModel>::empty());
        assert(spec_encode_block_metas(ms.push(m).skip(1)) =~= Seq::<u8>::empty());
        assert(spec_encode_block_metas(ms.push(m)) =~= spec_encode_block_meta(m));
        assert(spec_encode_block_metas(ms) =~= Seq::<u8>::empty());
    } else {
        assert(ms.push(m)[0] == ms[0]);
        assert(ms.push(m).skip(1) =~= ms.skip(1).push(m));
        lemma_encode_block_metas_snoc(ms.skip(1), m);
        assert(spec_encode_block_metas(ms.push(m)) =~= spec_encode_block_meta(ms[0]) + (
        spec_encode_block_metas(ms.skip(1)) + spec_encode_block_meta(m)));
    }
}

/// Parses a metadata block, consuming the whole byte string; fails exactly
/// on the byte strings that are no metadata-block image.
pub fn decode_meta_block(d: &[u8]) -> (out: Result<MetaBlock>)
    ensures
        match out {
            Ok(m) => spec_parse_meta_block(d@) == Option::Some(m@),
            Err(e) => spec_parse_meta_block(d@) is None && e == LsmError::Serialization(
                "metadata bytes do not parse",
            ),
        },
{
    proof {
        lemma_auto_spec_u64_to_from_le_bytes();
        lemma_auto_spec_u128_to_from_le_bytes();
        lemma_auto_spec_u32_to_from_le_bytes();
    }
    let err = LsmError::Serialization("metadata bytes do not parse");
    let len: usize = d.len();
    if len < 8 {
        return Err(err);
    }
    let n64 = u64_from_le_bytes(slice_subrange(d, 0, 8));
    let mut pos: usize = 8;
    let mut blocks: Vec<BlockMeta> = Vec::new();
    let ghost gn = n64 as nat;
    proof {
        assert(d@.skip(8) =~= d@.skip(pos as int));
    }
    let mut i: u64 = 0;
    while i < n64
        invariant
            0 <= i <= n64,
            8 <= pos <= len,
            len == d@.len(),
            gn == n64 as nat,
            err == LsmError::Serialization("metadata bytes do not parse"),
            d@.len() >= 8,
            gn == spec_u64_from_le_bytes(d@.subrange(0, 8)) as nat,
            blocks@.len() == i as int,
            spec_parse_block_metas(d@.skip(8), gn) == match spec_parse_block_metas(
                d@.skip(pos as int),
                (gn - i as nat) as nat,
            ) {
                Option::Some(p) => Option::Some(
                    (blocks@.map_values(|b: BlockMeta| b@) + p.0, p.1),
                ),
                Option::None => Option::<(Seq<BlockMetaModel>, Seq<u8>)>::None,
            },
        decreases n64 - i,
    {
        let ghost tail = d@.skip(pos as int);
        // One entry: length-prefixed first key, offset, two sizes.
        if len - pos < 8 {
            proof {
                assert(spec_parse_bytes(tail) is None);
                assert(spec_parse_block_metas(tail, (gn - i as nat) as nat) is None);
            }
            return Err(err);
        }
        let klen64 = u64_from_le_bytes(slice_subrange(d, pos, pos + 8));
        proof {
            assert(tail.subrange(0, 8) =~= d@.subrange(pos as int, pos + 8));
        }
        if klen64 > (len - pos - 8) as u64 {
            proof {
                assert(tail.len() < 8 + klen64);
                assert(spec_parse_bytes(tail) is None);
                assert(spec_parse_block_metas(tail, (gn - i as nat) as nat) is None);
            }
            return Err(err);
        }
        let klen = klen64 as usize;
        let first_key = slice_to_vec(slice_subrange(d, pos + 8, pos + 8 + klen));
        proof {
            assert(first_key@ =~= tail.subrange(8, 8 + klen));
            assert(spec_parse_bytes(tail) matches Option::Some(p) && p.0 == first_key@ && p.1 == tail.skip(
                8 + klen,
            ));
        }
        let after_key = pos + 8 + klen;
        if len - after_key < 16 {
            proof {
                assert(tail.skip(8 + klen) =~= d@.skip(after_key as int));
                assert(d@.skip(after_key as int).len() < 16);
                assert(spec_parse_block_meta(tail) is None);
                assert(spec_parse_block_metas(tail, (gn - i as nat) as nat) is None);
            }
            return Err(err);
        }
        let offset = u64_from_le_bytes(slice_subrange(d, after_key, after_key + 8));
        let size = u32_from_le_bytes(slice_subrange(d, after_key + 8, after_key + 12));
        let uncompressed_size = u32_from_le_bytes(
            slice_subrange(d, after_key + 12, after_key + 16),
        );
        let bm = BlockMeta { first_key, offset, size, uncompressed_size };
        let ghost prev = blocks@;
        blocks.push(bm);
        proof {
            let rest = tail.skip(8 + klen);
            assert(rest =~= d@.skip(after_key as int));
            assert(rest.subrange(0, 8) =~= d@.subrange(after_key as int, after_key + 8));
            assert(rest.subrange(8, 12) =~= d@.subrange(after_key + 8, after_key + 12));
            assert(rest.subrange(12, 16) =~= d@.subrange(after_key + 12, after_key + 16));
            assert(rest.skip(16) =~= d@.skip(after_key + 16));
            assert(spec_parse_block_meta(tail) matches Option::Some(p) && p.0 == bm@ && p.1 == d@.skip(
                after_key + 16,
            ));
            if let Option::Some(p2) = spec_parse_block_metas(
                d@.skip(after_key + 16),
                (gn - (i + 1) as nat) as nat,
            ) {
                assert(prev.map_values(|b: BlockMeta| b@) + (seq![bm@] + p2.0) =~= blocks@.map_values(
                    |b: BlockMeta| b@,
                ) + p2.0);
            }
        }
        pos = after_key + 16;
        i = i + 1;
    }
    proof {
        assert(spec_parse_block_metas(d@.skip(pos as int), 0) matches Option::Some(p) && p.0
            =~= Seq::<BlockMetaModel>::empty() && p.1 == d@.skip(pos as int));
        assert(blocks@.map_values(|b: BlockMeta| b@) + Seq::<BlockMetaModel>::empty()
            =~= blocks@.map_values(|b: BlockMeta| b@));
    }
    // Filter bytes, key range, count, timestamp.
    let (bloom_filter_data, pos2) = match read_bytes_field(d, pos) {
        Ok(p) => p,
        Err(e) => {
            return Err(err);
        },
    };
    let (min_key, pos3) = match read_bytes_field(d, pos2) {
        Ok(p) => p,
        Err(e) => {
            return Err(err);
        },
    };
    let (max_key, pos4) = match read_bytes_field(d, pos3) {
        Ok(p) => p,
        Err(e) => {
            return Err(err);
        },
    };
    if len - pos4 != 24 {
        return Err(err);
    }
    let record_count = u64_from_le_bytes(slice_subrange(d, pos4, pos4 + 8));
    let timestamp = u128_from_le_bytes(slice_subrange(d, pos4 + 8, pos4 + 24));
    proof {
        assert(d@.skip(pos4 as int).subrange(0, 8) =~= d@.subrange(pos4 as int, pos4 + 8));
        assert(d@.skip(pos4 as int).subrange(8, 24) =~= d@.subrange(pos4 + 8, pos4 + 24));
    }
    Ok(MetaBlock { blocks, bloom_filter_data, min_key, max_key, record_count, timestamp })
}

/// Reads one length-prefixed byte string at `pos`; yields the bytes and the
/// position just past them.
fn read_bytes_field(d: &[u8], pos: usize) -> (out: Result<(Vec<u8>, usize)>)
    requires
        pos <= d@.len(),
    ensures
        match out {
            Ok(p) => {
                &&& spec_parse_bytes(d@.skip(pos as int)) matches Option::Some(q) && q.0 == p.0@
                    && q.1 == d@.skip(p.1 as int)
                &&& pos <= p.1 <= d@.len()
            },
            Err(_) => spec_parse_bytes(d@.skip(pos as int)) is None,
        },
{
    proof {
        lemma_auto_spec_u64_to_from_le_bytes();
    }
    let len: usize = d.len();
    let ghost tail = d@.skip(pos as int);
    if len - pos < 8 {
        return Err(LsmError::Serialization("metadata bytes do not parse"));
    }
    let blen64 = u64_from_le_bytes(slice_subrange(d, pos, pos + 8));
    proof {
        assert(tail.subrange(0, 8) =~= d@.subrange(pos as int, pos + 8));
    }
    if blen64 > (len - pos - 8) as u64 {
        proof {
            assert(tail.len() < 8 + blen64);
        }
        return Err(LsmError::Serialization("metadata bytes do not parse"));
    }
    let blen = blen64 as usize;
    let bytes = slice_to_vec(slice_subrange(d, pos + 8, pos + 8 + blen));
    proof {
        assert(bytes@ =~= tail.subrange(8, 8 + blen));
        assert(tail.skip(8 + blen) =~= d@.skip(pos + 8 + blen));
    }
    Ok((bytes, pos + 8 + blen))
}

} // verus!
