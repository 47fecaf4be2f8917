//! The sorted-run file format, byte-exact.
//!
//! ```text
//! offset 0:  8 bytes of magic, `LSMSST03`
//! then:      compressed data blocks, each the size-prepended LZ4
//!            compression of a block image
//! then:      one size-prepended compressed metadata block
//! last 8:    u64 LE byte offset of the metadata block's first byte
//! ```
//!
//! This module states what a file image means: what opening it yields, and
//! which entries its data blocks hold.  The builder is proved to emit
//! images these functions explain, and the reader is proved to judge
//! images exactly by them.

use vstd::bytes::*;
use vstd::prelude::*;

use crate::block::{block_entries_of, spec_parse_block};
use crate::compress::lz4_unpacked;
use crate::meta::{spec_parse_meta_block, BlockMetaModel, MetaBlockModel};

verus! {

/// The eight magic bytes, ASCII `LSMSST03`.
pub open spec fn spec_magic() -> Seq<u8> {
    seq![76u8, 83u8, 77u8, 83u8, 83u8, 84u8, 48u8, 51u8]
}

/// What opening a file image yields: its metadata block, reached through
/// the magic, the footer, and the compressed metadata region; or nothing
/// if any of those checks fails.
pub open spec fn spec_sstable_open(d: Seq<u8>) -> Option<MetaBlockModel> {
    if d.len() < 16 {
        Option::None
    } else if d.subrange(0, 8) != spec_magic() {
        Option::None
    } else {
        let foot = spec_u64_from_le_bytes(d.subrange(d.len() - 8, d.len() as int)) as int;
        if !(8 <= foot <= d.len() - 8) {
            Option::None
        } else {
            match lz4_unpacked(d.subrange(foot, d.len() - 8)) {
                Option::None => Option::None,
                Option::Some(mb) => spec_parse_meta_block(mb),
            }
        }
    }
}

/// Every listed block region lies inside the image, unpacks, and unpacks
/// to exactly the size its sparse-index entry records: reading an honest
/// image back can never trip the size check.
pub open spec fn regions_sized(d: Seq<u8>, blocks: Seq<BlockMetaModel>) -> bool {
    forall|b: int|
        0 <= b < blocks.len() ==> {
            let bm = #[trigger] blocks[b];
            &&& bm.offset + bm.size <= d.len()
            &&& (match lz4_unpacked(d.subrange(bm.offset as int, bm.offset + bm.size)) {
                Option::Some(data) => data.len() == bm.uncompressed_size,
                Option::None => false,
            })
        }
}

/// The entries of the data block one sparse-index entry points at: the
/// region is cut out, decompressed, and parsed; a region that fails any
/// step holds no entries.
pub open spec fn spec_block_region_entries(d: Seq<u8>, bm: BlockMetaModel) -> Seq<
    (Seq<u8>, Seq<u8>),
> {
    if bm.offset + bm.size <= d.len() {
        match lz4_unpacked(d.subrange(bm.offset as int, bm.offset + bm.size)) {
            Option::None => Seq::<(Seq<u8>, Seq<u8>)>::empty(),
            Option::Some(enc) => match spec_parse_block(enc) {
                Option::None => Seq::<(Seq<u8>, Seq<u8>)>::empty(),
                Option::Some(p) => block_entries_of(p.0, p.1),
            },
        }
    } else {
        Seq::<(Seq<u8>, Seq<u8>)>::empty()
    }
}

/// Every entry of the file, in stored order: the entries of each listed
/// block, front to back.
pub open spec fn spec_sstable_entries(d: Seq<u8>, blocks: Seq<BlockMetaModel>) -> Seq<
    (Seq<u8>, Seq<u8>),
>
    decreases blocks.len(),
{
    if blocks.len() == 0 {
        Seq::<(Seq<u8>, Seq<u8>)>::empty()
    } else {
        spec_block_region_entries(d, blocks[0]) + spec_sstable_entries(d, blocks.skip(1))
    }
}

/// How many entries the blocks before block `b` hold.
pub open spec fn region_prefix_len(d: Seq<u8>, blocks: Seq<BlockMetaModel>, b: int) -> int {
    spec_sstable_entries(d, blocks.subrange(0, b)).len() as int
}

/// Where each entry of block `b` sits in the file's flat entry run, and
/// how the block prefixes accumulate.
pub proof fn lemma_region_position(d: Seq<u8>, blocks: Seq<BlockMetaModel>, b: int)
    requires
        0 <= b < blocks.len(),
    ensures
        region_prefix_len(d, blocks, b) >= 0,
        region_prefix_len(d, blocks, b + 1) == region_prefix_len(d, blocks, b)
            + spec_block_region_entries(d, blocks[b]).len(),
        region_prefix_len(d, blocks, b + 1) <= spec_sstable_entries(d, blocks).len(),
        forall|l: int|
            0 <= l < spec_block_region_entries(d, blocks[b]).len() ==> spec_sstable_entries(
                d,
                blocks,
            )[region_prefix_len(d, blocks, b) + l] == spec_block_region_entries(d, blocks[b])[l],
    decreases b,
{
    if b == 0 {
        assert(blocks.subrange(0, 0) =~= Seq::<BlockMetaModel>::empty());
        assert(spec_sstable_entries(d, blocks.subrange(0, 0)) =~= Seq::<(Seq<u8>, Seq<u8>)>::empty());
        assert(blocks.subrange(0, 1)[0] == blocks[0]);
        assert(blocks.subrange(0, 1).skip(1) =~= Seq::<BlockMetaModel>::empty());
        assert(spec_sstable_entries(d, blocks.subrange(0, 1)) =~= spec_block_region_entries(
            d,
            blocks[0],
        ));
        assert(spec_sstable_entries(d, blocks) =~= spec_block_region_entries(d, blocks[0])
            + spec_sstable_entries(d, blocks.skip(1)));
        assert forall|l: int| 0 <= l < spec_block_region_entries(d, blocks[0]).len() implies
            spec_sstable_entries(d, blocks)[region_prefix_len(d, blocks, 0) + l]
            == spec_block_region_entries(d, blocks[0])[l] by {
            assert(spec_sstable_entries(d, blocks)[l] == spec_block_region_entries(
                d,
                blocks[0],
            )[l]);
        }
    } else {
        lemma_region_position(d, blocks.skip(1), b - 1);
        assert(spec_sstable_entries(d, blocks) =~= spec_block_region_entries(d, blocks[0])
            + spec_sstable_entries(d, blocks.skip(1)));
        let head = spec_block_region_entries(d, blocks[0]).len() as int;
        assert(blocks.skip(1).subrange(0, b - 1) =~= blocks.subrange(1, b));
        assert(blocks.subrange(0, b) =~= seq![blocks[0]] + blocks.subrange(1, b));
        assert(spec_sstable_entries(d, blocks.subrange(0, b)) =~= spec_block_region_entries(
            d,
            blocks[0],
        ) + spec_sstable_entries(d, blocks.subrange(1, b))) by {
            assert((seq![blocks[0]] + blocks.subrange(1, b))[0] == blocks[0]);
            assert((seq![blocks[0]] + blocks.subrange(1, b)).skip(1) =~= blocks.subrange(1, b));
        }
        assert(region_prefix_len(d, blocks, b) == head + region_prefix_len(
            d,
            blocks.skip(1),
            b - 1,
        ));
        assert(blocks.skip(1).subrange(0, b) =~= blocks.subrange(1, b + 1));
        assert(blocks.subrange(0, b + 1) =~= seq![blocks[0]] + blocks.subrange(1, b + 1));
        assert(spec_sstable_entries(d, blocks.subrange(0, b + 1)) =~= spec_block_region_entries(
            d,
            blocks[0],
        ) + spec_sstable_entries(d, blocks.subrange(1, b + 1))) by {
            assert((seq![blocks[0]] + blocks.subrange(1, b + 1))[0] == blocks[0]);
            assert((seq![blocks[0]] + blocks.subrange(1, b + 1)).skip(1) =~= blocks.subrange(
                1,
                b + 1,
            ));
        }
        assert(region_prefix_len(d, blocks, b + 1) == head + region_prefix_len(
            d,
            blocks.skip(1),
            b,
        ));
        assert(blocks.skip(1)[b - 1] == blocks[b]);
        assert forall|l: int| 0 <= l < spec_block_region_entries(d, blocks[b]).len() implies
            spec_sstable_entries(d, blocks)[region_prefix_len(d, blocks, b) + l]
            == spec_block_region_entries(d, blocks[b])[l] by {
            assert(spec_sstable_entries(d, blocks.skip(1))[region_prefix_len(
                d,
                blocks.skip(1),
                b - 1,
            ) + l] == spec_block_region_entries(d, blocks[b])[l]);
            assert(spec_sstable_entries(d, blocks)[head + region_prefix_len(
                d,
                blocks.skip(1),
                b - 1,
            ) + l] == spec_sstable_entries(d, blocks.skip(1))[region_prefix_len(
                d,
                blocks.skip(1),
                b - 1,
            ) + l]);
        }
    }
}

/// Every flat entry position lies inside exactly one block's span.
pub proof fn lemma_region_partition(d: Seq<u8>, blocks: Seq<BlockMetaModel>, p: int)
    requires
        0 <= p < spec_sstable_entries(d, blocks).len(),
    ensures
        exists|b: int|
            0 <= b < blocks.len() && (#[trigger] region_prefix_len(d, blocks, b)) <= p
                < region_prefix_len(d, blocks, b + 1),
    decreases blocks.len(),
{
    assert(blocks.len() > 0);
    let head = spec_block_region_entries(d, blocks[0]).len() as int;
    assert(spec_sstable_entries(d, blocks) =~= spec_block_region_entries(d, blocks[0])
        + spec_sstable_entries(d, blocks.skip(1)));
    if p < head {
        lemma_region_position(d, blocks, 0);
        assert(blocks.subrange(0, 0) =~= Seq::<BlockMetaModel>::empty());
        assert(spec_sstable_entries(d, blocks.subrange(0, 0)) =~= Seq::<(Seq<u8>, Seq<u8>)>::empty());
        assert(region_prefix_len(d, blocks, 0) == 0);
        assert(region_prefix_len(d, blocks, 0) <= p < region_prefix_len(d, blocks, 1));
    } else {
        lemma_region_partition(d, blocks.skip(1), p - head);
        let b0 = choose|b0: int|
            0 <= b0 < blocks.skip(1).len() && (#[trigger] region_prefix_len(
                d,
                blocks.skip(1),
                b0,
            )) <= p - head < region_prefix_len(d, blocks.skip(1), b0 + 1);
        // Lift the found block index by one.
        assert(blocks.skip(1).subrange(0, b0) =~= blocks.subrange(1, b0 + 1));
        assert(blocks.subrange(0, b0 + 1) =~= seq![blocks[0]] + blocks.subrange(1, b0 + 1));
        assert(spec_sstable_entries(d, blocks.subrange(0, b0 + 1)) =~= spec_block_region_entries(
            d,
            blocks[0],
        ) + spec_sstable_entries(d, blocks.subrange(1, b0 + 1))) by {
            assert((seq![blocks[0]] + blocks.subrange(1, b0 + 1))[0] == blocks[0]);
            assert((seq![blocks[0]] + blocks.subrange(1, b0 + 1)).skip(1) =~= blocks.subrange(
                1,
                b0 + 1,
            ));
        }
        assert(region_prefix_len(d, blocks, b0 + 1) == head + region_prefix_len(
            d,
            blocks.skip(1),
            b0,
        ));
        assert(blocks.skip(1).subrange(0, b0 + 1) =~= blocks.subrange(1, b0 + 2));
        assert(blocks.subrange(0, b0 + 2) =~= seq![blocks[0]] + blocks.subrange(1, b0 + 2));
        assert(spec_sstable_entries(d, blocks.subrange(0, b0 + 2)) =~= spec_block_region_entries(
            d,
            blocks[0],
        ) + spec_sstable_entries(d, blocks.subrange(1, b0 + 2))) by {
            assert((seq![blocks[0]] + blocks.subrange(1, b0 + 2))[0] == blocks[0]);
            assert((seq![blocks[0]] + blocks.subrange(1, b0 + 2)).skip(1) =~= blocks.subrange(
                1,
                b0 + 2,
            ));
        }
        assert(region_prefix_len(d, blocks, b0 + 2) == head + region_prefix_len(
            d,
            blocks.skip(1),
            b0 + 1,
        ));
        assert(region_prefix_len(d, blocks, b0 + 1) <= p < region_prefix_len(d, blocks, b0 + 2));
    }
}

/// Appends the magic bytes.
pub fn push_magic(out: &mut Vec<u8>)
    ensures
        final(out)@ == old(out)@ + spec_magic(),
{
    out.push(76u8);
    out.push(83u8);
    out.push(77u8);
    out.push(83u8);
    out.push(83u8);
    out.push(84u8);
    out.push(48u8);
    out.push(51u8);
    proof {
        assert(out@ =~= old(out)@ + spec_magic());
    }
}

/// Checks the first eight bytes against the magic.
pub fn check_magic(d: &[u8]) -> (r: bool)
    requires
        d@.len() >= 8,
    ensures
        r == (d@.subrange(0, 8) == spec_magic()),
{
    let ok = d[0] == 76 && d[1] == 83 && d[2] == 77 && d[3] == 83 && d[4] == 83 && d[5] == 84
        && d[6] == 48 && d[7] == 51;
    proof {
        let s = d@.subrange(0, 8);
        assert(s[0] == d@[0] && s[1] == d@[1] && s[2] == d@[2] && s[3] == d@[3] && s[4] == d@[4]
            && s[5] == d@[5] && s[6] == d@[6] && s[7] == d@[7]);
        assert(spec_magic()[0] == 76 && spec_magic()[1] == 83 && spec_magic()[2] == 77
            && spec_magic()[3] == 83 && spec_magic()[4] == 83 && spec_magic()[5] == 84
            && spec_magic()[6] == 48 && spec_magic()[7] == 51);
        if ok {
            assert(s =~= spec_magic());
        }
    }
    ok
}

} // verus!
