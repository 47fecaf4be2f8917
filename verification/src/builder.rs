//! Builds an immutable sorted-run file from an ascending stream of keyed
//! records.
//!
//! Records arrive with strictly ascending keys; each is codec-encoded and
//! appended to the current data block.  A block that refuses an entry is
//! sealed — compressed and appended to the file image, with its first key,
//! offset and sizes recorded in the sparse index — and a fresh block takes
//! the entry; an entry too large even for a fresh block fails the build.
//! Finishing seals the tail block, feeds every key to a fresh membership
//! filter, writes the compressed metadata block and the footer, and hands
//! back the full file image together with its metadata.  The image is
//! proved to open back to that metadata and to hold exactly the records
//! that were added, in order; the sparse index is proved strictly ordered
//! by first key, with every block's entries inside its key fence.

use vstd::prelude::*;

use crate::block::{
    block_entries_of, spec_encode_block, spec_parse_block, Block,
};
use crate::bloom::{bloom_bitmap_bytes, bloom_new, bloom_set, bloom_to_bytes, bloom_unpacked};
use crate::codec::{encode_record, push_bytes, push_u64_le, spec_encode_record};
use crate::compress::{lz4_compress, lz4_packed, lz4_unpacked};
use crate::config::{storage_config_valid, StorageConfig};
use crate::error::{LsmError, Result};
use crate::keys::{lemma_lex_trichotomy, lex_le, lex_lt};
use crate::meta::{BlockMeta, BlockMetaModel, MetaBlock};
use crate::record::{LogRecord, RecordModel};
use crate::sstable::{
    push_magic, regions_sized, spec_block_region_entries, spec_magic, spec_sstable_entries,
    spec_sstable_open,
};

verus! {

/// The entries of all sealed blocks, front to back.
pub open spec fn sealed_entries(gb: Seq<(Seq<u8>, Seq<u16>)>) -> Seq<(Seq<u8>, Seq<u8>)>
    decreases gb.len(),
{
    if gb.len() == 0 {
        Seq::<(Seq<u8>, Seq<u8>)>::empty()
    } else {
        block_entries_of(gb[0].0, gb[0].1) + sealed_entries(gb.skip(1))
    }
}

/// How many entries the sealed blocks before block `b` hold.
pub open spec fn sealed_prefix_len(gb: Seq<(Seq<u8>, Seq<u16>)>, b: int) -> int {
    sealed_entries(gb.subrange(0, b)).len() as int
}

/// The added records as the (key, codec image) pairs the blocks hold.
pub open spec fn encoded_pairs(added: Seq<(Seq<u8>, RecordModel)>) -> Seq<(Seq<u8>, Seq<u8>)> {
    added.map_values(|p: (Seq<u8>, RecordModel)| (p.0, spec_encode_record(p.1)))
}

/// Keys strictly ascending across the added records.
pub open spec fn added_ascending(added: Seq<(Seq<u8>, RecordModel)>) -> bool {
    forall|i: int, j: int|
        0 <= i < j < added.len() ==> lex_lt(#[trigger] added[i].0, #[trigger] added[j].0)
}

/// Sealing one more block appends its entries.
pub proof fn lemma_sealed_entries_snoc(gb: Seq<(Seq<u8>, Seq<u16>)>, blk: (Seq<u8>, Seq<u16>))
    ensures
        sealed_entries(gb.push(blk)) =~= sealed_entries(gb) + block_entries_of(blk.0, blk.1),
    decreases gb.len(),
{
    if gb.len() == 0 {
        assert(gb.push(blk)[0] == blk);
        assert(gb.push(blk).skip(1) =~= Seq::<(Seq<u8>, Seq<u16>)>::empty());
        assert(sealed_entries(gb.push(blk).skip(1)) =~= Seq::<(Seq<u8>, Seq<u8>)>::empty());
        assert(sealed_entries(gb) =~= Seq::<(Seq<u8>, Seq<u8>)>::empty());
    } else {
        assert(gb.push(blk)[0] == gb[0]);
        assert(gb.push(blk).skip(1) =~= gb.skip(1).push(blk));
        lemma_sealed_entries_snoc(gb.skip(1), blk);
        assert(sealed_entries(gb.push(blk)) =~= block_entries_of(gb[0].0, gb[0].1) + (
        sealed_entries(gb.skip(1)) + block_entries_of(blk.0, blk.1)));
    }
}

/// Where each entry of block `b` sits in the flat sealed run, and how the
/// block prefixes accumulate.
pub proof fn lemma_sealed_position(gb: Seq<(Seq<u8>, Seq<u16>)>, b: int)
    requires
        0 <= b < gb.len(),
    ensures
        sealed_prefix_len(gb, b) >= 0,
        sealed_prefix_len(gb, b + 1) == sealed_prefix_len(gb, b) + block_entries_of(
            gb[b].0,
            gb[b].1,
        ).len(),
        sealed_prefix_len(gb, b + 1) <= sealed_entries(gb).len(),
        forall|l: int|
            0 <= l < block_entries_of(gb[b].0, gb[b].1).len() ==> sealed_entries(gb)[
                sealed_prefix_len(gb, b) + l] == block_entries_of(gb[b].0, gb[b].1)[l],
    decreases b,
{
    if b == 0 {
        assert(gb.subrange(0, 0) =~= Seq::<(Seq<u8>, Seq<u16>)>::empty());
        assert(sealed_entries(gb.subrange(0, 0)) =~= Seq::<(Seq<u8>, Seq<u8>)>::empty());
        assert(gb.subrange(0, 1)[0] == gb[0]);
        assert(gb.subrange(0, 1).skip(1) =~= Seq::<(Seq<u8>, Seq<u16>)>::empty());
        assert(sealed_entries(gb.subrange(0, 1)) =~= block_entries_of(gb[0].0, gb[0].1));
        assert(sealed_entries(gb) =~= block_entries_of(gb[0].0, gb[0].1) + sealed_entries(
            gb.skip(1),
        ));
        assert forall|l: int| 0 <= l < block_entries_of(gb[0].0, gb[0].1).len() implies
            sealed_entries(gb)[sealed_prefix_len(gb, 0) + l] == block_entries_of(
            gb[0].0,
            gb[0].1,
        )[l] by {
            assert(sealed_entries(gb)[l] == block_entries_of(gb[0].0, gb[0].1)[l]);
        }
    } else {
        lemma_sealed_position(gb.skip(1), b - 1);
        assert(sealed_entries(gb) =~= block_entries_of(gb[0].0, gb[0].1) + sealed_entries(
            gb.skip(1),
        ));
        let head = block_entries_of(gb[0].0, gb[0].1).len() as int;
        assert(gb.skip(1).subrange(0, b - 1) =~= gb.subrange(1, b));
        assert(gb.subrange(0, b) =~= seq![gb[0]] + gb.subrange(1, b));
        assert(sealed_entries(gb.subrange(0, b)) =~= block_entries_of(gb[0].0, gb[0].1)
            + sealed_entries(gb.subrange(1, b))) by {
            assert((seq![gb[0]] + gb.subrange(1, b))[0] == gb[0]);
            assert((seq![gb[0]] + gb.subrange(1, b)).skip(1) =~= gb.subrange(1, b));
        }
        assert(sealed_prefix_len(gb, b) == head + sealed_prefix_len(gb.skip(1), b - 1));
        assert(gb.skip(1).subrange(0, b) =~= gb.subrange(1, b + 1));
        assert(gb.subrange(0, b + 1) =~= seq![gb[0]] + gb.subrange(1, b + 1));
        assert(sealed_entries(gb.subrange(0, b + 1)) =~= block_entries_of(gb[0].0, gb[0].1)
            + sealed_entries(gb.subrange(1, b + 1))) by {
            assert((seq![gb[0]] + gb.subrange(1, b + 1))[0] == gb[0]);
            assert((seq![gb[0]] + gb.subrange(1, b + 1)).skip(1) =~= gb.subrange(1, b + 1));
        }
        assert(sealed_prefix_len(gb, b + 1) == head + sealed_prefix_len(gb.skip(1), b));
        assert(gb.skip(1)[b - 1] == gb[b]);
        assert forall|l: int| 0 <= l < block_entries_of(gb[b].0, gb[b].1).len() implies
            sealed_entries(gb)[sealed_prefix_len(gb, b) + l] == block_entries_of(
            gb[b].0,
            gb[b].1,
        )[l] by {
            assert(sealed_entries(gb.skip(1))[sealed_prefix_len(gb.skip(1), b - 1) + l]
                == block_entries_of(gb[b].0, gb[b].1)[l]);
            assert(sealed_entries(gb)[head + sealed_prefix_len(gb.skip(1), b - 1) + l]
                == sealed_entries(gb.skip(1))[sealed_prefix_len(gb.skip(1), b - 1) + l]);
        }
    }
}

/// One sealed block agrees with its sparse-index entry and its region of
/// the file image.
pub open spec fn region_ok(out: Seq<u8>, bm: BlockMetaModel, blk: (Seq<u8>, Seq<u16>)) -> bool {
    let enc = spec_encode_block(blk.0, blk.1);
    &&& crate::block::block_shape_wf(blk.0, blk.1)
    &&& block_entries_of(blk.0, blk.1).len() > 0
    &&& bm.first_key == block_entries_of(blk.0, blk.1)[0].0
    &&& bm.uncompressed_size as int == enc.len()
    &&& 8 <= bm.offset as int
    &&& bm.offset as int + bm.size as int <= out.len()
    &&& out.subrange(bm.offset as int, bm.offset as int + bm.size as int) == lz4_packed(enc)
    &&& lz4_unpacked(lz4_packed(enc)) == Option::Some(enc)
}

/// Builds one sorted-run file image from ascending keyed records.
pub struct SstableBuilder {
    pub out: Vec<u8>,
    pub current_block: Block,
    pub block_metas: Vec<BlockMeta>,
    pub keys_for_bloom: Vec<Vec<u8>>,
    pub config: StorageConfig,
    pub first_key: Option<Vec<u8>>,
    pub last_key: Option<Vec<u8>>,
    pub record_count: u64,
    pub timestamp: u128,
    pub sealed: Ghost<Seq<(Seq<u8>, Seq<u16>)>>,
    pub added: Ghost<Seq<(Seq<u8>, RecordModel)>>,
}

impl SstableBuilder {
    /// Every record accepted so far, with its key, in arrival order.
    pub open spec fn spec_added(&self) -> Seq<(Seq<u8>, RecordModel)> {
        self.added@
    }

    /// The creation timestamp the run is stamped with.
    pub open spec fn spec_timestamp(&self) -> u128 {
        self.timestamp
    }

    /// The key the next add must exceed.
    pub open spec fn spec_last_key(&self) -> Option<Seq<u8>> {
        if self.added@.len() == 0 {
            Option::None
        } else {
            Option::Some(self.added@.last().0)
        }
    }

    /// An entry small enough to fit a fresh block of the configured size.
    pub open spec fn spec_entry_fits(&self, key: Seq<u8>, r: RecordModel) -> bool {
        let elen = spec_encode_record(r).len() as int;
        &&& 4 + key.len() + elen <= 0xFFFF
    &&& 8 + key.len() + elen <= self.config.block_size
    }

    /// How long the run's metadata-block image will be at finish: 56 bytes
    /// of counts, lengths and timestamp, the sparse index over the sealed
    /// blocks and the pending tail block, the serialized filter, and the
    /// two range keys.
    pub open spec fn spec_finish_meta_len(&self) -> int {
        let sealed = crate::meta::spec_block_metas_len(
            self.block_metas@.map_values(|b: BlockMeta| b@),
        );
        let tail = if self.current_block.entries().len() == 0 {
            0int
        } else {
            24int + self.current_block.entries()[0].0.len()
        };
        let bloom = 45 + crate::bloom::spec_bloom_bitmap_bytes(
            self.added@.len() as int,
            self.config.bloom_false_positive_rate_ppm as int,
        );
        56 + sealed + tail + bloom + self.added@[0].0.len() + self.added@.last().0.len()
    }

    /// The builder's internal invariant: the file image prefix, the sealed
    /// regions, the sparse index, the current block and the ghost record
    /// list all agree.
    pub open spec fn wf(&self) -> bool {
        let gb = self.sealed@;
        let n = gb.len() as int;
        &&& storage_config_valid(self.config)
        &&& self.out@.len() >= 8
        &&& self.out@.subrange(0, 8) == spec_magic()
        &&& self.block_metas@.len() == n
        &&& forall|b: int|
            0 <= b < n ==> region_ok(self.out@, (#[trigger] self.block_metas@[b])@, gb[b])
        &&& self.current_block.wf()
        &&& self.current_block.spec_block_size() == self.config.block_size
        &&& self.current_block.spec_current_size() <= self.config.block_size
        &&& encoded_pairs(self.added@) == sealed_entries(gb) + self.current_block.entries()
        &&& added_ascending(self.added@)
        &&& self.keys_for_bloom@.len() == self.added@.len()
        &&& forall|j: int|
            0 <= j < self.added@.len() ==> (#[trigger] self.keys_for_bloom@[j])@
                == self.added@[j].0
        &&& self.record_count as int == self.added@.len()
        &&& (match self.first_key {
            Option::Some(k) => self.added@.len() > 0 && k@ == self.added@[0].0,
            Option::None => self.added@.len() == 0,
        })
        &&& (match self.last_key {
            Option::Some(k) => self.added@.len() > 0 && k@ == self.added@.last().0,
            Option::None => self.added@.len() == 0,
        })
    }

    /// A fresh builder for one run, stamped with `timestamp`.
    pub fn new(config: StorageConfig, timestamp: u128) -> (r: SstableBuilder)
        requires
            storage_config_valid(config),
        ensures
            r.wf(),
            r.spec_added() =~= Seq::<(Seq<u8>, RecordModel)>::empty(),
            r.spec_timestamp() == timestamp,
            r.config == config,
    {
        let mut out: Vec<u8> = Vec::new();
        push_magic(&mut out);
        let current_block = Block::new(config.block_size);
        let r = SstableBuilder {
            out,
            current_block,
            block_metas: Vec::new(),
            keys_for_bloom: Vec::new(),
            config,
            first_key: None,
            last_key: None,
            record_count: 0,
            timestamp,
            sealed: Ghost(Seq::empty()),
            added: Ghost(Seq::empty()),
        };
        proof {
            assert(r.out@.subrange(0, 8) =~= spec_magic());
            assert(sealed_entries(r.sealed@) =~= Seq::<(Seq<u8>, Seq<u8>)>::empty());
            assert(encoded_pairs(r.added@) =~= sealed_entries(r.sealed@)
                + r.current_block.entries());
        }
        r
    }

    /// The configuration the builder was created with.
    pub open spec fn spec_config(&self) -> StorageConfig {
        self.config
    }

    /// Seals the current block, if it holds anything: compresses it into
    /// the file image and records it in the sparse index.
    #[verifier::rlimit(100)]
    #[verifier::spinoff_prover]
    fn seal_current_block(&mut self)
        requires
            old(self).wf(),
        ensures
            final(self).wf(),
            final(self).added@ == old(self).added@,
            final(self).current_block.entries().len() == 0,
            final(self).config == old(self).config,
            final(self).timestamp == old(self).timestamp,
            final(self).first_key == old(self).first_key,
            final(self).last_key == old(self).last_key,
            final(self).keys_for_bloom@ == old(self).keys_for_bloom@,
            final(self).record_count == old(self).record_count,
            sealed_entries(final(self).sealed@) == encoded_pairs(final(self).added@),
            final(self).block_metas@.len() == old(self).block_metas@.len() + (
            if old(self).current_block.entries().len() == 0 {
                0int
            } else {
                1int
            }),
            forall|t: int|
                0 <= t < old(self).block_metas@.len() ==> final(self).block_metas@[t] == old(self).block_metas@[t],
            old(self).current_block.entries().len() > 0 ==> (final(self).block_metas@.last())@.first_key == old(self).current_block.entries()[0].0,
    {
        if self.current_block.is_empty() {
            proof {
                assert(encoded_pairs(self.added@) =~= sealed_entries(self.sealed@));
            }
            return;
        }
        let ghost old_out = self.out@;
        let ghost old_gb = self.sealed@;
        let encoded = self.current_block.encode();
        let first_key = match self.current_block.first_key() {
            Some(k) => k,
            None => {
                // The block was checked non-empty just above.
                proof {
                    assert(false);
                }
                Vec::new()
            },
        };
        let compressed = lz4_compress(encoded.as_slice());
        proof {
            assert(encoded@.len() <= 0x100000);
            assert((encoded@.len() * 110) / 100 <= (0x100000 * 110) / 100) by (nonlinear_arith)
                requires
                    encoded@.len() <= 0x100000,
            ;
            assert(compressed@.len() <= 20 + (0x100000 * 110) / 100);
        }
        let offset = self.out.len() as u64;
        let size = compressed.len() as u32;
        let uncompressed_size = encoded.len() as u32;
        let bm = BlockMeta { first_key, offset, size, uncompressed_size };
        self.block_metas.push(bm);
        push_bytes(&mut self.out, compressed.as_slice());
        let ghost sealed_block = self.current_block;
        self.sealed = Ghost(old_gb.push((sealed_block.data@, sealed_block.offsets@)));
        self.current_block = Block::new(self.config.block_size);
        proof {
            let gb = self.sealed@;
            let n = gb.len() as int;
            let enc = spec_encode_block(sealed_block.data@, sealed_block.offsets@);
            assert(self.out@.subrange(offset as int, offset as int + size as int)
                =~= compressed@);
            assert(self.out@.subrange(0, 8) =~= old_out.subrange(0, 8));
            assert forall|b: int| 0 <= b < n implies region_ok(
                self.out@,
                (#[trigger] self.block_metas@[b])@,
                gb[b],
            ) by {
                let bm2 = self.block_metas@[b]@;
                if b < n - 1 {
                    assert(old(self).block_metas@[b] == self.block_metas@[b]);
                    assert((old(self).block_metas@[b])@ == bm2);
                    assert(gb[b] == old_gb[b]);
                    assert(region_ok(old_out, bm2, old_gb[b]));
                    assert(bm2.offset as int + bm2.size as int <= old_out.len());
                    assert(self.out@.subrange(
                        bm2.offset as int,
                        bm2.offset as int + bm2.size as int,
                    ) =~= old_out.subrange(bm2.offset as int, bm2.offset as int + bm2.size as int));
                } else {
                    assert(gb[b] == (sealed_block.data@, sealed_block.offsets@));
                    assert(self.block_metas@[b] == self.block_metas@.last());
                }
            }
            lemma_sealed_entries_snoc(old_gb, (sealed_block.data@, sealed_block.offsets@));
            assert(encoded_pairs(self.added@) =~= sealed_entries(gb)
                + self.current_block.entries());
            assert(sealed_entries(gb) =~= encoded_pairs(self.added@));
            lemma_builder_wf(*self);
        }
    }

    /// Accepts one record under a key strictly above every key before it;
    /// rejects, leaving the records unchanged, exactly when the entry
    /// cannot fit even a fresh block, or the record counter is exhausted.
    #[verifier::rlimit(100)]
    #[verifier::spinoff_prover]
    pub fn add(&mut self, key: &[u8], record: &LogRecord) -> (r: Result<()>)
        requires
            old(self).wf(),
            match old(self).spec_last_key() {
                Option::Some(k) => lex_lt(k, key@),
                Option::None => true,
            },
        ensures
            final(self).wf(),
            final(self).config == old(self).config,
            final(self).timestamp == old(self).timestamp,
            match r {
                Ok(_) => final(self).added@ == old(self).added@.push((key@, record@)),
                Err(e) => {
                    &&& final(self).added@ == old(self).added@
                    &&& (e == LsmError::CompactionFailed("record count exhausted") <==> old(self).record_count == u64::MAX)
                    &&& (e == LsmError::CompactionFailed("entry too large for a single block")
                        <==> old(self).record_count < u64::MAX && !old(self).spec_entry_fits(
                        key@,
                        record@,
                    ))
                },
            },
            r is Ok <==> old(self).spec_entry_fits(key@, record@) && old(self).record_count
                < u64::MAX,
    {
        if self.record_count == u64::MAX {
            return Err(LsmError::CompactionFailed("record count exhausted"));
        }
        let value_bytes = encode_record(record);
        let ghost old_added = self.added@;
        let fit_first = self.current_block.add(key, value_bytes.as_slice());
        if !fit_first {
            self.seal_current_block();
            let fit_second = self.current_block.add(key, value_bytes.as_slice());
            if !fit_second {
                proof {
                    assert(encoded_pairs(self.added@) =~= sealed_entries(self.sealed@)
                        + self.current_block.entries());
                }
                return Err(LsmError::CompactionFailed("entry too large for a single block"));
            }
            proof {
                assert(sealed_entries(self.sealed@) + self.current_block.entries()
                    =~= encoded_pairs(old_added).push((key@, spec_encode_record(record@))));
            }
        } else {
            proof {
                assert(sealed_entries(self.sealed@) + self.current_block.entries()
                    =~= (sealed_entries(self.sealed@) + old(self).current_block.entries()).push(
                    (key@, spec_encode_record(record@)),
                ));
            }
        }
        // Bookkeeping: ghost list, filter keys, key range, counter.
        self.added = Ghost(old_added.push((key@, record@)));
        self.keys_for_bloom.push(vstd::slice::slice_to_vec(key));
        if self.first_key.is_none() {
            self.first_key = Some(vstd::slice::slice_to_vec(key));
        }
        self.last_key = Some(vstd::slice::slice_to_vec(key));
        self.record_count = self.record_count + 1;
        proof {
            let added = self.added@;
            assert(added_ascending(added)) by {
                assert forall|i: int, j: int| 0 <= i < j < added.len() implies lex_lt(
                    #[trigger] added[i].0,
                    #[trigger] added[j].0,
                ) by {
                    if j == added.len() - 1 && old_added.len() > 0 && i < old_added.len() - 1 {
                        assert(lex_lt(old_added[i].0, old_added.last().0));
                        crate::keys::lemma_lex_transitive(
                            old_added[i].0,
                            old_added.last().0,
                            key@,
                        );
                    }
                }
            }
            assert(encoded_pairs(added) =~= sealed_entries(self.sealed@)
                + self.current_block.entries()) by {
                assert(encoded_pairs(added) =~= encoded_pairs(old_added).push(
                    (key@, spec_encode_record(record@)),
                ));
            }
            assert forall|j: int| 0 <= j < added.len() implies (
            #[trigger] self.keys_for_bloom@[j])@ == added[j].0 by {
                if j < old_added.len() {
                    assert(self.keys_for_bloom@[j] == old(self).keys_for_bloom@[j]);
                    assert(added[j] == old_added[j]);
                }
            }
            if old_added.len() > 0 {
                assert(self.first_key == old(self).first_key);
                assert(added[0].0 == old_added[0].0);
            }
            lemma_builder_wf(*self);
        }
        Ok(())
    }

    /// Seals the tail block, builds the filter over every key, writes the
    /// compressed metadata block and the footer, and hands back the file
    /// image with its metadata.  The image opens back to that metadata and
    /// holds exactly the added records in order; the sparse index is
    /// strictly ordered by first key, fences every block's keys, and
    /// records each region's exact unpacked size, so reading the image
    /// back cannot trip any corruption check.
    #[verifier::rlimit(100)]
    #[verifier::spinoff_prover]
    pub fn finish(self) -> (r: Result<(Vec<u8>, MetaBlock)>)
        requires
            self.wf(),
        ensures
            match r {
                Ok(p) => {
                    let bytes = p.0@;
                    let m = p.1@;
                    &&& spec_sstable_open(bytes) == Option::Some(m)
                    &&& regions_sized(bytes, m.blocks)
                    &&& spec_sstable_entries(bytes, m.blocks) == encoded_pairs(self.spec_added())
                    &&& m.record_count as int == self.spec_added().len()
                    &&& self.spec_added().len() > 0
                    &&& m.min_key == self.spec_added()[0].0
                    &&& m.max_key == self.spec_added().last().0
                    &&& m.timestamp == self.spec_timestamp()
                    &&& m.blocks.len() > 0
                    &&& 46 <= m.bloom_filter_data.len() <= usize::MAX / 8
                    &&& (bloom_unpacked(m.bloom_filter_data) matches Option::Some(s)
                        && forall|i: int|
                        0 <= i < self.spec_added().len() ==> s.contains(
                            #[trigger] self.spec_added()[i].0,
                        ))
                    &&& forall|b1: int, b2: int|
                        0 <= b1 < b2 < m.blocks.len() ==> lex_lt(
                            (#[trigger] m.blocks[b1]).first_key,
                            (#[trigger] m.blocks[b2]).first_key,
                        )
                    &&& forall|b: int, l: int|
                        #![trigger spec_block_region_entries(bytes, m.blocks[b])[l]]
                        0 <= b < m.blocks.len() && 0 <= l < spec_block_region_entries(
                            bytes,
                            m.blocks[b],
                        ).len() ==> {
                            let ek = spec_block_region_entries(bytes, m.blocks[b])[l].0;
                            &&& lex_le(m.blocks[b].first_key, ek)
                            &&& (b + 1 < m.blocks.len() ==> lex_lt(
                                ek,
                                m.blocks[b + 1].first_key,
                            ))
                        }
                },
                Err(e) => {
                    &&& (e == LsmError::CompactionFailed(
                        "cannot create a sorted run with no records",
                    ) <==> self.spec_added().len() == 0)
                    &&& (e == LsmError::Serialization("metadata too large")
                        <==> self.spec_added().len() > 0 && self.spec_finish_meta_len()
                        > u32::MAX)
                },
            },
            r is Ok <==> self.spec_added().len() > 0 && self.spec_finish_meta_len() <= u32::MAX,
    {
        let mut this = self;
        let ghost orig = this;
        this.seal_current_block();
        proof {
            // The sparse index after the tail seal is the input's, plus one
            // entry for a non-empty tail block.
            let old_models = orig.block_metas@.map_values(|b: BlockMeta| b@);
            let new_models = this.block_metas@.map_values(|b: BlockMeta| b@);
            if orig.current_block.entries().len() == 0 {
                assert(this.block_metas@ =~= orig.block_metas@);
                assert(new_models =~= old_models);
            } else {
                assert(this.block_metas@ =~= orig.block_metas@.push(this.block_metas@.last()));
                assert(new_models =~= old_models.push((this.block_metas@.last())@));
                crate::meta::lemma_block_metas_len_snoc(
                    old_models,
                    (this.block_metas@.last())@,
                );
            }
            assert(crate::meta::spec_block_metas_len(new_models)
                == crate::meta::spec_block_metas_len(old_models) + (
            if orig.current_block.entries().len() == 0 {
                0int
            } else {
                24int + orig.current_block.entries()[0].0.len()
            }));
        }
        if this.block_metas.len() == 0 {
            proof {
                assert(this.sealed@.len() == 0);
                assert(sealed_entries(this.sealed@) =~= Seq::<(Seq<u8>, Seq<u8>)>::empty());
                assert(encoded_pairs(this.added@).len() == this.added@.len());
            }
            return Err(LsmError::CompactionFailed("cannot create a sorted run with no records"));
        }
        proof {
            // A sealed block holds at least one entry, so records exist.
            let gb0 = this.sealed@;
            assert(gb0.subrange(0, 0) =~= Seq::<(Seq<u8>, Seq<u16>)>::empty());
            assert(sealed_entries(gb0.subrange(0, 0)) =~= Seq::<(Seq<u8>, Seq<u8>)>::empty());
            assert(region_ok(this.out@, (this.block_metas@[0])@, gb0[0]));
            assert(block_entries_of(gb0[0].0, gb0[0].1).len() > 0);
            lemma_sealed_position(gb0, 0);
            assert(sealed_entries(gb0)[sealed_prefix_len(gb0, 0) + 0] == block_entries_of(
                gb0[0].0,
                gb0[0].1,
            )[0]);
            assert(sealed_prefix_len(gb0, 1) <= sealed_entries(gb0).len());
            assert(sealed_entries(gb0).len() > 0);
            assert(encoded_pairs(this.added@).len() == this.added@.len());
            assert(this.added@.len() > 0);
            assert(this.keys_for_bloom@.len() == this.added@.len());
        }
        // Build the filter over every added key.
        let items = this.keys_for_bloom.len();
        let bitmap_bytes = bloom_bitmap_bytes(items, this.config.bloom_false_positive_rate_ppm);
        // A fixed seed keeps a run's bytes a function of its records; its
        // two halves differ so the filter's two hash keys differ.
        let seed: [u8; 32] = [
            183u8, 71u8, 219u8, 5u8, 102u8, 94u8, 41u8, 163u8, 77u8, 8u8, 251u8, 30u8, 121u8,
            66u8, 199u8, 58u8, 17u8, 148u8, 233u8, 90u8, 13u8, 172u8, 55u8, 206u8, 99u8, 24u8,
            137u8, 62u8, 185u8, 46u8, 111u8, 230u8,
        ];
        let mut filter = match bloom_new(bitmap_bytes, items, &seed) {
            Ok(f) => f,
            Err(_) => {
                proof {
                    assert(false);
                }
                return Err(LsmError::Serialization("metadata too large"));
            },
        };
        let mut i: usize = 0;
        while i < this.keys_for_bloom.len()
            invariant
                0 <= i <= this.keys_for_bloom@.len(),
                crate::bloom::bloom_wf(filter),
                crate::bloom::bloom_serial_len(filter) == 45 + bitmap_bytes as int,
                forall|j: int|
                    0 <= j < i ==> crate::bloom::bloom_view(filter).contains(
                        (#[trigger] this.keys_for_bloom@[j])@,
                    ),
            decreases this.keys_for_bloom@.len() - i,
        {
            bloom_set(&mut filter, this.keys_for_bloom[i].as_slice());
            i = i + 1;
        }
        proof {
            assert forall|j: int| 0 <= j < this.added@.len() implies crate::bloom::bloom_view(
                filter,
            ).contains(#[trigger] this.added@[j].0) by {
                assert(crate::bloom::bloom_view(filter).contains((this.keys_for_bloom@[j])@));
            }
        }
        let bloom_filter_data = bloom_to_bytes(&filter);
        let min_key = match this.first_key {
            Some(ref k) => vstd::slice::slice_to_vec(k.as_slice()),
            None => {
                proof {
                    assert(false);
                }
                Vec::new()
            },
        };
        let max_key = match this.last_key {
            Some(ref k) => vstd::slice::slice_to_vec(k.as_slice()),
            None => {
                proof {
                    assert(false);
                }
                Vec::new()
            },
        };
        let ghost gmetas = this.block_metas@;
        let meta = MetaBlock {
            blocks: this.block_metas,
            bloom_filter_data,
            min_key,
            max_key,
            record_count: this.record_count,
            timestamp: this.timestamp,
        };
        let meta_encoded = crate::meta::encode_meta_block(&meta);
        proof {
            crate::meta::lemma_meta_block_len(meta@);
            assert(meta@.blocks =~= this.block_metas@.map_values(|b: BlockMeta| b@));
            assert(meta_encoded@.len() == orig.spec_finish_meta_len());
        }
        if meta_encoded.len() as u64 > u32::MAX as u64 {
            return Err(LsmError::Serialization("metadata too large"));
        }
        let meta_compressed = lz4_compress(meta_encoded.as_slice());
        let mut out = this.out;
        let ghost pre_meta = out@;
        let meta_offset = out.len() as u64;
        push_bytes(&mut out, meta_compressed.as_slice());
        push_u64_le(&mut out, meta_offset);
        proof {
            let bytes = out@;
            let m = meta@;
            let gb = this.sealed@;
            let n = gb.len() as int;
            vstd::bytes::lemma_auto_spec_u64_to_from_le_bytes();
            // The footer and the metadata region read back.
            assert(bytes.subrange(bytes.len() - 8, bytes.len() as int)
                =~= vstd::bytes::spec_u64_to_le_bytes(meta_offset));
            assert(bytes.subrange(meta_offset as int, bytes.len() - 8) =~= meta_compressed@);
            assert(bytes.subrange(0, 8) =~= pre_meta.subrange(0, 8));
            assert(bytes.len() >= 16);
            crate::meta::lemma_meta_block_round_trip(m);
            assert(spec_sstable_open(bytes) == Option::Some(m));
            // Every sealed region survives the appends and parses back.
            assert forall|b: int| 0 <= b < n implies spec_block_region_entries(
                bytes,
                #[trigger] m.blocks[b],
            ) == block_entries_of(gb[b].0, gb[b].1) by {
                assert(m.blocks[b] == (gmetas[b])@);
                assert(region_ok(pre_meta, (gmetas[b])@, gb[b]));
                let bm = m.blocks[b];
                assert(bytes.subrange(bm.offset as int, bm.offset as int + bm.size as int)
                    =~= pre_meta.subrange(bm.offset as int, bm.offset as int + bm.size as int));
                crate::block::lemma_block_round_trip(gb[b].0, gb[b].1);
            }
            assert forall|b: int| 0 <= b < n implies ((#[trigger] m.blocks[b]).first_key
                == block_entries_of(gb[b].0, gb[b].1)[0].0 && block_entries_of(
                gb[b].0,
                gb[b].1,
            ).len() > 0) by {
                assert(m.blocks[b] == (gmetas[b])@);
                assert(region_ok(pre_meta, (gmetas[b])@, gb[b]));
            }
            // Each region's recorded uncompressed size is what it unpacks
            // to.
            assert(regions_sized(bytes, m.blocks)) by {
                assert forall|b: int| 0 <= b < m.blocks.len() implies {
                    let bm = #[trigger] m.blocks[b];
                    &&& bm.offset + bm.size <= bytes.len()
                    &&& (match lz4_unpacked(bytes.subrange(bm.offset as int, bm.offset + bm.size)) {
                        Option::Some(data) => data.len() == bm.uncompressed_size,
                        Option::None => false,
                    })
                } by {
                    assert(m.blocks[b] == (gmetas[b])@);
                    assert(region_ok(pre_meta, (gmetas[b])@, gb[b]));
                    let bm = m.blocks[b];
                    assert(bytes.subrange(bm.offset as int, bm.offset as int + bm.size as int)
                        =~= pre_meta.subrange(
                        bm.offset as int,
                        bm.offset as int + bm.size as int,
                    ));
                }
            }
            lemma_finish_properties(bytes, m.blocks, gb, this.added@);
            assert(m.min_key == this.added@[0].0);
            assert(m.max_key == this.added@.last().0);
        }
        Ok((out, meta))
    }

}

/// With the range keys within their 16-bit encodings, the metadata block
/// at finish stays within a per-record bound: every sparse-index entry and
/// the pending tail cost at most 65 559 bytes, and the record count caps
/// how many there are.
pub proof fn lemma_finish_meta_len_bound(b: &SstableBuilder)
    requires
        b.wf(),
        b.added@.len() > 0,
        b.added@[0].0.len() <= 0xFFFF,
        b.added@.last().0.len() <= 0xFFFF,
    ensures
        b.spec_finish_meta_len() <= 56 + b.added@.len() * 65559 + 45
            + crate::bloom::spec_bloom_bitmap_bytes(
            b.added@.len() as int,
            b.config.bloom_false_positive_rate_ppm as int,
        ) + 131070,
{
    let gb = b.sealed@;
    let models = b.block_metas@.map_values(|bm: BlockMeta| bm@);
    assert forall|t: int| 0 <= t < models.len() implies (#[trigger] models[t]).first_key.len()
        <= 0xFFFF by {
        assert(region_ok(b.out@, (b.block_metas@[t])@, gb[t]));
        let blk = gb[t];
        assert(block_entries_of(blk.0, blk.1)[0].0 == crate::block::entry_key(
            blk.0,
            blk.1[0] as int,
        ));
        assert(crate::block::entry_ok(blk.0, blk.1[0] as int));
    }
    crate::meta::lemma_block_metas_len_bound(models);
    assert forall|t: int| 0 <= t < gb.len() implies block_entries_of(
        (#[trigger] gb[t]).0,
        gb[t].1,
    ).len() > 0 by {
        assert(region_ok(b.out@, (b.block_metas@[t])@, gb[t]));
    }
    lemma_sealed_count(gb);
    assert(sealed_entries(gb).len() + b.current_block.entries().len() == b.added@.len()) by {
        assert(encoded_pairs(b.added@).len() == b.added@.len());
    }
    let n = b.added@.len() as int;
    let metas_count = models.len() as int;
    let cur = b.current_block.entries().len() as int;
    assert(metas_count == gb.len());
    assert(metas_count + (if cur == 0 {
        0int
    } else {
        1int
    }) <= n);
    if cur > 0 {
        assert(b.current_block.entries()[0].0 == crate::block::entry_key(
            b.current_block.data@,
            b.current_block.offsets@[0] as int,
        ));
        assert(crate::block::entry_ok(b.current_block.data@, b.current_block.offsets@[0] as int));
        assert(b.current_block.entries()[0].0.len() <= 0xFFFF);
    }
    assert(crate::meta::spec_block_metas_len(models) <= metas_count * 65559);
    assert(metas_count * 65559 + (if cur == 0 {
        0int
    } else {
        65559int
    }) <= n * 65559) by (nonlinear_arith)
        requires
            metas_count + (if cur == 0 {
                0int
            } else {
                1int
            }) <= n,
            metas_count >= 0,
            cur >= 0,
    ;
}

/// Non-empty sealed blocks hold at least one entry each.
pub proof fn lemma_sealed_count(gb: Seq<(Seq<u8>, Seq<u16>)>)
    requires
        forall|b: int| 0 <= b < gb.len() ==> block_entries_of((#[trigger] gb[b]).0, gb[b].1).len()
            > 0,
    ensures
        gb.len() <= sealed_entries(gb).len(),
    decreases gb.len(),
{
    if gb.len() > 0 {
        assert forall|b: int| 0 <= b < gb.skip(1).len() implies block_entries_of(
            (#[trigger] gb.skip(1)[b]).0,
            gb.skip(1)[b].1,
        ).len() > 0 by {
            assert(gb.skip(1)[b] == gb[b + 1]);
        }
        lemma_sealed_count(gb.skip(1));
        assert(sealed_entries(gb) =~= block_entries_of(gb[0].0, gb[0].1) + sealed_entries(
            gb.skip(1),
        ));
    }
}

/// Prefix lengths of the sealed run grow with the block index.
pub proof fn lemma_sealed_prefix_monotone(gb: Seq<(Seq<u8>, Seq<u16>)>, b1: int, b2: int)
    requires
        0 <= b1 <= b2 <= gb.len(),
    ensures
        sealed_prefix_len(gb, b1) <= sealed_prefix_len(gb, b2),
    decreases b2 - b1,
{
    if b1 < b2 {
        lemma_sealed_position(gb, b2 - 1);
        lemma_sealed_prefix_monotone(gb, b1, b2 - 1);
    }
}

/// When every listed region parses to its sealed block, the file's entries
/// are the sealed run.
pub proof fn lemma_region_entries_concat(
    d: Seq<u8>,
    blocks: Seq<BlockMetaModel>,
    gb: Seq<(Seq<u8>, Seq<u16>)>,
)
    requires
        blocks.len() == gb.len(),
        forall|b: int|
            0 <= b < blocks.len() ==> spec_block_region_entries(d, #[trigger] blocks[b])
                == block_entries_of(gb[b].0, gb[b].1),
    ensures
        spec_sstable_entries(d, blocks) =~= sealed_entries(gb),
    decreases blocks.len(),
{
    if blocks.len() > 0 {
        assert forall|b: int| 0 <= b < blocks.skip(1).len() implies spec_block_region_entries(
            d,
            #[trigger] blocks.skip(1)[b],
        ) == block_entries_of(gb.skip(1)[b].0, gb.skip(1)[b].1) by {
            assert(blocks.skip(1)[b] == blocks[b + 1]);
            assert(gb.skip(1)[b] == gb[b + 1]);
        }
        lemma_region_entries_concat(d, blocks.skip(1), gb.skip(1));
    }
}


/// From per-region parse-back facts, an ascending flat run, and the
/// first-key labels, the file's entries are the flat run, the sparse index
/// is strictly ordered by first key, and every block's keys sit inside its
/// fence.
#[verifier::rlimit(100)]
#[verifier::spinoff_prover]
pub proof fn lemma_finish_properties(
    bytes: Seq<u8>,
    blocks: Seq<BlockMetaModel>,
    gb: Seq<(Seq<u8>, Seq<u16>)>,
    added: Seq<(Seq<u8>, RecordModel)>,
)
    requires
        blocks.len() == gb.len(),
        forall|b: int|
            0 <= b < blocks.len() ==> spec_block_region_entries(bytes, #[trigger] blocks[b])
                == block_entries_of(gb[b].0, gb[b].1),
        forall|b: int|
            0 <= b < blocks.len() ==> ((#[trigger] blocks[b]).first_key == block_entries_of(
                gb[b].0,
                gb[b].1,
            )[0].0 && block_entries_of(gb[b].0, gb[b].1).len() > 0),
        sealed_entries(gb) == encoded_pairs(added),
        added_ascending(added),
    ensures
        spec_sstable_entries(bytes, blocks) == encoded_pairs(added),
        forall|b1: int, b2: int|
            0 <= b1 < b2 < blocks.len() ==> lex_lt(
                (#[trigger] blocks[b1]).first_key,
                (#[trigger] blocks[b2]).first_key,
            ),
        forall|b: int, l: int|
            #![trigger spec_block_region_entries(bytes, blocks[b])[l]]
            0 <= b < blocks.len() && 0 <= l < spec_block_region_entries(bytes, blocks[b]).len()
                ==> {
                let ek = spec_block_region_entries(bytes, blocks[b])[l].0;
                &&& lex_le(blocks[b].first_key, ek)
                &&& (b + 1 < blocks.len() ==> lex_lt(ek, blocks[b + 1].first_key))
            },
        blocks.len() > 0 ==> blocks[0].first_key == added[0].0,
{
    lemma_region_entries_concat(bytes, blocks, gb);
    assert(encoded_pairs(added).len() == added.len());
    assert forall|b: int, l: int|
        #![trigger spec_block_region_entries(bytes, blocks[b])[l]]
        0 <= b < blocks.len() && 0 <= l < spec_block_region_entries(bytes, blocks[b]).len()
            implies {
            let ek = spec_block_region_entries(bytes, blocks[b])[l].0;
            &&& lex_le(blocks[b].first_key, ek)
            &&& (b + 1 < blocks.len() ==> lex_lt(ek, blocks[b + 1].first_key))
        } by {
        let ek = spec_block_region_entries(bytes, blocks[b])[l].0;
        lemma_sealed_position(gb, b);
        let p = sealed_prefix_len(gb, b);
        assert(sealed_entries(gb)[sealed_prefix_len(gb, b) + l] == block_entries_of(
            gb[b].0,
            gb[b].1,
        )[l]);
        assert(sealed_entries(gb)[sealed_prefix_len(gb, b) + 0] == block_entries_of(
            gb[b].0,
            gb[b].1,
        )[0]);
        assert(encoded_pairs(added)[p + l].0 == added[p + l].0);
        assert(encoded_pairs(added)[p].0 == added[p].0);
        if l > 0 {
            assert(lex_lt(added[p].0, added[p + l].0));
        }
        assert(lex_le(blocks[b].first_key, ek));
        if b + 1 < blocks.len() {
            assert((blocks[b + 1]).first_key == block_entries_of(gb[b + 1].0, gb[b + 1].1)[0].0);
            assert(block_entries_of(gb[b + 1].0, gb[b + 1].1).len() > 0);
            lemma_sealed_position(gb, b + 1);
            let q = sealed_prefix_len(gb, b + 1);
            assert(q == p + block_entries_of(gb[b].0, gb[b].1).len());
            assert(sealed_entries(gb)[sealed_prefix_len(gb, b + 1) + 0] == block_entries_of(
                gb[b + 1].0,
                gb[b + 1].1,
            )[0]);
            assert(q + 0 < sealed_entries(gb).len()) by {
                assert(sealed_prefix_len(gb, b + 2) <= sealed_entries(gb).len());
                assert(block_entries_of(gb[b + 1].0, gb[b + 1].1).len() > 0);
            }
            assert(encoded_pairs(added)[q].0 == added[q].0);
            assert(lex_lt(added[p + l].0, added[q].0));
        }
    }
    assert forall|b1: int, b2: int| 0 <= b1 < b2 < blocks.len() implies lex_lt(
        (#[trigger] blocks[b1]).first_key,
        (#[trigger] blocks[b2]).first_key,
    ) by {
        assert((blocks[b1]).first_key == block_entries_of(gb[b1].0, gb[b1].1)[0].0);
        assert((blocks[b2]).first_key == block_entries_of(gb[b2].0, gb[b2].1)[0].0);
        assert(block_entries_of(gb[b1].0, gb[b1].1).len() > 0);
        assert(block_entries_of(gb[b2].0, gb[b2].1).len() > 0);
        lemma_sealed_position(gb, b1);
        lemma_sealed_position(gb, b2);
        let p1 = sealed_prefix_len(gb, b1);
        let p2 = sealed_prefix_len(gb, b2);
        lemma_sealed_prefix_monotone(gb, b1 + 1, b2);
        assert(sealed_entries(gb)[sealed_prefix_len(gb, b1) + 0] == block_entries_of(
            gb[b1].0,
            gb[b1].1,
        )[0]);
        assert(sealed_entries(gb)[sealed_prefix_len(gb, b2) + 0] == block_entries_of(
            gb[b2].0,
            gb[b2].1,
        )[0]);
        assert(p2 + 0 < sealed_entries(gb).len()) by {
            assert(sealed_prefix_len(gb, b2 + 1) <= sealed_entries(gb).len());
            assert(block_entries_of(gb[b2].0, gb[b2].1).len() > 0);
        }
        assert(encoded_pairs(added)[p1].0 == added[p1].0);
        assert(encoded_pairs(added)[p2].0 == added[p2].0);
        assert(lex_lt(added[p1].0, added[p2].0));
    }
    if blocks.len() > 0 {
        assert(gb.subrange(0, 0) =~= Seq::<(Seq<u8>, Seq<u16>)>::empty());
        assert(sealed_entries(gb.subrange(0, 0)) =~= Seq::<(Seq<u8>, Seq<u8>)>::empty());
        lemma_sealed_position(gb, 0);
        assert(sealed_entries(gb)[sealed_prefix_len(gb, 0) + 0] == block_entries_of(
            gb[0].0,
            gb[0].1,
        )[0]);
        assert(encoded_pairs(added)[0].0 == added[0].0);
    }
}


/// Reassembles the builder invariant from its parts.
pub proof fn lemma_builder_wf(b: SstableBuilder)
    requires
        storage_config_valid(b.config),
        b.out@.len() >= 8,
        b.out@.subrange(0, 8) == spec_magic(),
        b.block_metas@.len() == b.sealed@.len(),
        forall|i: int|
            0 <= i < b.sealed@.len() ==> region_ok(
                b.out@,
                (#[trigger] b.block_metas@[i])@,
                b.sealed@[i],
            ),
        b.current_block.wf(),
        b.current_block.spec_block_size() == b.config.block_size,
        b.current_block.spec_current_size() <= b.config.block_size,
        encoded_pairs(b.added@) == sealed_entries(b.sealed@) + b.current_block.entries(),
        added_ascending(b.added@),
        b.keys_for_bloom@.len() == b.added@.len(),
        forall|j: int|
            0 <= j < b.added@.len() ==> (#[trigger] b.keys_for_bloom@[j])@ == b.added@[j].0,
        b.record_count as int == b.added@.len(),
        match b.first_key {
            Option::Some(k) => b.added@.len() > 0 && k@ == b.added@[0].0,
            Option::None => b.added@.len() == 0,
        },
        match b.last_key {
            Option::Some(k) => b.added@.len() > 0 && k@ == b.added@.last().0,
            Option::None => b.added@.len() == 0,
        },
    ensures
        b.wf(),
{
}

} // verus!
