//! Opens a sorted-run file image and answers point lookups over it.
//!
//! Opening validates the magic, reads the footer, decompresses and decodes
//! the metadata block, checks that the sparse index is strictly ordered by
//! first key, and rebuilds the membership filter from its serialized
//! bytes.  A point lookup probes the filter, fences the key against the
//! run's range, binary-searches the sparse index for the one candidate
//! block, and scans that block; the block bytes themselves are fetched by
//! the caller (from the shared cache or from disk) and judged here.

use vstd::prelude::*;

use crate::block::{block_lookup, Block};
use crate::bloom::{bloom_check, bloom_from_bytes, bloom_unpacked, bloom_view, bloom_wf};
use crate::codec::{decode_record, spec_decode_record};
use crate::compress::{lz4_decompress, lz4_unpacked};
use crate::config::{storage_config_valid, StorageConfig};
use crate::error::{LsmError, Result};
use crate::keys::{key_le, key_lt, lemma_lex_trichotomy, lex_le, lex_lt};
use crate::meta::{BlockMetaModel, MetaBlock};
use crate::record::{LogRecord, RecordModel};
use crate::sstable::{check_magic, spec_sstable_open};

verus! {

/// The sparse index is strictly ordered by first key.
pub open spec fn metas_sorted(blocks: Seq<BlockMetaModel>) -> bool {
    forall|i: int, j: int|
        0 <= i < j < blocks.len() ==> lex_lt(
            (#[trigger] blocks[i]).first_key,
            (#[trigger] blocks[j]).first_key,
        )
}

/// The unique candidate block for `key`: the last block whose first key is
/// at most `key`.
pub open spec fn is_candidate(blocks: Seq<BlockMetaModel>, key: Seq<u8>, i: int) -> bool {
    &&& 0 <= i < blocks.len()
    &&& lex_le(blocks[i].first_key, key)
    &&& (i + 1 < blocks.len() ==> lex_lt(key, blocks[i + 1].first_key))
}

/// What judging a decompressed block for `key` yields: the record stored
/// under the key, nothing, or a corruption verdict when the stored value
/// bytes are no record image.
pub open spec fn spec_block_judgement(data: Seq<u8>, key: Seq<u8>) -> Result<Option<RecordModel>> {
    match crate::block::spec_parse_block(data) {
        Option::None => Ok(Option::None),
        Option::Some(p) => match block_lookup(crate::block::block_entries_of(p.0, p.1), key) {
            Option::None => Ok(Option::None),
            Option::Some(vbytes) => match spec_decode_record(vbytes) {
                Option::None => Err(LsmError::Serialization("record bytes do not parse")),
                Option::Some(r) => Ok(Option::Some(r)),
            },
        },
    }
}

/// An open sorted run: its metadata, its rebuilt filter, the identity its
/// blocks are cached under, and the storage knobs.
#[derive(Debug)]
pub struct SstableReader {
    pub meta: MetaBlock,
    pub file_id: u64,
    pub config: StorageConfig,
    pub bloom: bloomfilter::Bloom<[u8]>,
}

impl SstableReader {
    /// The filter rebuilt at open guarantees the serialized key set.
    pub open spec fn bloom_ok(&self) -> bool {
        &&& bloom_wf(self.bloom)
        &&& bloom_unpacked(self.meta@.bloom_filter_data) == Option::Some(bloom_view(self.bloom))
    }

    /// An open run is structurally sound: ordered sparse index, a filter
    /// that matches its serialized bytes, in-range knobs.
    pub open spec fn wf(&self) -> bool {
        &&& metas_sorted(self.meta@.blocks)
        &&& self.bloom_ok()
        &&& storage_config_valid(self.config)
    }

    /// Opens a file image: magic, footer, metadata, index order, filter.
    /// Accepts exactly the images that parse and validate.
    pub fn open(bytes: &[u8], config: StorageConfig, file_id: u64) -> (r: Result<SstableReader>)
        requires
            storage_config_valid(config),
        ensures
            match r {
                Ok(reader) => {
                    &&& spec_sstable_open(bytes@) == Option::Some(reader.meta@)
                    &&& reader.wf()
                    &&& reader.config == config
                    &&& reader.file_id == file_id
                },
                Err(_) => true,
            },
            r is Err ==> match spec_sstable_open(bytes@) {
                Option::Some(m) => !metas_sorted(m.blocks) || !(46 <= m.bloom_filter_data.len()
                    <= usize::MAX / 8) || bloom_unpacked(m.bloom_filter_data) is None,
                Option::None => true,
            },
            spec_sstable_open(bytes@) is None ==> r is Err,
            bytes@.len() < 16 ==> r == Result::<SstableReader>::Err(
                LsmError::InvalidSstableFormat("file too short"),
            ),
            bytes@.len() >= 16 && bytes@.subrange(0, 8) != crate::sstable::spec_magic() ==> r
                == Result::<SstableReader>::Err(LsmError::InvalidSstableFormat("bad magic bytes")),
    {
        let len: usize = bytes.len();
        if len < 16 {
            return Err(LsmError::InvalidSstableFormat("file too short"));
        }
        if !check_magic(bytes) {
            return Err(LsmError::InvalidSstableFormat("bad magic bytes"));
        }
        let foot = vstd::bytes::u64_from_le_bytes(vstd::slice::slice_subrange(bytes, len - 8, len));
        if foot < 8 || foot > (len - 8) as u64 {
            return Err(LsmError::CorruptedData("footer offset out of range"));
        }
        let meta_region = vstd::slice::slice_subrange(bytes, foot as usize, len - 8);
        let meta_bytes = match lz4_decompress(meta_region) {
            Some(d) => d,
            None => {
                return Err(LsmError::DecompressionFailed("metadata region does not unpack"));
            },
        };
        let meta = match crate::meta::decode_meta_block(meta_bytes.as_slice()) {
            Ok(m) => m,
            Err(_) => {
                return Err(LsmError::CorruptedData("metadata bytes do not parse"));
            },
        };
        proof {
            assert(bytes@.subrange(bytes@.len() - 8, bytes@.len() as int) =~= bytes@.subrange(
                (len - 8) as int,
                len as int,
            ));
            assert(spec_sstable_open(bytes@) == Option::Some(meta@));
        }
        // The sparse index must be strictly ordered by first key.
        let mut i: usize = 1;
        while i < meta.blocks.len()
            invariant
                1 <= i,
                i <= meta.blocks@.len() || meta.blocks@.len() == 0,
                spec_sstable_open(bytes@) == Option::Some(meta@),
                forall|a: int, b: int|
                    0 <= a < b < i && b < meta.blocks@.len() ==> lex_lt(
                        (#[trigger] meta.blocks@[a])@.first_key,
                        (#[trigger] meta.blocks@[b])@.first_key,
                    ),
            decreases meta.blocks@.len() - i,
        {
            if !key_lt(
                meta.blocks[i - 1].first_key.as_slice(),
                meta.blocks[i].first_key.as_slice(),
            ) {
                proof {
                    assert(meta@.blocks[i - 1] == meta.blocks@[i - 1]@);
                    assert(meta@.blocks[i as int] == meta.blocks@[i as int]@);
                    assert(!metas_sorted(meta@.blocks)) by {
                        if metas_sorted(meta@.blocks) {
                            assert(lex_lt(
                                meta@.blocks[i - 1].first_key,
                                meta@.blocks[i as int].first_key,
                            ));
                        }
                    }
                }
                return Err(LsmError::InvalidSstable);
            }
            proof {
                assert forall|a: int, b: int|
                    0 <= a < b < i + 1 && b < meta.blocks@.len() implies lex_lt(
                    (#[trigger] meta.blocks@[a])@.first_key,
                    (#[trigger] meta.blocks@[b])@.first_key,
                ) by {
                    if b == i && a < i - 1 {
                        crate::keys::lemma_lex_transitive(
                            meta.blocks@[a]@.first_key,
                            meta.blocks@[i - 1]@.first_key,
                            meta.blocks@[b]@.first_key,
                        );
                    }
                }
            }
            i = i + 1;
        }
        proof {
            assert(metas_sorted(meta@.blocks)) by {
                assert forall|a: int, b: int| 0 <= a < b < meta@.blocks.len() implies lex_lt(
                    (#[trigger] meta@.blocks[a]).first_key,
                    (#[trigger] meta@.blocks[b]).first_key,
                ) by {
                    assert(meta@.blocks[a] == meta.blocks@[a]@);
                    assert(meta@.blocks[b] == meta.blocks@[b]@);
                }
            }
        }
        // Rebuild the filter from its serialized bytes.
        if meta.bloom_filter_data.len() < 46 || meta.bloom_filter_data.len() > usize::MAX / 8 {
            return Err(LsmError::CorruptedData("filter bytes out of range"));
        }
        let bloom = match bloom_from_bytes(meta.bloom_filter_data.as_slice()) {
            Ok(b) => b,
            Err(_) => {
                return Err(LsmError::CorruptedData("filter bytes do not parse"));
            },
        };
        Ok(SstableReader { meta, file_id, config, bloom })
    }

    /// Probes the filter: a key the run was built over always answers true;
    /// a false answer is authoritative absence.
    pub fn might_contain(&self, key: &[u8]) -> (r: bool)
        requires
            self.wf(),
        ensures
            match bloom_unpacked(self.meta@.bloom_filter_data) {
                Option::Some(s) => s.contains(key@) ==> r,
                Option::None => true,
            },
    {
        bloom_check(&self.bloom, key)
    }

    /// Finds the one candidate block for `key`: filter probe, range fence,
    /// binary search of the sparse index.  A found index is exactly the
    /// candidate; absence is authoritative whenever the filter vouched for
    /// the key and it sits inside the fences.
    pub fn locate(&self, key: &[u8]) -> (r: Option<usize>)
        requires
            self.wf(),
        ensures
            match r {
                Option::Some(i) => is_candidate(self.meta@.blocks, key@, i as int) && lex_le(
                    self.meta@.min_key,
                    key@,
                ) && lex_le(key@, self.meta@.max_key),
                Option::None => (match bloom_unpacked(self.meta@.bloom_filter_data) {
                    Option::Some(s) => s.contains(key@) ==> lex_lt(key@, self.meta@.min_key)
                        || lex_lt(self.meta@.max_key, key@) || (self.meta@.blocks.len() > 0
                        && lex_lt(key@, self.meta@.blocks[0].first_key)) || self.meta@.blocks.len()
                        == 0,
                    Option::None => true,
                }),
            },
    {
        if !self.might_contain(key) {
            return None;
        }
        if key_lt(key, self.meta.min_key.as_slice()) {
            return None;
        }
        if key_lt(self.meta.max_key.as_slice(), key) {
            return None;
        }
        proof {
            lemma_lex_trichotomy(self.meta@.min_key, key@);
            lemma_lex_trichotomy(key@, self.meta@.max_key);
        }
        let n = self.meta.blocks.len();
        if n == 0 {
            return None;
        }
        // Binary search: the number of leading blocks whose first key is at
        // most `key`.
        let mut lo: usize = 0;
        let mut hi: usize = n;
        while lo < hi
            invariant
                0 <= lo <= hi <= n,
                n == self.meta@.blocks.len(),
                self.wf(),
                forall|a: int|
                    0 <= a < lo ==> lex_le((#[trigger] self.meta@.blocks[a]).first_key, key@),
                forall|a: int|
                    hi <= a < n ==> lex_lt(key@, (#[trigger] self.meta@.blocks[a]).first_key),
            decreases hi - lo,
        {
            let mid = lo + (hi - lo) / 2;
            proof {
                assert(self.meta@.blocks[mid as int] == self.meta.blocks@[mid as int]@);
            }
            if key_le(self.meta.blocks[mid].first_key.as_slice(), key) {
                proof {
                    assert forall|a: int| 0 <= a < mid + 1 implies lex_le(
                        (#[trigger] self.meta@.blocks[a]).first_key,
                        key@,
                    ) by {
                        if a < mid {
                            if lex_lt(key@, self.meta@.blocks[a].first_key) {
                                crate::keys::lemma_lex_transitive(
                                    key@,
                                    self.meta@.blocks[a].first_key,
                                    self.meta@.blocks[mid as int].first_key,
                                );
                                lemma_lex_trichotomy(
                                    self.meta@.blocks[mid as int].first_key,
                                    key@,
                                );
                            }
                            lemma_lex_trichotomy(key@, self.meta@.blocks[a].first_key);
                        }
                    }
                }
                lo = mid + 1;
            } else {
                proof {
                    lemma_lex_trichotomy(self.meta@.blocks[mid as int].first_key, key@);
                    assert(lex_lt(key@, self.meta@.blocks[mid as int].first_key));
                    assert forall|a: int| mid <= a < n implies lex_lt(
                        key@,
                        (#[trigger] self.meta@.blocks[a]).first_key,
                    ) by {
                        if a > mid {
                            crate::keys::lemma_lex_transitive(
                                key@,
                                self.meta@.blocks[mid as int].first_key,
                                self.meta@.blocks[a].first_key,
                            );
                        }
                    }
                }
                hi = mid;
            }
        }
        if lo == 0 {
            return None;
        }
        proof {
            assert(lex_le(self.meta@.blocks[lo - 1].first_key, key@));
        }
        Some(lo - 1)
    }

    /// The (offset, compressed size, uncompressed size) of block `i`.
    pub fn block_range(&self, i: usize) -> (r: (u64, u32, u32))
        requires
            i < self.meta@.blocks.len(),
        ensures
            r.0 == self.meta@.blocks[i as int].offset,
            r.1 == self.meta@.blocks[i as int].size,
            r.2 == self.meta@.blocks[i as int].uncompressed_size,
    {
        proof {
            assert(self.meta@.blocks[i as int] == self.meta.blocks@[i as int]@);
        }
        let bm = &self.meta.blocks[i];
        (bm.offset, bm.size, bm.uncompressed_size)
    }

    /// How many data blocks the run holds.
    pub fn block_count(&self) -> (r: usize)
        ensures
            r == self.meta@.blocks.len(),
    {
        self.meta.blocks.len()
    }

    /// Unpacks a fetched compressed block and holds it against the sparse
    /// index: a frame that does not unpack, or unpacks to the wrong size,
    /// is corruption.
    pub fn decompress_block(&self, i: usize, raw: &[u8]) -> (r: Result<Vec<u8>>)
        requires
            i < self.meta@.blocks.len(),
        ensures
            match r {
                Ok(d) => lz4_unpacked(raw@) == Option::Some(d@) && d@.len()
                    == self.meta@.blocks[i as int].uncompressed_size,
                Err(e) => (e == LsmError::DecompressionFailed("block does not unpack")
                    && lz4_unpacked(raw@) is None) || (e == LsmError::CorruptedData(
                    "block size mismatch",
                ) && (match lz4_unpacked(raw@) {
                    Option::Some(d) => d.len() != self.meta@.blocks[i as int].uncompressed_size,
                    Option::None => false,
                })),
            },
    {
        proof {
            assert(self.meta@.blocks[i as int] == self.meta.blocks@[i as int]@);
        }
        let decompressed = match lz4_decompress(raw) {
            Some(d) => d,
            None => {
                return Err(LsmError::DecompressionFailed("block does not unpack"));
            },
        };
        if decompressed.len() as u64 != self.meta.blocks[i].uncompressed_size as u64 {
            return Err(LsmError::CorruptedData("block size mismatch"));
        }
        Ok(decompressed)
    }

    /// Scans one decompressed block for `key` and decodes the record found
    /// under it, judging the bytes exactly.
    pub fn search_block(&self, data: &[u8], key: &[u8]) -> (r: Result<Option<LogRecord>>)
        ensures
            match r {
                Ok(opt) => match opt {
                    Option::Some(rec) => spec_block_judgement(data@, key@) == Result::<
                        Option<RecordModel>,
                    >::Ok(Option::Some(rec@)),
                    Option::None => spec_block_judgement(data@, key@) == Result::<
                        Option<RecordModel>,
                    >::Ok(Option::None),
                },
                Err(e) => spec_block_judgement(data@, key@) == Result::<
                    Option<RecordModel>,
                >::Err(e),
            },
    {
        let block = Block::decode(data);
        proof {
            if crate::block::spec_parse_block(data@) is None {
                assert(block.entries().len() == 0);
                assert(block_lookup(block.entries(), key@) is None);
            }
        }
        match block.get(key) {
            Some(vbytes) => match decode_record(vbytes.as_slice()) {
                Ok(rec) => Ok(Some(rec)),
                Err(e) => Err(e),
            },
            None => Ok(None),
        }
    }

    /// Decodes every entry of one decompressed block into keyed records,
    /// in stored order; a value that is no record image is corruption.
    pub fn block_records(&self, data: &[u8]) -> (r: Result<Vec<(Vec<u8>, LogRecord)>>)
        ensures
            match r {
                Ok(rs) => {
                    let es = spec_region_block_entries(data@);
                    &&& rs@.len() == es.len()
                    &&& forall|j: int|
                        0 <= j < es.len() ==> (#[trigger] rs@[j]).0@ == es[j].0
                            && spec_decode_record(es[j].1) == Option::Some(rs@[j].1@)
                },
                Err(e) => e == LsmError::Serialization("record bytes do not parse") && exists|
                    j: int,
                |
                    0 <= j < spec_region_block_entries(data@).len() && spec_decode_record(
                        (#[trigger] spec_region_block_entries(data@)[j]).1,
                    ) is None,
            },
    {
        let block = Block::decode(data);
        let ghost es = spec_region_block_entries(data@);
        proof {
            if crate::block::spec_parse_block(data@) is None {
                assert(block.entries().len() == 0);
            }
            assert(es == block.entries());
        }
        let n = block.len();
        let mut out: Vec<(Vec<u8>, LogRecord)> = Vec::new();
        let mut j: usize = 0;
        while j < n
            invariant
                0 <= j <= n,
                n == block.entries().len(),
                block.wf(),
                es == block.entries(),
                es == spec_region_block_entries(data@),
                out@.len() == j,
                forall|t: int|
                    0 <= t < j ==> (#[trigger] out@[t]).0@ == es[t].0 && spec_decode_record(
                        es[t].1,
                    ) == Option::Some(out@[t].1@),
            decreases n - j,
        {
            let (ekey, evalue) = block.entry_at(j);
            match decode_record(evalue.as_slice()) {
                Ok(rec) => {
                    out.push((ekey, rec));
                },
                Err(_) => {
                    proof {
                        assert(spec_decode_record(
                            (spec_region_block_entries(data@)[j as int]).1,
                        ) is None);
                    }
                    return Err(LsmError::Serialization("record bytes do not parse"));
                },
            }
            j = j + 1;
        }
        Ok(out)
    }
}

/// The entries a decompressed block image holds; a malformed image holds
/// none.
pub open spec fn spec_region_block_entries(data: Seq<u8>) -> Seq<(Seq<u8>, Seq<u8>)> {
    match crate::block::spec_parse_block(data) {
        Option::None => Seq::<(Seq<u8>, Seq<u8>)>::empty(),
        Option::Some(p) => crate::block::block_entries_of(p.0, p.1),
    }
}

/// On an honest image, a key that no stored entry carries is judged
/// absent by every block — in particular by its candidate block — so a
/// point lookup for a missing key answers cleanly, without error.
pub proof fn lemma_absent_key_not_found(
    d: Seq<u8>,
    blocks: Seq<crate::meta::BlockMetaModel>,
    key: Seq<u8>,
    c: int,
)
    requires
        forall|i: int|
            0 <= i < crate::sstable::spec_sstable_entries(d, blocks).len() ==> (
            #[trigger] crate::sstable::spec_sstable_entries(d, blocks)[i]).0 != key,
        0 <= c < blocks.len(),
    ensures
        block_lookup(crate::sstable::spec_block_region_entries(d, blocks[c]), key) is None,
        blocks[c].offset + blocks[c].size <= d.len() ==> match crate::compress::lz4_unpacked(
            d.subrange(blocks[c].offset as int, blocks[c].offset + blocks[c].size),
        ) {
            Option::Some(data) => spec_block_judgement(data, key) == Result::<
                Option<RecordModel>,
            >::Ok(Option::<RecordModel>::None),
            Option::None => true,
        },
{
    crate::sstable::lemma_region_position(d, blocks, c);
    let eb = crate::sstable::spec_block_region_entries(d, blocks[c]);
    let flat = crate::sstable::spec_sstable_entries(d, blocks);
    assert forall|l: int| 0 <= l < eb.len() implies (#[trigger] eb[l]).0 != key by {
        assert(flat[crate::sstable::region_prefix_len(d, blocks, c) + l] == eb[l]);
    }
    crate::block::lemma_block_lookup_absent(eb, key);
    if blocks[c].offset + blocks[c].size <= d.len() {
        match crate::compress::lz4_unpacked(
            d.subrange(blocks[c].offset as int, blocks[c].offset + blocks[c].size),
        ) {
            Option::Some(data) => {
                match crate::block::spec_parse_block(data) {
                    Option::Some(pr) => {
                        assert(eb == crate::block::block_entries_of(pr.0, pr.1));
                    },
                    Option::None => {},
                }
            },
            Option::None => {},
        }
    }
}

/// On an honest image — flat entries strictly ascending, each block's
/// keys inside its sparse-index fence, as the builder emits — the
/// candidate block for any stored key holds that key's entry, and judging
/// the unpacked candidate recovers the stored record exactly: a point
/// lookup on an uncorrupted file can neither miss a stored key nor report
/// corruption.
pub proof fn lemma_stored_key_found(
    d: Seq<u8>,
    blocks: Seq<crate::meta::BlockMetaModel>,
    p: int,
    c: int,
    r: RecordModel,
)
    requires
        0 <= p < crate::sstable::spec_sstable_entries(d, blocks).len(),
        crate::sstable::spec_sstable_entries(d, blocks)[p].1 == crate::codec::spec_encode_record(
            r,
        ),
        r.key.len() <= u64::MAX,
        r.value.len() <= u64::MAX,
        forall|i: int, j: int|
            0 <= i < j < crate::sstable::spec_sstable_entries(d, blocks).len() ==> lex_lt(
                (#[trigger] crate::sstable::spec_sstable_entries(d, blocks)[i]).0,
                (#[trigger] crate::sstable::spec_sstable_entries(d, blocks)[j]).0,
            ),
        metas_sorted(blocks),
        forall|b: int, l: int|
            #![trigger crate::sstable::spec_block_region_entries(d, blocks[b])[l]]
            0 <= b < blocks.len() && 0 <= l < crate::sstable::spec_block_region_entries(
                d,
                blocks[b],
            ).len() ==> {
                let ek = crate::sstable::spec_block_region_entries(d, blocks[b])[l].0;
                &&& lex_le(blocks[b].first_key, ek)
                &&& (b + 1 < blocks.len() ==> lex_lt(ek, blocks[b + 1].first_key))
            },
        is_candidate(blocks, crate::sstable::spec_sstable_entries(d, blocks)[p].0, c),
    ensures
        blocks[c].offset + blocks[c].size <= d.len(),
        block_lookup(
            crate::sstable::spec_block_region_entries(d, blocks[c]),
            crate::sstable::spec_sstable_entries(d, blocks)[p].0,
        ) == Option::Some(crate::codec::spec_encode_record(r)),
        match crate::compress::lz4_unpacked(
            d.subrange(blocks[c].offset as int, blocks[c].offset + blocks[c].size),
        ) {
            Option::Some(data) => spec_block_judgement(
                data,
                crate::sstable::spec_sstable_entries(d, blocks)[p].0,
            ) == Result::<Option<RecordModel>>::Ok(Option::Some(r)),
            Option::None => false,
        },
{
    let flat = crate::sstable::spec_sstable_entries(d, blocks);
    let k = flat[p].0;
    crate::sstable::lemma_region_partition(d, blocks, p);
    let b = choose|b: int|
        0 <= b < blocks.len() && (#[trigger] crate::sstable::region_prefix_len(d, blocks, b)) <= p
            < crate::sstable::region_prefix_len(d, blocks, b + 1);
    crate::sstable::lemma_region_position(d, blocks, b);
    let eb = crate::sstable::spec_block_region_entries(d, blocks[b]);
    let l = p - crate::sstable::region_prefix_len(d, blocks, b);
    assert(flat[crate::sstable::region_prefix_len(d, blocks, b) + l] == eb[l]);
    assert(eb[l] == flat[p]);
    assert(0 <= l < eb.len());
    // The fence at (b, l) places `k` in block `b`'s key range.
    assert(lex_le(blocks[b].first_key, eb[l].0) && (b + 1 < blocks.len() ==> lex_lt(
        eb[l].0,
        blocks[b + 1].first_key,
    )));
    // The candidate block is `b` itself: any other placement breaks the
    // strict order of the sparse index.
    assert(b == c) by {
        if b < c {
            assert(lex_lt(k, blocks[b + 1].first_key));
            if b + 1 < c {
                assert(lex_lt(blocks[b + 1].first_key, blocks[c].first_key));
                crate::keys::lemma_lex_transitive(
                    k,
                    blocks[b + 1].first_key,
                    blocks[c].first_key,
                );
            }
            assert(lex_lt(k, blocks[c].first_key));
            assert(lex_le(blocks[c].first_key, k));
            crate::keys::lemma_lex_trichotomy(k, blocks[c].first_key);
            if blocks[c].first_key == k {
            } else {
                crate::keys::lemma_lex_transitive(k, blocks[c].first_key, k);
                crate::keys::lemma_lex_trichotomy(k, k);
            }
        }
        if b > c {
            assert(c + 1 < blocks.len());
            assert(lex_lt(k, blocks[c + 1].first_key));
            if c + 1 < b {
                assert(lex_lt(blocks[c + 1].first_key, blocks[b].first_key));
                crate::keys::lemma_lex_transitive(
                    k,
                    blocks[c + 1].first_key,
                    blocks[b].first_key,
                );
            }
            assert(lex_lt(k, blocks[b].first_key));
            assert(lex_le(blocks[b].first_key, k));
            crate::keys::lemma_lex_trichotomy(k, blocks[b].first_key);
            if blocks[b].first_key == k {
            } else {
                crate::keys::lemma_lex_transitive(k, blocks[b].first_key, k);
                crate::keys::lemma_lex_trichotomy(k, k);
            }
        }
    }
    // Keys within the candidate block ascend, so lookup finds entry `l`.
    assert forall|l1: int, l2: int| 0 <= l1 < l2 < eb.len() implies lex_lt(
        (#[trigger] eb[l1]).0,
        (#[trigger] eb[l2]).0,
    ) by {
        assert(flat[crate::sstable::region_prefix_len(d, blocks, b) + l1] == eb[l1]);
        assert(flat[crate::sstable::region_prefix_len(d, blocks, b) + l2] == eb[l2]);
    }
    crate::block::lemma_block_lookup_at(eb, l);
    assert(block_lookup(eb, k) == Option::Some(crate::codec::spec_encode_record(r)));
    // A block holding an entry was cut, unpacked and parsed successfully.
    assert(blocks[c].offset + blocks[c].size <= d.len()) by {
        if blocks[c].offset + blocks[c].size > d.len() {
            assert(eb.len() == 0);
        }
    }
    match crate::compress::lz4_unpacked(
        d.subrange(blocks[c].offset as int, blocks[c].offset + blocks[c].size),
    ) {
        Option::Some(data) => {
            assert(crate::block::spec_parse_block(data) is Some) by {
                if crate::block::spec_parse_block(data) is None {
                    assert(eb.len() == 0);
                }
            }
            crate::codec::lemma_record_round_trip(r);
        },
        Option::None => {
            assert(eb.len() == 0);
        },
    }
}

} // verus!
