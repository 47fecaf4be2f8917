//! The engine: the coordinator of staging table, write-ahead log framing,
//! sorted runs and the shared block cache.
//!
//! The engine holds every decision of the store; the embedding shell only
//! moves bytes.  The protocol:
//!
//! - startup: the shell reads the log image and every run file, recovers
//!   records with [`crate::wal::recover_records`], opens each run with
//!   [`crate::reader::SstableReader::open`], and hands both to
//!   [`LsmEngine::assemble`];
//! - write: the shell frames the record, appends and syncs the log file,
//!   and only on success calls [`LsmEngine::apply_write`]; when that asks for
//!   a flush, [`LsmEngine::build_flush`] yields the new run's timestamp and
//!   file image, the shell persists and syncs it, reopens it as a reader,
//!   calls [`LsmEngine::install_flush`], and then truncates the log — the
//!   run is durable before the log is cleared;
//! - read: [`LsmEngine::lookup_start`] answers from the staging table or the
//!   cache, or names the one block range to fetch; the shell reads that
//!   range and resumes with [`LsmEngine::lookup_resume`] until done;
//! - scan: the engine walks every block of every run the same way, merging
//!   newest-first with tombstones dropped.

use vstd::multiset::Multiset;
use vstd::prelude::*;

use crate::builder::{encoded_pairs, SstableBuilder};
use crate::bloom::bloom_unpacked;
use crate::cache::{CacheKey, GlobalBlockCache};
use crate::compress::lz4_unpacked;
use crate::config::{core_config_valid, storage_config_valid, LsmConfig};
use crate::error::{LsmError, Result};
use crate::keys::lex_lt;
use crate::memtable::{entries_view, MemTable};
use crate::reader::{is_candidate, spec_block_judgement, SstableReader};
use crate::record::{LogRecord, RecordModel};
use crate::sstable::{spec_sstable_entries, spec_sstable_open};

verus! {

/// The record a replayed log leaves under `k`: the last one framed for it.
pub open spec fn wal_last_write(rs: Seq<RecordModel>, k: Seq<u8>) -> Option<RecordModel>
    decreases rs.len(),
{
    if rs.len() == 0 {
        Option::None
    } else if rs.last().key == k {
        Option::Some(rs.last())
    } else {
        wal_last_write(rs.drop_last(), k)
    }
}

/// The first source holding `k` answers for it: the staging table first,
/// the runs newest to oldest after it.
pub open spec fn first_hit(sources: Seq<Seq<(Seq<u8>, RecordModel)>>, k: Seq<u8>) -> Option<
    RecordModel,
>
    decreases sources.len(),
{
    if sources.len() == 0 {
        Option::None
    } else {
        match crate::memtable::assoc_lookup(sources[0], k) {
            Option::Some(r) => Option::Some(r),
            Option::None => first_hit(sources.skip(1), k),
        }
    }
}

/// Moving the front source's content behind the remaining sources changes
/// no answer: a flush that turns the staging table into the newest run
/// preserves every lookup.
pub proof fn lemma_flush_preserves_first_hit(
    mem: Seq<(Seq<u8>, RecordModel)>,
    rest: Seq<Seq<(Seq<u8>, RecordModel)>>,
    k: Seq<u8>,
)
    ensures
        first_hit(seq![mem] + rest, k) == first_hit(
            seq![Seq::<(Seq<u8>, RecordModel)>::empty(), mem] + rest,
            k,
        ),
{
    let a = seq![mem] + rest;
    let b = seq![Seq::<(Seq<u8>, RecordModel)>::empty(), mem] + rest;
    assert(b[0].len() == 0);
    assert(crate::memtable::assoc_lookup(b[0], k) is None);
    assert(b.skip(1) =~= a);
}

/// The live answer a lookup result stands for: a tombstone and absence
/// both answer "not present".
pub open spec fn live_of(r: Option<RecordModel>) -> Option<Seq<u8>> {
    match r {
        Option::Some(rec) => if rec.is_deleted {
            Option::<Seq<u8>>::None
        } else {
            Option::Some(rec.value)
        },
        Option::None => Option::None,
    }
}

/// Whether the newest source holding `k` is the staging table or some
/// run, a tombstone there makes the store's live answer for `k` absent,
/// whatever live values older sources hold.
pub proof fn lemma_tombstone_wins(
    sources: Seq<Seq<(Seq<u8>, RecordModel)>>,
    i: int,
    k: Seq<u8>,
    r: RecordModel,
)
    requires
        0 <= i < sources.len(),
        crate::memtable::assoc_lookup(sources[i], k) == Option::Some(r),
        r.is_deleted,
        forall|j: int|
            0 <= j < i ==> crate::memtable::assoc_lookup(#[trigger] sources[j], k) is None,
    ensures
        live_of(first_hit(sources, k)) is None,
{
    lemma_tombstone_shadows(sources, i, k, r);
}

/// A fetch request is honest: it names a run at or after `start`, by its
/// creation timestamp, whose key fences admit `key`, and the byte range of
/// exactly the candidate block of `key` in that run, which the cache does
/// not hold.  A key outside every run's range is answered without any
/// fetch.
pub open spec fn fetch_ok(
    e: LsmEngine,
    start: int,
    key: Seq<u8>,
    sst_index: int,
    file_timestamp: u128,
    offset: u64,
    size: u32,
) -> bool {
    &&& start <= sst_index < e.sstables@.len()
    &&& file_timestamp == e.sstables@[sst_index].meta@.timestamp
    &&& crate::keys::lex_le(e.sstables@[sst_index].meta@.min_key, key)
    &&& crate::keys::lex_le(key, e.sstables@[sst_index].meta@.max_key)
    &&& exists|c: int|
        {
            &&& #[trigger] is_candidate(e.sstables@[sst_index].meta@.blocks, key, c)
            &&& offset == e.sstables@[sst_index].meta@.blocks[c].offset
            &&& size == e.sstables@[sst_index].meta@.blocks[c].size
        }
    &&& !e.cache.contents().contains_key((e.sstables@[sst_index].file_id, offset))
}

/// A tombstone shadows every older source: when the first source holding
/// `k` answers with a deletion, that deletion is the store's answer, no
/// matter what older sources hold under the key.
pub proof fn lemma_tombstone_shadows(
    sources: Seq<Seq<(Seq<u8>, RecordModel)>>,
    i: int,
    k: Seq<u8>,
    r: RecordModel,
)
    requires
        0 <= i < sources.len(),
        crate::memtable::assoc_lookup(sources[i], k) == Option::Some(r),
        forall|j: int|
            0 <= j < i ==> crate::memtable::assoc_lookup(#[trigger] sources[j], k) is None,
    ensures
        first_hit(sources, k) == Option::Some(r),
    decreases i,
{
    if i == 0 {
    } else {
        assert(crate::memtable::assoc_lookup(sources[0], k) is None);
        assert forall|j: int|
            0 <= j < i - 1 implies crate::memtable::assoc_lookup(
            #[trigger] sources.skip(1)[j],
            k,
        ) is None by {
            assert(sources.skip(1)[j] == sources[j + 1]);
        }
        assert(sources.skip(1)[i - 1] == sources[i as int]);
        lemma_tombstone_shadows(sources.skip(1), i - 1, k, r);
    }
}

/// A step in a point lookup: the answer, or the one block range to fetch.
#[derive(Debug)]
pub enum LookupStep {
    /// The lookup is decided: the live value, or absence.
    Done(Option<Vec<u8>>),
    /// Fetch `size` bytes at `offset` of the run created at
    /// `file_timestamp`, and resume with them and `sst_index`.
    Fetch { sst_index: usize, file_timestamp: u128, offset: u64, size: u32 },
}

/// The cache holds run `i`'s block `c`.
pub open spec fn block_cached(
    ssts: Seq<SstableReader>,
    cache: Map<(u64, u64), Seq<u8>>,
    i: int,
    c: int,
) -> bool {
    cache.contains_key((ssts[i].file_id, ssts[i].meta@.blocks[c].offset))
}

/// What judging run `i`'s cached block `c` for `key` yields.
pub open spec fn cached_judgement(
    ssts: Seq<SstableReader>,
    cache: Map<(u64, u64), Seq<u8>>,
    i: int,
    c: int,
    key: Seq<u8>,
) -> Result<Option<RecordModel>> {
    spec_block_judgement(cache[(ssts[i].file_id, ssts[i].meta@.blocks[c].offset)], key)
}

/// Run `i`'s cached candidate block holds a live record for `key` with
/// value `v`.
pub open spec fn run_hit(
    ssts: Seq<SstableReader>,
    cache: Map<(u64, u64), Seq<u8>>,
    i: int,
    key: Seq<u8>,
    v: Seq<u8>,
) -> bool {
    exists|c: int|
        {
            &&& #[trigger] is_candidate(ssts[i].meta@.blocks, key, c)
            &&& block_cached(ssts, cache, i, c)
            &&& (cached_judgement(ssts, cache, i, c, key) matches Ok(found) && found matches
                Option::Some(r) && !r.is_deleted && v == r.value)
        }
}

/// Run `i`'s cached candidate block holds a tombstone for `key`.
pub open spec fn run_tomb(
    ssts: Seq<SstableReader>,
    cache: Map<(u64, u64), Seq<u8>>,
    i: int,
    key: Seq<u8>,
) -> bool {
    exists|c: int|
        {
            &&& #[trigger] is_candidate(ssts[i].meta@.blocks, key, c)
            &&& block_cached(ssts, cache, i, c)
            &&& (cached_judgement(ssts, cache, i, c, key) matches Ok(found) && found matches
                Option::Some(r) && r.is_deleted)
        }
}

/// Judging run `i`'s cached candidate block for `key` fails with `err`.
pub open spec fn run_err(
    ssts: Seq<SstableReader>,
    cache: Map<(u64, u64), Seq<u8>>,
    i: int,
    key: Seq<u8>,
    err: LsmError,
) -> bool {
    exists|c: int|
        {
            &&& #[trigger] is_candidate(ssts[i].meta@.blocks, key, c)
            &&& block_cached(ssts, cache, i, c)
            &&& cached_judgement(ssts, cache, i, c, key) == Result::<Option<RecordModel>>::Err(err)
        }
}

/// Run `i` was probed and concluded not to answer for `key`: the filter
/// rules the key out, or the key lies outside the run's fences or below
/// its first block, or the cached candidate block holds nothing under the
/// key.
pub open spec fn run_abs(
    ssts: Seq<SstableReader>,
    cache: Map<(u64, u64), Seq<u8>>,
    i: int,
    key: Seq<u8>,
) -> bool {
    let m = ssts[i].meta@;
    ||| (match bloom_unpacked(m.bloom_filter_data) {
        Option::Some(s) => !s.contains(key),
        Option::None => false,
    })
    ||| lex_lt(key, m.min_key)
    ||| lex_lt(m.max_key, key)
    ||| m.blocks.len() == 0
    ||| (m.blocks.len() > 0 && lex_lt(key, m.blocks[0].first_key))
    ||| exists|c: int|
        {
            &&& #[trigger] is_candidate(m.blocks, key, c)
            &&& block_cached(ssts, cache, i, c)
            &&& cached_judgement(ssts, cache, i, c, key) == Result::<Option<RecordModel>>::Ok(
                Option::<RecordModel>::None,
            )
        }
}

/// Every run in `[lo, hi)` was probed and concluded absent.
pub open spec fn quiet_between(
    ssts: Seq<SstableReader>,
    cache: Map<(u64, u64), Seq<u8>>,
    lo: int,
    hi: int,
    key: Seq<u8>,
) -> bool {
    forall|j: int| lo <= j < hi ==> #[trigger] run_abs(ssts, cache, j, key)
}

/// Some run from `start` on has a cached live answer `v` for `key`, every
/// newer run ruled out.
pub open spec fn hit_from(e: LsmEngine, start: int, key: Seq<u8>, v: Seq<u8>) -> bool {
    exists|i: int|
        start <= i < e.sstables@.len() && #[trigger] run_hit(
            e.sstables@,
            e.cache.contents(),
            i,
            key,
            v,
        ) && quiet_between(e.sstables@, e.cache.contents(), start, i, key)
}

/// Some run from `start` on has a cached tombstone for `key`, every newer
/// run ruled out.
pub open spec fn tomb_from(e: LsmEngine, start: int, key: Seq<u8>) -> bool {
    exists|i: int|
        start <= i < e.sstables@.len() && #[trigger] run_tomb(
            e.sstables@,
            e.cache.contents(),
            i,
            key,
        ) && quiet_between(e.sstables@, e.cache.contents(), start, i, key)
}

/// Judging some run's cached candidate block from `start` on failed with
/// `err`, every newer run ruled out.
pub open spec fn err_from(e: LsmEngine, start: int, key: Seq<u8>, err: LsmError) -> bool {
    exists|i: int|
        start <= i < e.sstables@.len() && #[trigger] run_err(
            e.sstables@,
            e.cache.contents(),
            i,
            key,
            err,
        ) && quiet_between(e.sstables@, e.cache.contents(), start, i, key)
}

/// What a finished or suspended probe of the runs from `start` on may
/// report.  A live value comes from the newest run not ruled out; an
/// absence means every run was ruled out, or the newest answering run
/// holds a tombstone; a fetch request names the newest run whose candidate
/// block is not cached, every newer run ruled out.
pub open spec fn lookup_outcome(e: LsmEngine, start: int, key: Seq<u8>, step: LookupStep) -> bool {
    match step {
        LookupStep::Done(v) => match v {
            Option::Some(val) => hit_from(e, start, key, val@),
            Option::None => quiet_between(
                e.sstables@,
                e.cache.contents(),
                start,
                e.sstables@.len() as int,
                key,
            ) || tomb_from(e, start, key),
        },
        LookupStep::Fetch { sst_index, file_timestamp, offset, size } => fetch_ok(
            e,
            start,
            key,
            sst_index as int,
            file_timestamp,
            offset,
            size,
        ) && quiet_between(
            e.sstables@,
            e.cache.contents(),
            start,
            sst_index as int,
            key,
        ),
    }
}

/// A probe of the runs from `start` on aborted: judging some run's cached
/// candidate block failed, every newer run ruled out.
pub open spec fn lookup_abort(e: LsmEngine, start: int, key: Seq<u8>, err: LsmError) -> bool {
    &&& err == LsmError::Serialization("record bytes do not parse")
    &&& err_from(e, start, key, err)
}

/// An outcome reached from `start + k` is an outcome from `start`, once
/// the runs in between were all ruled out.
pub proof fn lemma_outcome_widen(e: LsmEngine, s1: int, s2: int, key: Seq<u8>, step: LookupStep)
    requires
        0 <= s1 <= s2,
        lookup_outcome(e, s2, key, step),
        quiet_between(e.sstables@, e.cache.contents(), s1, s2, key),
    ensures
        lookup_outcome(e, s1, key, step),
{
    let ssts = e.sstables@;
    let cache = e.cache.contents();
    match step {
        LookupStep::Done(v) => match v {
            Option::Some(val) => {
                let i = choose|i: int|
                    s2 <= i < ssts.len() && #[trigger] run_hit(ssts, cache, i, key, val@)
                        && quiet_between(ssts, cache, s2, i, key);
                assert(run_hit(ssts, cache, i, key, val@));
                assert(quiet_between(ssts, cache, s1, i, key));
                assert(hit_from(e, s1, key, val@));
            },
            Option::None => {
                if quiet_between(ssts, cache, s2, ssts.len() as int, key) {
                    assert(quiet_between(ssts, cache, s1, ssts.len() as int, key));
                } else {
                    let i = choose|i: int|
                        s2 <= i < ssts.len() && #[trigger] run_tomb(ssts, cache, i, key)
                            && quiet_between(ssts, cache, s2, i, key);
                    assert(run_tomb(ssts, cache, i, key));
                    assert(quiet_between(ssts, cache, s1, i, key));
                    assert(tomb_from(e, s1, key));
                }
            },
        },
        LookupStep::Fetch { sst_index, file_timestamp, offset, size } => {
            assert(quiet_between(ssts, cache, s1, sst_index as int, key));
        },
    }
}

/// An abort reached from `start + k` is an abort from `start`, once the
/// runs in between were all ruled out.
pub proof fn lemma_abort_widen(e: LsmEngine, s1: int, s2: int, key: Seq<u8>, err: LsmError)
    requires
        0 <= s1 <= s2,
        lookup_abort(e, s2, key, err),
        quiet_between(e.sstables@, e.cache.contents(), s1, s2, key),
    ensures
        lookup_abort(e, s1, key, err),
{
    let ssts = e.sstables@;
    let cache = e.cache.contents();
    let i = choose|i: int|
        s2 <= i < ssts.len() && #[trigger] run_err(ssts, cache, i, key, err) && quiet_between(
            ssts,
            cache,
            s2,
            i,
            key,
        );
    assert(run_err(ssts, cache, i, key, err));
    assert(quiet_between(ssts, cache, s1, i, key));
    assert(err_from(e, s1, key, err));
}

/// A staged entry small enough for a fresh data block of size `bs`: its
/// key, its codec image, their length prefixes and one offset slot fit the
/// 16-bit encodings and the block budget.
pub open spec fn staged_entry_fits(e: (Seq<u8>, RecordModel), bs: int) -> bool {
    let elen = crate::codec::spec_encode_record(e.1).len() as int;
    &&& 4 + e.0.len() + elen <= 0xFFFF
    &&& 8 + e.0.len() + elen <= bs
}

/// A generous bound on the size of the metadata block a flush of `n`
/// records writes, assuming every record fits a fresh block: when it stays
/// within the 32-bit frame, the flush is bound to succeed.
pub open spec fn spec_flush_bound(n: int, ppm: int) -> int {
    56 + n * 65559 + 45 + crate::bloom::spec_bloom_bitmap_bytes(n, ppm) + 131070
}

/// The storage engine: staging table, open runs newest first, shared block
/// cache, configuration, and the newest run timestamp handed out so far.
pub struct LsmEngine {
    pub memtable: MemTable,
    pub sstables: Vec<SstableReader>,
    pub cache: GlobalBlockCache,
    pub config: LsmConfig,
    pub last_sst_timestamp: u128,
}

impl LsmEngine {
    /// Structural soundness: valid knobs, a sound staging table, sound
    /// runs ordered newest first, none newer than the recorded newest.
    pub open spec fn wf(&self) -> bool {
        &&& core_config_valid(self.config.core)
        &&& storage_config_valid(self.config.storage)
        &&& self.memtable.wf()
        &&& forall|i: int| 0 <= i < self.sstables@.len() ==> (#[trigger] self.sstables@[i]).wf()
        &&& forall|i: int, j: int|
            0 <= i < j < self.sstables@.len() ==> (#[trigger] self.sstables@[i]).meta@.timestamp
                >= (#[trigger] self.sstables@[j]).meta@.timestamp
        &&& forall|i: int|
            0 <= i < self.sstables@.len() ==> (#[trigger] self.sstables@[i]).meta@.timestamp
                <= self.last_sst_timestamp
    }

    /// Builds the engine from recovered log records and opened runs: the
    /// runs are ordered newest first, and the staging table replays the
    /// records in written order, so it holds the last write of each key.
    pub fn assemble(
        config: LsmConfig,
        wal_records: Vec<LogRecord>,
        readers: Vec<SstableReader>,
    ) -> (r: LsmEngine)
        requires
            core_config_valid(config.core),
            storage_config_valid(config.storage),
            forall|i: int| 0 <= i < readers@.len() ==> (#[trigger] readers@[i]).wf(),
        ensures
            r.wf(),
            forall|k: Seq<u8>|
                #[trigger] r.memtable.spec_get(k) == wal_last_write(
                    wal_records@.map_values(|rec: LogRecord| rec@),
                    k,
                ),
            r.memtable.max_size_bytes == config.core.memtable_max_size,
            r.sstables@.len() == readers@.len(),
            r.sstables@.to_multiset() == readers@.to_multiset(),
            r.config == config,
    {
        let cache = GlobalBlockCache::new(
            config.storage.block_cache_size_mb,
            config.storage.block_size,
        );
        // Replay the log into a fresh staging table, in written order.
        let mut memtable = MemTable::new(config.core.memtable_max_size);
        let ghost all = wal_records@.map_values(|rec: LogRecord| rec@);
        let mut i: usize = 0;
        while i < wal_records.len()
            invariant
                0 <= i <= wal_records@.len(),
                all == wal_records@.map_values(|rec: LogRecord| rec@),
                memtable.wf(),
                memtable.max_size_bytes == config.core.memtable_max_size,
                forall|k: Seq<u8>|
                    #[trigger] memtable.spec_get(k) == wal_last_write(
                        all.subrange(0, i as int),
                        k,
                    ),
            decreases wal_records@.len() - i,
        {
            let rec = wal_records[i].duplicate();
            memtable.insert(rec);
            proof {
                assert forall|k: Seq<u8>| #[trigger] memtable.spec_get(k) == wal_last_write(
                    all.subrange(0, i + 1),
                    k,
                ) by {
                    assert(all.subrange(0, i + 1).last() == all[i as int]);
                    assert(all.subrange(0, i + 1).drop_last() =~= all.subrange(0, i as int));
                    assert(all[i as int] == wal_records@[i as int]@);
                }
            }
            i = i + 1;
        }
        proof {
            assert(all.subrange(0, all.len() as int) =~= all);
        }
        // Order the runs newest first by creation timestamp.
        let mut remaining = readers;
        let mut sorted: Vec<SstableReader> = Vec::new();
        let ghost total = remaining@.len();
        let ghost all_readers = remaining@;
        proof {
            vstd::seq_lib::lemma_multiset_commutative(sorted@, remaining@);
            assert(sorted@ + remaining@ =~= all_readers);
        }
        while remaining.len() > 0
            invariant
                sorted@.len() + remaining@.len() == total,
                sorted@.to_multiset().add(remaining@.to_multiset())
                    == all_readers.to_multiset(),
                forall|a: int| 0 <= a < sorted@.len() ==> (#[trigger] sorted@[a]).wf(),
                forall|a: int| 0 <= a < remaining@.len() ==> (#[trigger] remaining@[a]).wf(),
                forall|a: int, b: int|
                    0 <= a < b < sorted@.len() ==> (#[trigger] sorted@[a]).meta@.timestamp >= (
                    #[trigger] sorted@[b]).meta@.timestamp,
            decreases remaining@.len(),
        {
            let ghost rem_entry = remaining@;
            let next = remaining.pop().unwrap();
            proof {
                assert(rem_entry =~= remaining@.push(next));
            }
            let mut pos: usize = 0;
            while pos < sorted.len() && sorted[pos].meta.timestamp >= next.meta.timestamp
                invariant
                    0 <= pos <= sorted@.len(),
                    next.wf(),
                    forall|a: int| 0 <= a < sorted@.len() ==> (#[trigger] sorted@[a]).wf(),
                    forall|a: int, b: int|
                        0 <= a < b < sorted@.len() ==> (#[trigger] sorted@[a]).meta@.timestamp
                            >= (#[trigger] sorted@[b]).meta@.timestamp,
                    forall|a: int|
                        0 <= a < pos ==> (#[trigger] sorted@[a]).meta@.timestamp
                            >= next.meta@.timestamp,
                decreases sorted@.len() - pos,
            {
                pos = pos + 1;
            }
            let ghost pre = sorted@;
            let ghost pre_rem = remaining@;
            sorted.insert(pos, next);
            proof {
                broadcast use vstd::seq_lib::group_to_multiset_ensures;
                broadcast use vstd::multiset::group_multiset_axioms;
                // The popped element moves from one multiset to the other.
                assert(rem_entry.to_multiset() =~= pre_rem.to_multiset().insert(next));
                assert(sorted@ =~= pre.subrange(0, pos as int) + (seq![next] + pre.skip(
                    pos as int,
                )));
                vstd::seq_lib::lemma_multiset_commutative(
                    pre.subrange(0, pos as int),
                    seq![next] + pre.skip(pos as int),
                );
                vstd::seq_lib::lemma_multiset_commutative(seq![next], pre.skip(pos as int));
                assert(seq![next] =~= Seq::<SstableReader>::empty().push(next));
                assert(seq![next].to_multiset() =~= Multiset::<SstableReader>::empty().insert(
                    next,
                ));
                vstd::seq_lib::lemma_multiset_commutative(
                    pre.subrange(0, pos as int),
                    pre.skip(pos as int),
                );
                assert(pre =~= pre.subrange(0, pos as int) + pre.skip(pos as int));
                assert(sorted@.to_multiset() =~= pre.to_multiset().insert(next));
                assert(sorted@.to_multiset().add(pre_rem.to_multiset()) =~= pre.to_multiset().add(
                    rem_entry.to_multiset(),
                ));
                assert forall|a: int, b: int|
                    0 <= a < b < sorted@.len() implies (#[trigger] sorted@[a]).meta@.timestamp
                    >= (#[trigger] sorted@[b]).meta@.timestamp by {
                    if a < pos {
                        assert(sorted@[a] == pre[a]);
                    }
                    if b < pos {
                        assert(sorted@[b] == pre[b]);
                    }
                    if a > pos {
                        assert(sorted@[a] == pre[a - 1]);
                    }
                    if b > pos {
                        assert(sorted@[b] == pre[b - 1]);
                        if a == pos {
                            assert(pre[b - 1].meta@.timestamp < next.meta@.timestamp
                                || pre[b - 1].meta@.timestamp <= pre[pos as int].meta@.timestamp);
                        }
                    }
                }
                assert forall|a: int| 0 <= a < sorted@.len() implies (
                #[trigger] sorted@[a]).wf() by {
                    if a < pos {
                        assert(sorted@[a] == pre[a]);
                    } else if a > pos {
                        assert(sorted@[a] == pre[a - 1]);
                    }
                }
            }
        }
        proof {
            broadcast use vstd::seq_lib::group_to_multiset_ensures;
            broadcast use vstd::multiset::group_multiset_axioms;
            assert(remaining@.to_multiset().len() == 0);
            assert(remaining@.to_multiset() =~= Multiset::<SstableReader>::empty());
            assert(sorted@.to_multiset() =~= all_readers.to_multiset());
        }
        // The newest run caps the timestamps handed out so far.
        let mut last_ts: u128 = 0;
        if sorted.len() > 0 {
            last_ts = sorted[0].meta.timestamp;
        }
        let engine = LsmEngine { memtable, sstables: sorted, cache, config, last_sst_timestamp: last_ts };
        proof {
            assert forall|i2: int|
                0 <= i2 < engine.sstables@.len() implies (
            #[trigger] engine.sstables@[i2]).meta@.timestamp <= engine.last_sst_timestamp by {
                if i2 > 0 {
                    assert(engine.sstables@[0].meta@.timestamp
                        >= engine.sstables@[i2].meta@.timestamp);
                }
            }
        }
        engine
    }

    /// Applies one durably logged record to the staging table; true means
    /// the table has reached its flush threshold.
    pub fn apply_write(&mut self, record: LogRecord) -> (r: bool)
        requires
            old(self).wf(),
        ensures
            final(self).wf(),
            forall|k: Seq<u8>|
                #[trigger] final(self).memtable.spec_get(k) == if k == record.key@ {
                    Option::Some(record@)
                } else {
                    old(self).memtable.spec_get(k)
                },
            final(self).sstables@ == old(self).sstables@,
            final(self).config == old(self).config,
            final(self).last_sst_timestamp == old(self).last_sst_timestamp,
            final(self).cache.contents() == old(self).cache.contents(),
            r == (final(self).memtable.size_bytes >= final(self).memtable.max_size_bytes),
    {
        self.memtable.insert(record);
        self.memtable.should_flush()
    }

    /// The timestamp the next run will carry: wall time, bumped past the
    /// newest run so the list order never regresses.
    pub fn next_sstable_timestamp(&self, now: u128) -> (r: u128)
        ensures
            r == if now > self.last_sst_timestamp {
                now
            } else if self.last_sst_timestamp == u128::MAX {
                u128::MAX
            } else {
                (self.last_sst_timestamp + 1) as u128
            },
            r >= self.last_sst_timestamp || self.last_sst_timestamp == u128::MAX,
            r > self.last_sst_timestamp || self.last_sst_timestamp == u128::MAX,
    {
        if now > self.last_sst_timestamp {
            now
        } else if self.last_sst_timestamp == u128::MAX {
            u128::MAX
        } else {
            self.last_sst_timestamp + 1
        }
    }

    /// Builds the new run's file image from the staging table, stamped
    /// `timestamp`: the image holds exactly the staged records in key
    /// order.  An empty table yields nothing; the image is not installed
    /// until the shell has persisted it.
    pub fn build_flush(&self, timestamp: u128) -> (r: Result<Option<Vec<u8>>>)
        requires
            self.wf(),
        ensures
            match r {
                Ok(opt) => match opt {
                    Option::Some(bytes) => {
                        &&& self.memtable.view_entries().len() > 0
                        &&& (spec_sstable_open(bytes@) matches Option::Some(m)
                            && crate::sstable::regions_sized(bytes@, m.blocks)
                            && spec_sstable_entries(bytes@, m.blocks) == encoded_pairs(
                            self.memtable.view_entries(),
                        ) && m.timestamp == timestamp && m.record_count as int
                            == self.memtable.view_entries().len())
                    },
                    Option::None => self.memtable.view_entries().len() == 0,
                },
                Err(e) => e == LsmError::CompactionFailed("entry too large for a single block")
                    || e == LsmError::Serialization("metadata too large"),
            },
            self.memtable.view_entries().len() == 0 ==> r == Result::<Option<Vec<u8>>>::Ok(
                Option::None,
            ),
            (match r {
                Err(e) => e == LsmError::CompactionFailed("entry too large for a single block"),
                _ => false,
            }) <==> exists|j: int|
                0 <= j < self.memtable.view_entries().len() && !staged_entry_fits(
                    #[trigger] self.memtable.view_entries()[j],
                    self.config.storage.block_size as int,
                ),
            (forall|j: int|
                0 <= j < self.memtable.view_entries().len() ==> staged_entry_fits(
                    #[trigger] self.memtable.view_entries()[j],
                    self.config.storage.block_size as int,
                )) && self.memtable.view_entries().len() > 0 && spec_flush_bound(
                self.memtable.view_entries().len() as int,
                self.config.storage.bloom_false_positive_rate_ppm as int,
            ) <= u32::MAX ==> r matches Ok(Option::Some(_)),
    {
        let entries = self.memtable.iter_ordered();
        if entries.len() == 0 {
            return Ok(None);
        }
        let mut b = SstableBuilder::new(self.config.storage.duplicate(), timestamp);
        let ghost mem = self.memtable.view_entries();
        let mut i: usize = 0;
        while i < entries.len()
            invariant
                0 <= i <= entries@.len(),
                entries_view(entries@) == mem,
                mem == self.memtable.view_entries(),
                self.wf(),
                b.wf(),
                b.spec_timestamp() == timestamp,
                b.spec_config() == self.config.storage,
                b.spec_added() == mem.subrange(0, i as int),
                forall|j: int|
                    0 <= j < i ==> staged_entry_fits(
                        #[trigger] mem[j],
                        self.config.storage.block_size as int,
                    ),
            decreases entries@.len() - i,
        {
            proof {
                assert(entries_view(entries@)[i as int] == (entries@[i as int].0@, entries@[i as int].1@));
                if i > 0 {
                    assert(b.spec_added().last() == mem[i - 1]);
                    assert(crate::memtable::entries_sorted(mem));
                    assert(lex_lt(mem[i - 1].0, mem[i as int].0));
                }
            }
            let step = b.add(entries[i].0.as_slice(), &entries[i].1);
            match step {
                Ok(_) => {},
                Err(e) => {
                    proof {
                        assert(b.record_count as int == i as int);
                        assert(!staged_entry_fits(
                            mem[i as int],
                            self.config.storage.block_size as int,
                        ));
                    }
                    return Err(e);
                },
            }
            proof {
                assert(staged_entry_fits(
                    mem[i as int],
                    self.config.storage.block_size as int,
                ));
            }
            proof {
                assert(b.spec_added() =~= mem.subrange(0, i + 1));
            }
            i = i + 1;
        }
        proof {
            assert(mem.subrange(0, mem.len() as int) =~= mem);
        }
        proof {
            assert(staged_entry_fits(mem[0], self.config.storage.block_size as int));
            assert(staged_entry_fits(
                mem[mem.len() - 1],
                self.config.storage.block_size as int,
            ));
            assert(b.added@[0].0.len() <= 0xFFFF);
            assert(b.added@.last().0.len() <= 0xFFFF);
            crate::builder::lemma_finish_meta_len_bound(&b);
        }
        match b.finish() {
            Ok((bytes, _meta)) => Ok(Some(bytes)),
            Err(e) => Err(e),
        }
    }

    /// Installs the persisted run as the newest and empties the staging
    /// table; after this the shell may truncate the log.
    pub fn install_flush(&mut self, reader: SstableReader, timestamp: u128)
        requires
            old(self).wf(),
            reader.wf(),
            reader.meta@.timestamp == timestamp,
            timestamp >= old(self).last_sst_timestamp,
        ensures
            final(self).wf(),
            final(self).sstables@ == seq![reader] + old(self).sstables@,
            final(self).memtable.view_entries().len() == 0,
            final(self).config == old(self).config,
            final(self).cache.contents() == old(self).cache.contents(),
            final(self).last_sst_timestamp == timestamp,
    {
        self.sstables.insert(0, reader);
        let _ = self.memtable.clear();
        self.last_sst_timestamp = timestamp;
        proof {
            assert(final(self).sstables@ =~= seq![reader] + old(self).sstables@);
            assert forall|i: int| 0 <= i < self.sstables@.len() implies (
            #[trigger] self.sstables@[i]).wf() by {
                if i > 0 {
                    assert(self.sstables@[i] == old(self).sstables@[i - 1]);
                }
            }
            assert forall|i: int, j: int|
                0 <= i < j < self.sstables@.len() implies (
            #[trigger] self.sstables@[i]).meta@.timestamp >= (
            #[trigger] self.sstables@[j]).meta@.timestamp by {
                if i > 0 {
                    assert(self.sstables@[i] == old(self).sstables@[i - 1]);
                }
                assert(self.sstables@[j] == old(self).sstables@[j - 1]);
                assert(old(self).sstables@[j - 1].meta@.timestamp <= old(
                    self,
                ).last_sst_timestamp);
            }
        }
    }
}

impl LsmEngine {
    /// Probes the runs from `start` on, newest first, answering from the
    /// cache; stops at the first run whose candidate block is not cached.
    #[verifier::rlimit(100)]
    #[verifier::spinoff_prover]
    #[verifier::loop_isolation(false)]
    fn lookup_from(&mut self, key: &[u8], start: usize) -> (r: Result<LookupStep>)
        requires
            old(self).wf(),
            start <= old(self).sstables@.len(),
        ensures
            final(self).wf(),
            final(self).memtable == old(self).memtable,
            final(self).sstables@ == old(self).sstables@,
            final(self).config == old(self).config,
            final(self).last_sst_timestamp == old(self).last_sst_timestamp,
            final(self).cache.contents() == old(self).cache.contents(),
            match r {
                Ok(step) => lookup_outcome(*final(self), start as int, key@, step),
                Err(e) => lookup_abort(*final(self), start as int, key@, e),
            },
        decreases old(self).sstables@.len() - start,
    {
        let ghost ssts = self.sstables@;
        let ghost cachec = self.cache.contents();
        let n = self.sstables.len();
        let mut i: usize = start;
        while i < n
            invariant
                start <= i <= n,
                n == self.sstables@.len(),
                self.wf(),
                self.memtable == old(self).memtable,
                self.sstables@ == ssts,
                self.config == old(self).config,
                self.last_sst_timestamp == old(self).last_sst_timestamp,
                self.cache.contents() == cachec,
                quiet_between(ssts, cachec, start as int, i as int, key@),
            decreases n - i,
        {
            let found = self.sstables[i].locate(key);
            match found {
                None => {
                    // The filter or the key fences ruled this run out.
                    proof {
                        let m = ssts[i as int].meta@;
                        assert(self.sstables@[i as int].wf());
                        assert(run_abs(ssts, cachec, i as int, key@)) by {
                            match bloom_unpacked(m.bloom_filter_data) {
                                Option::Some(s) => {},
                                Option::None => {
                                    assert(false);
                                },
                            }
                        }
                    }
                },
                Some(c) => {
                    let (offset, size, _usz) = self.sstables[i].block_range(c);
                    let ck = CacheKey { file_id: self.sstables[i].file_id, block_offset: offset };
                    let cached = self.cache.get(&ck);
                    match cached {
                        Some(bytes) => {
                            let judged = self.sstables[i].search_block(bytes.as_slice(), key);
                            proof {
                                assert(is_candidate(ssts[i as int].meta@.blocks, key@, c as int));
                                assert(block_cached(ssts, cachec, i as int, c as int));
                                assert(cachec[(ssts[i as int].file_id, ssts[i as int].meta@.blocks[
                                    c as int].offset)] == bytes@);
                            }
                            match judged {
                                Ok(Some(rec)) => {
                                    if rec.is_deleted {
                                        proof {
                                            assert(run_tomb(ssts, cachec, i as int, key@));
                                            assert(lookup_outcome(
                                                *self,
                                                start as int,
                                                key@,
                                                LookupStep::Done(Option::None),
                                            ));
                                        }
                                        return Ok(LookupStep::Done(None));
                                    }
                                    proof {
                                        assert(run_hit(
                                            self.sstables@,
                                            self.cache.contents(),
                                            i as int,
                                            key@,
                                            rec.value@,
                                        ));
                                        assert(quiet_between(
                                            self.sstables@,
                                            self.cache.contents(),
                                            start as int,
                                            i as int,
                                            key@,
                                        ));
                                        assert(lookup_outcome(
                                            *self,
                                            start as int,
                                            key@,
                                            LookupStep::Done(Option::Some(rec.value)),
                                        ));
                                    }
                                    return Ok(LookupStep::Done(Some(rec.value)));
                                },
                                Ok(None) => {
                                    proof {
                                        assert(run_abs(ssts, cachec, i as int, key@));
                                    }
                                },
                                Err(e) => {
                                    proof {
                                        assert(run_err(
                                            self.sstables@,
                                            self.cache.contents(),
                                            i as int,
                                            key@,
                                            e,
                                        ));
                                        assert(quiet_between(
                                            self.sstables@,
                                            self.cache.contents(),
                                            start as int,
                                            i as int,
                                            key@,
                                        ));
                                        assert(lookup_abort(*self, start as int, key@, e));
                                    }
                                    return Err(e);
                                },
                            }
                        },
                        None => {
                            proof {
                                assert(is_candidate(
                                    self.sstables@[i as int].meta@.blocks,
                                    key@,
                                    c as int,
                                ));
                            }
                            return Ok(
                                LookupStep::Fetch {
                                    sst_index: i,
                                    file_timestamp: self.sstables[i].meta.timestamp,
                                    offset,
                                    size,
                                },
                            );
                        },
                    }
                },
            }
            proof {
                assert forall|j: int| start <= j < i + 1 implies #[trigger] run_abs(
                    ssts,
                    cachec,
                    j,
                    key@,
                ) by {
                    if j < i {
                        assert(run_abs(ssts, cachec, j, key@));
                    }
                }
            }
            i = i + 1;
        }
        Ok(LookupStep::Done(None))
    }

    /// Starts a point lookup: the staging table answers outright when it
    /// holds the key; otherwise the runs are probed newest first through
    /// the cache.  A returned value is the newest answer: every newer run
    /// was ruled out by its filter, its key fences, or its cached candidate
    /// block; absence means every run was ruled out or the newest answer is
    /// a tombstone; otherwise the one block to fetch is named.
    #[verifier::rlimit(100)]
    #[verifier::spinoff_prover]
    pub fn lookup_start(&mut self, key: &[u8]) -> (r: Result<LookupStep>)
        requires
            old(self).wf(),
        ensures
            final(self).wf(),
            final(self).memtable == old(self).memtable,
            final(self).sstables@ == old(self).sstables@,
            final(self).config == old(self).config,
            final(self).cache.contents() == old(self).cache.contents(),
            match old(self).memtable.spec_get(key@) {
                Option::Some(rec) => r matches Ok(LookupStep::Done(v)) && (match v {
                    Option::Some(val) => !rec.is_deleted && val@ == rec.value,
                    Option::None => rec.is_deleted,
                }),
                Option::None => match r {
                    Ok(step) => lookup_outcome(*final(self), 0, key@, step),
                    Err(e) => lookup_abort(*final(self), 0, key@, e),
                },
            },
    {
        let staged = self.memtable.get(key);
        match staged {
            Some(rec) => {
                if rec.is_deleted {
                    Ok(LookupStep::Done(None))
                } else {
                    Ok(LookupStep::Done(Some(rec.value)))
                }
            },
            None => self.lookup_from(key, 0),
        }
    }

    /// Resumes a lookup with the fetched block bytes: they are unpacked,
    /// held against the sparse index, cached, and scanned; a miss carries
    /// on with the older runs.  The outcome is as for `lookup_start`, over
    /// the runs from `sst_index` on; failures are tied to their cause: an
    /// unknown run index, a frame that does not unpack, an unpacked size
    /// contradicting the sparse index, or value bytes that are no record.
    #[verifier::rlimit(100)]
    #[verifier::spinoff_prover]
    pub fn lookup_resume(&mut self, key: &[u8], sst_index: usize, bytes: &[u8]) -> (r: Result<
        LookupStep,
    >)
        requires
            old(self).wf(),
        ensures
            final(self).wf(),
            final(self).memtable == old(self).memtable,
            final(self).sstables@ == old(self).sstables@,
            final(self).config == old(self).config,
            match r {
                Ok(step) => lookup_outcome(*final(self), sst_index as int, key@, step),
                Err(e) => lookup_abort(*final(self), sst_index as int, key@, e) || (e
                    == LsmError::CorruptedData("no such sorted run") && sst_index >= final(self).sstables@.len()) || (e == LsmError::DecompressionFailed("block does not unpack")
                    && crate::compress::lz4_unpacked(bytes@) is None) || (e
                    == LsmError::CorruptedData("block size mismatch") && sst_index < final(self).sstables@.len() && exists|c: int|
                    {
                        &&& #[trigger] is_candidate(
                            final(self).sstables@[sst_index as int].meta@.blocks,
                            key@,
                            c,
                        )
                        &&& (match crate::compress::lz4_unpacked(bytes@) {
                            Option::Some(d) => d.len() != final(self).sstables@[sst_index as int].meta@.blocks[c].uncompressed_size,
                            Option::None => false,
                        })
                    }),
            },
    {
        if sst_index >= self.sstables.len() {
            return Err(LsmError::CorruptedData("no such sorted run"));
        }
        let found = self.sstables[sst_index].locate(key);
        match found {
            None => {
                proof {
                    let m = self.sstables@[sst_index as int].meta@;
                    assert(self.sstables@[sst_index as int].wf());
                    assert(run_abs(self.sstables@, self.cache.contents(), sst_index as int, key@))
                        by {
                        match bloom_unpacked(m.bloom_filter_data) {
                            Option::Some(s) => {},
                            Option::None => {
                                assert(false);
                            },
                        }
                    }
                }
                let ghost pre = *self;
                let r2 = self.lookup_from(key, sst_index + 1);
                proof {
                    assert(run_abs(self.sstables@, self.cache.contents(), sst_index as int, key@));
                    assert(quiet_between(
                        self.sstables@,
                        self.cache.contents(),
                        sst_index as int,
                        sst_index + 1,
                        key@,
                    ));
                    match &r2 {
                        Ok(step) => {
                            lemma_outcome_widen(
                                *self,
                                sst_index as int,
                                sst_index + 1,
                                key@,
                                *step,
                            );
                        },
                        Err(e) => {
                            lemma_abort_widen(*self, sst_index as int, sst_index + 1, key@, *e);
                        },
                    }
                }
                r2
            },
            Some(c) => {
                let decompressed = match self.sstables[sst_index].decompress_block(c, bytes) {
                    Ok(d) => d,
                    Err(e) => {
                        proof {
                            assert(is_candidate(
                                self.sstables@[sst_index as int].meta@.blocks,
                                key@,
                                c as int,
                            ));
                        }
                        return Err(e);
                    },
                };
                let (offset, _size, _usz) = self.sstables[sst_index].block_range(c);
                let ck = CacheKey {
                    file_id: self.sstables[sst_index].file_id,
                    block_offset: offset,
                };
                let judged = self.sstables[sst_index].search_block(decompressed.as_slice(), key);
                self.cache.put(ck, decompressed);
                let ghost ssts = self.sstables@;
                let ghost cachec = self.cache.contents();
                proof {
                    assert(is_candidate(ssts[sst_index as int].meta@.blocks, key@, c as int));
                    assert(block_cached(ssts, cachec, sst_index as int, c as int));
                }
                match judged {
                    Ok(Some(rec)) => {
                        if rec.is_deleted {
                            proof {
                                assert(run_tomb(ssts, cachec, sst_index as int, key@));
                                assert(lookup_outcome(
                                    *self,
                                    sst_index as int,
                                    key@,
                                    LookupStep::Done(Option::None),
                                ));
                            }
                            Ok(LookupStep::Done(None))
                        } else {
                            proof {
                                assert(run_hit(
                                    self.sstables@,
                                    self.cache.contents(),
                                    sst_index as int,
                                    key@,
                                    rec.value@,
                                ));
                                assert(quiet_between(
                                    self.sstables@,
                                    self.cache.contents(),
                                    sst_index as int,
                                    sst_index as int,
                                    key@,
                                ));
                                assert(lookup_outcome(
                                    *self,
                                    sst_index as int,
                                    key@,
                                    LookupStep::Done(Option::Some(rec.value)),
                                ));
                            }
                            Ok(LookupStep::Done(Some(rec.value)))
                        }
                    },
                    Ok(None) => {
                        proof {
                            assert(run_abs(ssts, cachec, sst_index as int, key@));
                        }
                        let r2 = self.lookup_from(key, sst_index + 1);
                        proof {
                            assert(run_abs(
                                self.sstables@,
                                self.cache.contents(),
                                sst_index as int,
                                key@,
                            ));
                            assert(quiet_between(
                                self.sstables@,
                                self.cache.contents(),
                                sst_index as int,
                                sst_index + 1,
                                key@,
                            ));
                            match &r2 {
                                Ok(step) => {
                                    lemma_outcome_widen(
                                        *self,
                                        sst_index as int,
                                        sst_index + 1,
                                        key@,
                                        *step,
                                    );
                                },
                                Err(e) => {
                                    lemma_abort_widen(
                                        *self,
                                        sst_index as int,
                                        sst_index + 1,
                                        key@,
                                        *e,
                                    );
                                },
                            }
                        }
                        r2
                    },
                    Err(e) => {
                        proof {
                            assert(run_err(
                                self.sstables@,
                                self.cache.contents(),
                                sst_index as int,
                                key@,
                                e,
                            ));
                            assert(lookup_abort(*self, sst_index as int, key@, e));
                        }
                        Err(e)
                    },
                }
            },
        }
    }
}

/// What the merged view of one finished scan holds under `k`: the staging
/// table's record when present, else what the accumulated runs left.
pub open spec fn merged_get(e: LsmEngine, acc: MemTable, k: Seq<u8>) -> Option<RecordModel> {
    match e.memtable.spec_get(k) {
        Option::Some(r) => Option::Some(r),
        Option::None => acc.spec_get(k),
    }
}

/// The records one decompressed block image holds, in stored order; only
/// meaningful when every entry's value bytes decode.
pub open spec fn block_record_models(data: Seq<u8>) -> Seq<RecordModel> {
    crate::reader::spec_region_block_entries(data).map_values(
        |p: (Seq<u8>, Seq<u8>)| crate::codec::spec_decode_record(p.1).unwrap(),
    )
}

/// The cursor position after skipping past exhausted and empty runs
/// toward newer ones: the walk visits run `ns - 1` at block `bi`, so a
/// block index at or past that run's block count moves on to the next
/// newer run's first block, and a position of zero runs means the walk is
/// done.
pub open spec fn cursor_norm(ssts: Seq<SstableReader>, ns: int, bi: int) -> (int, int)
    decreases ns,
{
    if ns > 0 && bi >= ssts[ns - 1].meta@.blocks.len() {
        cursor_norm(ssts, ns - 1, 0)
    } else {
        (ns, bi)
    }
}

/// Normalizing a cursor skips nothing that holds data: the position only
/// moves past the current run once its blocks are exhausted, and past
/// newer runs only when they hold no blocks at all; it lands either on a
/// real block or at the end of the walk.
pub proof fn lemma_cursor_norm_skips_nothing(ssts: Seq<SstableReader>, ns: int, bi: int)
    requires
        0 <= ns <= ssts.len(),
        0 <= bi,
    ensures
        ({
            let (ns2, bi2) = cursor_norm(ssts, ns, bi);
            &&& 0 <= ns2 <= ns
            &&& (ns2 == ns ==> bi2 == bi)
            &&& (ns2 < ns ==> bi2 == 0 && bi >= ssts[ns - 1].meta@.blocks.len())
            &&& forall|t: int|
                ns2 <= t < ns - 1 ==> (#[trigger] ssts[t]).meta@.blocks.len() == 0
            &&& (ns2 > 0 ==> bi2 < ssts[ns2 - 1].meta@.blocks.len())
        }),
    decreases ns,
{
    if ns > 0 && bi >= ssts[ns - 1].meta@.blocks.len() {
        lemma_cursor_norm_skips_nothing(ssts, ns - 1, 0);
        let (ns2, bi2) = cursor_norm(ssts, ns, bi);
        assert forall|t: int| ns2 <= t < ns - 1 implies (#[trigger] ssts[t]).meta@.blocks.len()
            == 0 by {
            if t < ns - 2 {
                // Skipped strictly inside the recursive walk.
                assert(ssts[t].meta@.blocks.len() == 0);
            } else {
                // The run the recursion stepped past held no blocks.
                assert(t == ns - 2 && ns2 < ns - 1);
            }
        }
    }
}

/// A full-store scan in progress: the accumulator of run entries (oldest
/// runs first, newer overwriting), and the position of the next block.
/// Runs are walked oldest to newest, so that a later insert wins exactly
/// when a newer source holds the key.
pub struct ScanCursor {
    pub acc: MemTable,
    pub next_sst: usize,
    pub block_index: usize,
}

impl LsmEngine {
    /// The cursor points at a real block, or is finished.
    pub open spec fn cursor_ok(&self, c: ScanCursor) -> bool {
        &&& c.acc.wf()
        &&& c.next_sst <= self.sstables@.len()
        &&& (c.next_sst > 0 ==> c.block_index
            < self.sstables@[c.next_sst - 1].meta@.blocks.len())
    }

    /// Skips past exhausted runs.
    fn scan_normalize(&self, c: &mut ScanCursor)
        requires
            self.wf(),
            old(c).next_sst <= self.sstables@.len(),
            old(c).acc.wf(),
        ensures
            self.cursor_ok(*final(c)),
            final(c).acc == old(c).acc,
            (final(c).next_sst as int, final(c).block_index as int) == cursor_norm(
                self.sstables@,
                old(c).next_sst as int,
                old(c).block_index as int,
            ),
    {
        while c.next_sst > 0 && c.block_index >= self.sstables[c.next_sst - 1].meta.blocks.len()
            invariant
                self.wf(),
                c.next_sst <= self.sstables@.len(),
                c.acc == old(c).acc,
                cursor_norm(self.sstables@, old(c).next_sst as int, old(c).block_index as int)
                    == cursor_norm(self.sstables@, c.next_sst as int, c.block_index as int),
            decreases c.next_sst,
        {
            proof {
                assert(self.sstables@[c.next_sst - 1].meta@.blocks.len()
                    == self.sstables@[c.next_sst - 1].meta.blocks@.len());
            }
            c.next_sst = c.next_sst - 1;
            c.block_index = 0;
        }
        proof {
            if c.next_sst > 0 {
                assert(self.sstables@[c.next_sst - 1].meta@.blocks.len()
                    == self.sstables@[c.next_sst - 1].meta.blocks@.len());
            }
            assert(cursor_norm(self.sstables@, c.next_sst as int, c.block_index as int) == (
            c.next_sst as int,
            c.block_index as int,
            ));
        }
    }

    /// Opens a scan: an empty accumulator, positioned at the oldest run
    /// holding any block — the walk starts at the very back of the list
    /// and skips only runs with nothing in them.
    pub fn scan_begin(&self) -> (c: ScanCursor)
        requires
            self.wf(),
        ensures
            self.cursor_ok(c),
            c.acc.view_entries().len() == 0,
            (c.next_sst as int, c.block_index as int) == cursor_norm(
                self.sstables@,
                self.sstables@.len() as int,
                0,
            ),
    {
        let mut c = ScanCursor {
            acc: MemTable::new(1024),
            next_sst: self.sstables.len(),
            block_index: 0,
        };
        self.scan_normalize(&mut c);
        c
    }

    /// The next block to fetch: the run's creation timestamp names its
    /// file, the offset and size cut the block out of it.  Nothing is left
    /// to fetch exactly when every run has been walked.
    pub fn scan_step(&self, c: &ScanCursor) -> (r: Option<(u128, u64, u32)>)
        requires
            self.wf(),
            self.cursor_ok(*c),
        ensures
            r is None <==> c.next_sst == 0,
            match r {
                Option::Some(t) => {
                    let bm = self.sstables@[c.next_sst - 1].meta@.blocks[c.block_index as int];
                    t.0 == self.sstables@[c.next_sst - 1].meta@.timestamp && t.1 == bm.offset
                        && t.2 == bm.size
                },
                Option::None => true,
            },
    {
        if c.next_sst == 0 {
            return None;
        }
        let reader = &self.sstables[c.next_sst - 1];
        let (offset, size, _usz) = reader.block_range(c.block_index);
        Some((reader.meta.timestamp, offset, size))
    }

    /// Feeds the fetched block: its records enter the accumulator in
    /// stored order, each replacing anything older under its key, and the
    /// cursor advances.
    pub fn scan_feed(&self, c: &mut ScanCursor, bytes: &[u8]) -> (r: Result<()>)
        requires
            self.wf(),
            self.cursor_ok(*old(c)),
        ensures
            match r {
                Ok(_) => {
                    &&& self.cursor_ok(*final(c))
                    &&& old(c).next_sst > 0
                    &&& (final(c).next_sst as int, final(c).block_index as int) == cursor_norm(
                        self.sstables@,
                        old(c).next_sst as int,
                        old(c).block_index + 1,
                    )
                    &&& (lz4_unpacked(bytes@) matches Option::Some(data) && {
                        let rs = block_record_models(data);
                        forall|k: Seq<u8>|
                            #[trigger] final(c).acc.spec_get(k) == (match wal_last_write(rs, k) {
                                Option::Some(rr) => Option::Some(rr),
                                Option::None => old(c).acc.spec_get(k),
                            })
                    })
                },
                Err(e) => {
                    let bm = self.sstables@[old(c).next_sst - 1].meta@.blocks[old(c).block_index as int];
                    &&& *final(c) == *old(c)
                    &&& (e == LsmError::CorruptedData("no pending scan step") <==> old(c).next_sst
                        == 0)
                    &&& (e == LsmError::DecompressionFailed("block does not unpack") <==> old(c).next_sst > 0 && lz4_unpacked(bytes@) is None)
                    &&& (e == LsmError::CorruptedData("block size mismatch") <==> old(c).next_sst
                        > 0 && (match lz4_unpacked(bytes@) {
                        Option::Some(d) => d.len() != bm.uncompressed_size,
                        Option::None => false,
                    }))
                    &&& (e == LsmError::Serialization("record bytes do not parse") <==> old(c).next_sst > 0 && (match lz4_unpacked(bytes@) {
                        Option::Some(d) => d.len() == bm.uncompressed_size && exists|j: int|
                            0 <= j < crate::reader::spec_region_block_entries(d).len()
                                && crate::codec::spec_decode_record(
                                (#[trigger] crate::reader::spec_region_block_entries(d)[j]).1,
                            ) is None,
                        Option::None => false,
                    }))
                    &&& (e == LsmError::CorruptedData("no pending scan step") || e
                        == LsmError::DecompressionFailed("block does not unpack") || e
                        == LsmError::CorruptedData("block size mismatch") || e
                        == LsmError::Serialization("record bytes do not parse"))
                },
            },
            r is Ok <==> old(c).next_sst > 0 && (match lz4_unpacked(bytes@) {
                Option::Some(d) => d.len() == self.sstables@[old(c).next_sst - 1].meta@.blocks[old(c).block_index as int].uncompressed_size && (forall|j: int|
                    0 <= j < crate::reader::spec_region_block_entries(d).len()
                        ==> crate::codec::spec_decode_record(
                        (#[trigger] crate::reader::spec_region_block_entries(d)[j]).1,
                    ) is Some),
                Option::None => false,
            }),
    {
        if c.next_sst == 0 {
            return Err(LsmError::CorruptedData("no pending scan step"));
        }
        let reader = &self.sstables[c.next_sst - 1];
        let data = match reader.decompress_block(c.block_index, bytes) {
            Ok(d) => d,
            Err(e) => {
                return Err(e);
            },
        };
        let records = match reader.block_records(data.as_slice()) {
            Ok(rs) => rs,
            Err(e) => {
                return Err(e);
            },
        };
        let ghost rs = block_record_models(data@);
        let ns = c.next_sst;
        let bi = c.block_index;
        let blocks_len = self.sstables[c.next_sst - 1].meta.blocks.len();
        proof {
            assert(rs.len() == records@.len());
            assert(bi < blocks_len) by {
                assert(self.sstables@[ns - 1].meta@.blocks.len()
                    == self.sstables@[ns - 1].meta.blocks@.len());
            }
        }
        let mut j: usize = 0;
        while j < records.len()
            invariant
                0 <= j <= records@.len(),
                c.next_sst == ns,
                c.block_index == bi,
                c.acc.wf(),
                rs.len() == records@.len(),
                forall|t: int| 0 <= t < records@.len() ==> rs[t] == (#[trigger] records@[t]).1@,
                forall|k: Seq<u8>|
                    #[trigger] c.acc.spec_get(k) == (match wal_last_write(
                        rs.subrange(0, j as int),
                        k,
                    ) {
                        Option::Some(rr) => Option::Some(rr),
                        Option::None => old(c).acc.spec_get(k),
                    }),
            decreases records@.len() - j,
        {
            let rec = records[j].1.duplicate();
            c.acc.insert(rec);
            proof {
                assert forall|k: Seq<u8>| #[trigger] c.acc.spec_get(k) == (match wal_last_write(
                    rs.subrange(0, j + 1),
                    k,
                ) {
                    Option::Some(rr) => Option::Some(rr),
                    Option::None => old(c).acc.spec_get(k),
                }) by {
                    assert(rs.subrange(0, j + 1).last() == rs[j as int]);
                    assert(rs.subrange(0, j + 1).drop_last() =~= rs.subrange(0, j as int));
                }
            }
            j = j + 1;
        }
        proof {
            assert(rs.subrange(0, rs.len() as int) =~= rs);
        }
        proof {
            assert forall|j: int|
                0 <= j < crate::reader::spec_region_block_entries(data@).len()
                    implies crate::codec::spec_decode_record(
                (#[trigger] crate::reader::spec_region_block_entries(data@)[j]).1,
            ) is Some by {
                assert((records@[j]).1@ == (records@[j]).1@);
                assert(crate::codec::spec_decode_record(
                    crate::reader::spec_region_block_entries(data@)[j].1,
                ) == Option::Some((records@[j]).1@));
            }
        }
        c.block_index = bi + 1;
        self.scan_normalize(c);
        Ok(())
    }

    /// Closes the scan: the staging table overrides the accumulated runs,
    /// tombstones are dropped, and the live pairs come out in strictly
    /// ascending key order — every live key of the merged view, each with
    /// its newest value.
    pub fn scan_finish(&self, c: ScanCursor) -> (out: Vec<(Vec<u8>, Vec<u8>)>)
        requires
            self.wf(),
            c.acc.wf(),
        ensures
            forall|a: int, b: int|
                0 <= a < b < out@.len() ==> lex_lt(
                    (#[trigger] out@[a]).0@,
                    (#[trigger] out@[b]).0@,
                ),
            forall|t: int|
                0 <= t < out@.len() ==> match merged_get(*self, c.acc, (#[trigger] out@[t]).0@) {
                    Option::Some(r) => !r.is_deleted && out@[t].1@ == r.value,
                    Option::None => false,
                },
            forall|k: Seq<u8>|
                (match #[trigger] merged_get(*self, c.acc, k) {
                    Option::Some(r) => !r.is_deleted,
                    Option::None => false,
                }) ==> exists|t: int| 0 <= t < out@.len() && (#[trigger] out@[t]).0@ == k,
    {
        let mut merged = c.acc;
        let ghost acc0 = merged;
        let mem = self.memtable.iter_ordered();
        let ghost memv = self.memtable.view_entries();
        let mut i: usize = 0;
        while i < mem.len()
            invariant
                0 <= i <= mem@.len(),
                merged.wf(),
                entries_view(mem@) == memv,
                memv == self.memtable.view_entries(),
                self.wf(),
                forall|k: Seq<u8>|
                    #[trigger] merged.spec_get(k) == (match crate::memtable::assoc_lookup(
                        memv.subrange(0, i as int),
                        k,
                    ) {
                        Option::Some(r) => Option::Some(r),
                        Option::None => acc0.spec_get(k),
                    }),
            decreases mem@.len() - i,
        {
            let rec = mem[i].1.duplicate();
            merged.insert(rec);
            proof {
                let prefix = memv.subrange(0, i as int);
                let prefix1 = memv.subrange(0, i + 1);
                assert(entries_view(mem@)[i as int] == (mem@[i as int].0@, mem@[i as int].1@));
                assert(rec@ == memv[i as int].1);
                assert(rec@.key == memv[i as int].0) by {
                    assert(self.memtable.view_entries()[i as int].1.key
                        == self.memtable.view_entries()[i as int].0);
                }
                assert forall|k: Seq<u8>| #[trigger] merged.spec_get(k) == (match
                    crate::memtable::assoc_lookup(prefix1, k) {
                    Option::Some(r) => Option::Some(r),
                    Option::None => acc0.spec_get(k),
                }) by {
                    assert(prefix1 =~= prefix + seq![memv[i as int]]);
                    crate::memtable::lemma_lookup_append(prefix, seq![memv[i as int]], k);
                    crate::memtable::lemma_lookup_single(
                        (memv[i as int].0, memv[i as int].1),
                        k,
                    );
                    assert(seq![memv[i as int]] =~= seq![(memv[i as int].0, memv[i as int].1)]);
                    if k == memv[i as int].0 {
                        assert forall|t: int| 0 <= t < prefix.len() implies (
                        #[trigger] prefix[t].0) != k by {
                            assert(prefix[t] == memv[t]);
                            assert(crate::memtable::entries_sorted(memv));
                            assert(lex_lt(memv[t].0, memv[i as int].0));
                            crate::keys::lemma_lex_trichotomy(memv[t].0, memv[i as int].0);
                        }
                        crate::memtable::lemma_lookup_absent(prefix, k);
                    }
                }
            }
            i = i + 1;
        }
        proof {
            assert(memv.subrange(0, memv.len() as int) =~= memv);
            assert forall|k: Seq<u8>| #[trigger] merged.spec_get(k) == merged_get(
                *self,
                c.acc,
                k,
            ) by {
                assert(acc0.spec_get(k) == c.acc.spec_get(k));
            }
        }
        // Drop tombstones; survivors stay in key order.
        let mv = &merged;
        let n = merged.entries.len();
        let mut out: Vec<(Vec<u8>, Vec<u8>)> = Vec::new();
        let ghost mseq = merged.view_entries();
        let mut j: usize = 0;
        let mut ghost_last: Ghost<int> = Ghost(-1int);
        while j < n
            invariant
                0 <= j <= n,
                n == merged.entries@.len(),
                merged.wf(),
                mseq == merged.view_entries(),
                forall|k: Seq<u8>|
                    #[trigger] merged.spec_get(k) == merged_get(*self, c.acc, k),
                out@.len() > 0 ==> 0 <= ghost_last@ < j && (#[trigger] out@[out@.len() - 1]).0@
                    == mseq[ghost_last@].0,
                forall|a: int, b: int|
                    0 <= a < b < out@.len() ==> lex_lt(
                        (#[trigger] out@[a]).0@,
                        (#[trigger] out@[b]).0@,
                    ),
                forall|t: int|
                    0 <= t < out@.len() ==> match merged_get(
                        *self,
                        c.acc,
                        (#[trigger] out@[t]).0@,
                    ) {
                        Option::Some(r) => !r.is_deleted && out@[t].1@ == r.value,
                        Option::None => false,
                    },
                forall|j2: int|
                    0 <= j2 < j && !(#[trigger] mseq[j2]).1.is_deleted ==> exists|t: int|
                        0 <= t < out@.len() && (#[trigger] out@[t]).0@ == mseq[j2].0,
            decreases n - j,
        {
            proof {
                assert(mseq[j as int] == (merged.entries@[j as int].0@, merged.entries@[j as int].1@));
            }
            if !merged.entries[j].1.is_deleted {
                let ghost prev = out@;
                let key_copy = vstd::slice::slice_to_vec(merged.entries[j].0.as_slice());
                let val_copy = vstd::slice::slice_to_vec(merged.entries[j].1.value.as_slice());
                out.push((key_copy, val_copy));
                proof {
                    crate::memtable::lemma_lookup_at(mseq, j as int);
                    assert(merged.spec_get(mseq[j as int].0) == Option::Some(mseq[j as int].1));
                    assert(mseq[j as int].1.value == merged.entries@[j as int].1.value@);
                    assert(mseq[j as int].1.is_deleted == merged.entries@[j as int].1.is_deleted);
                    assert forall|a: int, b: int| 0 <= a < b < out@.len() implies lex_lt(
                        (#[trigger] out@[a]).0@,
                        (#[trigger] out@[b]).0@,
                    ) by {
                        if b < out@.len() - 1 {
                            assert(out@[a] == prev[a]);
                            assert(out@[b] == prev[b]);
                        } else if a < out@.len() - 1 {
                            assert(out@[a] == prev[a]);
                            if a < prev.len() - 1 {
                                assert(lex_lt(prev[a].0@, prev[prev.len() - 1].0@));
                                assert(prev[prev.len() - 1].0@ == mseq[ghost_last@].0);
                                assert(crate::memtable::entries_sorted(mseq));
                                assert(lex_lt(mseq[ghost_last@].0, mseq[j as int].0));
                                crate::keys::lemma_lex_transitive(
                                    prev[a].0@,
                                    mseq[ghost_last@].0,
                                    mseq[j as int].0,
                                );
                            } else {
                                assert(prev[a].0@ == mseq[ghost_last@].0);
                                assert(lex_lt(mseq[ghost_last@].0, mseq[j as int].0));
                            }
                        }
                    }
                    assert forall|j2: int|
                        0 <= j2 < j + 1 && !(#[trigger] mseq[j2]).1.is_deleted implies exists|
                        t: int|
                        0 <= t < out@.len() && (#[trigger] out@[t]).0@ == mseq[j2].0 by {
                        if j2 == j {
                            assert(out@[out@.len() - 1].0@ == mseq[j as int].0);
                        } else {
                            assert(exists|t: int|
                                0 <= t < prev.len() && (#[trigger] prev[t]).0@ == mseq[j2].0);
                            let t0 = choose|t: int|
                                0 <= t < prev.len() && (#[trigger] prev[t]).0@ == mseq[j2].0;
                            assert(out@[t0] == prev[t0]);
                        }
                    }
                }
                ghost_last = Ghost(j as int);
            } else {
                proof {
                    crate::memtable::lemma_lookup_at(mseq, j as int);
                }
            }
            j = j + 1;
        }
        proof {
            assert forall|k: Seq<u8>|
                (match #[trigger] merged_get(*self, c.acc, k) {
                    Option::Some(r) => !r.is_deleted,
                    Option::None => false,
                }) implies exists|t: int| 0 <= t < out@.len() && (#[trigger] out@[t]).0@
                == k by {
                let r = merged_get(*self, c.acc, k).unwrap();
                assert(merged.spec_get(k) == Option::Some(r));
                lemma_lookup_index(mseq, k, r);
                let j2 = choose|j2: int| 0 <= j2 < mseq.len() && mseq[j2] == (k, r);
                assert(!mseq[j2].1.is_deleted);
            }
        }
        out
    }
}

/// A found key sits at some position of the association list.
pub proof fn lemma_lookup_index(es: Seq<(Seq<u8>, RecordModel)>, k: Seq<u8>, r: RecordModel)
    requires
        crate::memtable::assoc_lookup(es, k) == Option::Some(r),
    ensures
        exists|j: int| 0 <= j < es.len() && es[j] == (k, r),
    decreases es.len(),
{
    if es.len() > 0 {
        if es[0].0 == k {
            assert(es[0] == (k, r));
        } else {
            lemma_lookup_index(es.skip(1), k, r);
            let j0 = choose|j: int| 0 <= j < es.skip(1).len() && es.skip(1)[j] == (k, r);
            assert(es[j0 + 1] == (k, r));
        }
    }
}

/// `needle` occurs in `hay` starting at `i`.
pub open spec fn substring_at(hay: Seq<u8>, needle: Seq<u8>, i: int) -> bool {
    &&& 0 <= i
    &&& i + needle.len() <= hay.len()
    &&& hay.subrange(i, i + needle.len()) == needle
}

/// `needle` occurs somewhere in `hay`.
pub open spec fn contains_bytes(hay: Seq<u8>, needle: Seq<u8>) -> bool {
    exists|i: int| substring_at(hay, needle, i)
}

/// `p` is a prefix of `s`.
pub open spec fn prefix_of(p: Seq<u8>, s: Seq<u8>) -> bool {
    p.len() <= s.len() && s.subrange(0, p.len() as int) == p
}

/// Whether `needle` occurs in `hay`: the naive scan, exact.
pub fn bytes_contain(hay: &[u8], needle: &[u8]) -> (r: bool)
    ensures
        r == contains_bytes(hay@, needle@),
{
    let hlen = hay.len();
    let nlen = needle.len();
    if nlen > hlen {
        proof {
            assert(!contains_bytes(hay@, needle@)) by {
                if contains_bytes(hay@, needle@) {
                    let i = choose|i: int| substring_at(hay@, needle@, i);
                }
            }
        }
        return false;
    }
    let mut i: usize = 0;
    while i <= hlen - nlen
        invariant
            0 <= i <= hlen - nlen + 1,
            nlen <= hlen,
            hlen == hay@.len(),
            nlen == needle@.len(),
            forall|a: int| 0 <= a < i ==> !substring_at(hay@, needle@, a),
        decreases hlen - nlen + 1 - i,
    {
        let mut j: usize = 0;
        while j < nlen && hay[i + j] == needle[j]
            invariant
                0 <= j <= nlen,
                0 <= i <= hlen - nlen,
                hlen == hay@.len(),
                nlen == needle@.len(),
                forall|b: int| 0 <= b < j ==> hay@[i + b] == needle@[b],
            decreases nlen - j,
        {
            j = j + 1;
        }
        if j == nlen {
            proof {
                assert(substring_at(hay@, needle@, i as int)) by {
                    assert(hay@.subrange(i as int, i + needle@.len()) =~= needle@);
                }
            }
            return true;
        }
        proof {
            assert(hay@[i + j] != needle@[j as int]);
            assert(!substring_at(hay@, needle@, i as int)) by {
                if substring_at(hay@, needle@, i as int) {
                    assert(hay@.subrange(i as int, i + needle@.len())[j as int]
                        == needle@[j as int]);
                }
            }
        }
        i = i + 1;
    }
    proof {
        assert(!contains_bytes(hay@, needle@)) by {
            if contains_bytes(hay@, needle@) {
                let a = choose|a: int| substring_at(hay@, needle@, a);
                assert(a <= hlen - nlen);
            }
        }
    }
    false
}

/// Whether `p` is a prefix of `s`, exactly.
pub fn bytes_start_with(s: &[u8], p: &[u8]) -> (r: bool)
    ensures
        r == prefix_of(p@, s@),
{
    let plen = p.len();
    if plen > s.len() {
        return false;
    }
    let mut j: usize = 0;
    while j < plen
        invariant
            0 <= j <= plen,
            plen <= s@.len(),
            plen == p@.len(),
            forall|b: int| 0 <= b < j ==> s@[b] == p@[b],
        decreases plen - j,
    {
        if s[j] != p[j] {
            proof {
                assert(!prefix_of(p@, s@)) by {
                    if prefix_of(p@, s@) {
                        assert(s@.subrange(0, p@.len() as int)[j as int] == p@[j as int]);
                    }
                }
            }
            return false;
        }
        j = j + 1;
    }
    proof {
        assert(s@.subrange(0, p@.len() as int) =~= p@);
    }
    true
}

/// The scan pairs whose keys hold `pattern` somewhere.
pub open spec fn spec_search_filter(s: Seq<(Seq<u8>, Seq<u8>)>, pattern: Seq<u8>) -> Seq<
    (Seq<u8>, Seq<u8>),
>
    decreases s.len(),
{
    if s.len() == 0 {
        Seq::<(Seq<u8>, Seq<u8>)>::empty()
    } else {
        spec_search_filter(s.drop_last(), pattern) + if contains_bytes(s.last().0, pattern) {
            seq![s.last()]
        } else {
            Seq::<(Seq<u8>, Seq<u8>)>::empty()
        }
    }
}

/// The scan pairs whose keys start with `prefix`.
pub open spec fn spec_prefix_filter(s: Seq<(Seq<u8>, Seq<u8>)>, prefix: Seq<u8>) -> Seq<
    (Seq<u8>, Seq<u8>),
>
    decreases s.len(),
{
    if s.len() == 0 {
        Seq::<(Seq<u8>, Seq<u8>)>::empty()
    } else {
        spec_prefix_filter(s.drop_last(), prefix) + if prefix_of(prefix, s.last().0) {
            seq![s.last()]
        } else {
            Seq::<(Seq<u8>, Seq<u8>)>::empty()
        }
    }
}

/// The association view of scanned pairs.
pub open spec fn pairs_view(s: Seq<(Vec<u8>, Vec<u8>)>) -> Seq<(Seq<u8>, Seq<u8>)> {
    Seq::new(s.len(), |i: int| (s[i].0@, s[i].1@))
}

/// Keeps the scanned pairs whose keys hold `pattern`, in order.
pub fn search(results: &Vec<(Vec<u8>, Vec<u8>)>, pattern: &[u8]) -> (out: Vec<(Vec<u8>, Vec<u8>)>)
    ensures
        pairs_view(out@) == spec_search_filter(pairs_view(results@), pattern@),
{
    let mut out: Vec<(Vec<u8>, Vec<u8>)> = Vec::new();
    let mut i: usize = 0;
    while i < results.len()
        invariant
            0 <= i <= results@.len(),
            pairs_view(out@) =~= spec_search_filter(
                pairs_view(results@).subrange(0, i as int),
                pattern@,
            ),
        decreases results@.len() - i,
    {
        let ghost pv = pairs_view(results@);
        let hit = bytes_contain(results[i].0.as_slice(), pattern);
        if hit {
            let ghost prev = out@;
            out.push(
                (
                    vstd::slice::slice_to_vec(results[i].0.as_slice()),
                    vstd::slice::slice_to_vec(results[i].1.as_slice()),
                ),
            );
            proof {
                assert(pairs_view(out@) =~= pairs_view(prev).push((pv[i as int].0, pv[i as int].1)));
            }
        }
        proof {
            assert(pv.subrange(0, i + 1).drop_last() =~= pv.subrange(0, i as int));
            assert(pv.subrange(0, i + 1).last() == pv[i as int]);
            if hit {
                assert(pairs_view(out@) =~= spec_search_filter(pv.subrange(0, i as int), pattern@)
                    + seq![(pv[i as int].0, pv[i as int].1)]);
                assert(seq![(pv[i as int].0, pv[i as int].1)] =~= seq![pv[i as int]]);
            } else {
                assert(spec_search_filter(pv.subrange(0, i + 1), pattern@)
                    =~= spec_search_filter(pv.subrange(0, i as int), pattern@));
            }
        }
        i = i + 1;
    }
    proof {
        assert(pairs_view(results@).subrange(0, results@.len() as int) =~= pairs_view(results@));
    }
    out
}

/// Keeps the scanned pairs whose keys start with `prefix`, in order.
pub fn search_prefix(results: &Vec<(Vec<u8>, Vec<u8>)>, prefix: &[u8]) -> (out: Vec<
    (Vec<u8>, Vec<u8>),
>)
    ensures
        pairs_view(out@) == spec_prefix_filter(pairs_view(results@), prefix@),
{
    let mut out: Vec<(Vec<u8>, Vec<u8>)> = Vec::new();
    let mut i: usize = 0;
    while i < results.len()
        invariant
            0 <= i <= results@.len(),
            pairs_view(out@) =~= spec_prefix_filter(
                pairs_view(results@).subrange(0, i as int),
                prefix@,
            ),
        decreases results@.len() - i,
    {
        let ghost pv = pairs_view(results@);
        let hit = bytes_start_with(results[i].0.as_slice(), prefix);
        if hit {
            let ghost prev = out@;
            out.push(
                (
                    vstd::slice::slice_to_vec(results[i].0.as_slice()),
                    vstd::slice::slice_to_vec(results[i].1.as_slice()),
                ),
            );
            proof {
                assert(pairs_view(out@) =~= pairs_view(prev).push((pv[i as int].0, pv[i as int].1)));
            }
        }
        proof {
            assert(pv.subrange(0, i + 1).drop_last() =~= pv.subrange(0, i as int));
            assert(pv.subrange(0, i + 1).last() == pv[i as int]);
            if hit {
                assert(pairs_view(out@) =~= spec_prefix_filter(pv.subrange(0, i as int), prefix@)
                    + seq![(pv[i as int].0, pv[i as int].1)]);
                assert(seq![(pv[i as int].0, pv[i as int].1)] =~= seq![pv[i as int]]);
            } else {
                assert(spec_prefix_filter(pv.subrange(0, i + 1), prefix@)
                    =~= spec_prefix_filter(pv.subrange(0, i as int), prefix@));
            }
        }
        i = i + 1;
    }
    proof {
        assert(pairs_view(results@).subrange(0, results@.len() as int) =~= pairs_view(results@));
    }
    out
}

/// The keys of the scanned pairs, in order.
pub fn keys(results: &Vec<(Vec<u8>, Vec<u8>)>) -> (out: Vec<Vec<u8>>)
    ensures
        out@.len() == results@.len(),
        forall|i: int| 0 <= i < out@.len() ==> (#[trigger] out@[i])@ == results@[i].0@,
{
    let mut out: Vec<Vec<u8>> = Vec::new();
    let mut i: usize = 0;
    while i < results.len()
        invariant
            0 <= i <= results@.len(),
            out@.len() == i,
            forall|t: int| 0 <= t < i ==> (#[trigger] out@[t])@ == results@[t].0@,
        decreases results@.len() - i,
    {
        out.push(vstd::slice::slice_to_vec(results[i].0.as_slice()));
        i = i + 1;
    }
    out
}

/// How many live pairs the scan produced.
pub fn count(results: &Vec<(Vec<u8>, Vec<u8>)>) -> (r: usize)
    ensures
        r == results@.len(),
{
    results.len()
}

/// A structured snapshot of the store: record and file counts and sizes.
#[derive(Debug, Clone, Copy, PartialEq, Eq, Structural)]
pub struct LsmStats {
    pub mem_records: usize,
    pub mem_kb: usize,
    pub sst_files: usize,
    pub sst_records: u64,
    pub sst_kb: u64,
    pub wal_kb: u64,
    pub total_records: u64,
    pub memtable_max_size: usize,
}

/// The record counts of the runs summed, saturating at the counter width.
pub open spec fn spec_sst_records(ssts: Seq<SstableReader>) -> int
    decreases ssts.len(),
{
    if ssts.len() == 0 {
        0
    } else {
        let rest = spec_sst_records(ssts.drop_last());
        if rest + ssts.last().meta@.record_count > u64::MAX {
            u64::MAX as int
        } else {
            rest + ssts.last().meta@.record_count
        }
    }
}

impl LsmEngine {
    /// The structured snapshot; run and log file sizes come from the
    /// shell, which alone can measure files.
    pub fn stats_all(&self, sst_total_bytes: u64, wal_bytes: u64) -> (r: LsmStats)
        ensures
            r.mem_records == self.memtable.view_entries().len(),
            r.mem_kb == self.memtable.size_bytes / 1024,
            r.sst_files == self.sstables@.len(),
            r.sst_records as int == spec_sst_records(self.sstables@),
            r.sst_kb == sst_total_bytes / 1024,
            r.wal_kb == wal_bytes / 1024,
            r.total_records as int == if r.mem_records + spec_sst_records(self.sstables@)
                > u64::MAX {
                u64::MAX as int
            } else {
                r.mem_records + spec_sst_records(self.sstables@)
            },
            r.memtable_max_size == self.memtable.max_size_bytes,
    {
        let mut sst_records: u64 = 0;
        let mut i: usize = 0;
        while i < self.sstables.len()
            invariant
                0 <= i <= self.sstables@.len(),
                sst_records as int == spec_sst_records(self.sstables@.subrange(0, i as int)),
            decreases self.sstables@.len() - i,
        {
            sst_records = sst_records.saturating_add(self.sstables[i].meta.record_count);
            proof {
                assert(self.sstables@.subrange(0, i + 1).drop_last() =~= self.sstables@.subrange(
                    0,
                    i as int,
                ));
                assert(self.sstables@.subrange(0, i + 1).last() == self.sstables@[i as int]);
            }
            i = i + 1;
        }
        proof {
            assert(self.sstables@.subrange(0, self.sstables@.len() as int) =~= self.sstables@);
        }
        let mem_records = self.memtable.entries.len();
        LsmStats {
            mem_records,
            mem_kb: self.memtable.size_bytes / 1024,
            sst_files: self.sstables.len(),
            sst_records,
            sst_kb: sst_total_bytes / 1024,
            wal_kb: wal_bytes / 1024,
            total_records: (mem_records as u64).saturating_add(sst_records),
            memtable_max_size: self.memtable.max_size_bytes,
        }
    }

    /// The human-readable snapshot.
    pub fn stats(&self, sst_total_bytes: u64, wal_bytes: u64) -> String {
        let s = self.stats_all(sst_total_bytes, wal_bytes);
        format_stats(&s)
    }
}

/// Relies on the standard formatting machinery to render a snapshot.
#[verifier::external_body]
fn format_stats(s: &LsmStats) -> String {
    format!(
        "LSM Stats:\n MemTable: {} records, ~{} KB\n SSTables: {} files",
        s.mem_records,
        s.mem_kb,
        s.sst_files,
    )
}

} // verus!
