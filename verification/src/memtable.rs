//! The staging table: an in-memory map from key to record, sorted in
//! lexicographic byte order, with an approximate byte-size counter.
//!
//! At most one record per key is held; a newer insert for the same key
//! replaces the older record in place.  Iteration yields keys in sorted
//! order, which is what the sorted-run builder consumes during a flush.
//! The table is realized as a sorted association vector; the association
//! list model in this module is also what the engine's read path and the
//! scan merge are specified against.

use vstd::prelude::*;

use crate::keys::{key_eq, key_lt, lemma_lex_trichotomy, lex_lt};
use crate::record::{LogRecord, RecordModel};

verus! {

/// The first record listed under `k`, scanning left to right.
pub open spec fn assoc_lookup(es: Seq<(Seq<u8>, RecordModel)>, k: Seq<u8>) -> Option<RecordModel>
    decreases es.len(),
{
    if es.len() == 0 {
        Option::None
    } else if es[0].0 == k {
        Option::Some(es[0].1)
    } else {
        assoc_lookup(es.skip(1), k)
    }
}

/// Keys strictly ascending: sorted, with no key listed twice.
pub open spec fn entries_sorted(es: Seq<(Seq<u8>, RecordModel)>) -> bool {
    forall|i: int, j: int| 0 <= i < j < es.len() ==> lex_lt(#[trigger] es[i].0, #[trigger] es[j].0)
}

/// The association view of a vector of keyed records.
pub open spec fn entries_view(s: Seq<(Vec<u8>, LogRecord)>) -> Seq<(Seq<u8>, RecordModel)> {
    Seq::new(s.len(), |i: int| (s[i].0@, s[i].1@))
}

/// A lookup over a concatenation tries the left part first.
pub proof fn lemma_lookup_append(a: Seq<(Seq<u8>, RecordModel)>, b: Seq<(Seq<u8>, RecordModel)>, k: Seq<u8>)
    ensures
        assoc_lookup(a + b, k) == match assoc_lookup(a, k) {
            Option::Some(r) => Option::Some(r),
            Option::None => assoc_lookup(b, k),
        },
    decreases a.len(),
{
    if a.len() == 0 {
        assert(a + b =~= b);
    } else {
        assert((a + b)[0] == a[0]);
        if a[0].0 == k {
        } else {
            assert((a + b).skip(1) =~= a.skip(1) + b);
            lemma_lookup_append(a.skip(1), b, k);
        }
    }
}

/// A lookup over a one-entry list checks that entry alone.
pub proof fn lemma_lookup_single(x: (Seq<u8>, RecordModel), k: Seq<u8>)
    ensures
        assoc_lookup(seq![x], k) == if x.0 == k {
            Option::Some(x.1)
        } else {
            Option::<RecordModel>::None
        },
{
    assert(seq![x].skip(1).len() == 0);
    assert(assoc_lookup(seq![x].skip(1), k) is None);
}

/// A key listed nowhere is found nowhere.
pub proof fn lemma_lookup_absent(es: Seq<(Seq<u8>, RecordModel)>, k: Seq<u8>)
    requires
        forall|i: int| 0 <= i < es.len() ==> (#[trigger] es[i].0) != k,
    ensures
        assoc_lookup(es, k) is None,
    decreases es.len(),
{
    if es.len() > 0 {
        lemma_lookup_absent(es.skip(1), k);
    }
}

/// In a strictly ascending list the entry at `i` is what lookup finds for
/// its key.
pub proof fn lemma_lookup_at(es: Seq<(Seq<u8>, RecordModel)>, i: int)
    requires
        entries_sorted(es),
        0 <= i < es.len(),
    ensures
        assoc_lookup(es, es[i].0) == Option::Some(es[i].1),
    decreases i,
{
    if i == 0 {
    } else {
        assert(lex_lt(es[0].0, es[i].0));
        lemma_lex_trichotomy(es[0].0, es[i].0);
        assert(es.skip(1)[i - 1] == es[i]);
        assert(entries_sorted(es.skip(1))) by {
            assert forall|x: int, y: int| 0 <= x < y < es.skip(1).len() implies lex_lt(
                #[trigger] es.skip(1)[x].0,
                #[trigger] es.skip(1)[y].0,
            ) by {
                assert(es.skip(1)[x] == es[x + 1]);
                assert(es.skip(1)[y] == es[y + 1]);
            }
        }
        lemma_lookup_at(es.skip(1), i - 1);
    }
}

/// Approximate size of one record: key plus value plus a fixed overhead,
/// capped at the machine word.
pub open spec fn spec_estimate(r: RecordModel) -> int {
    if r.key.len() + r.value.len() + 32 > usize::MAX {
        usize::MAX as int
    } else {
        r.key.len() + r.value.len() + 32int
    }
}

/// The sum of the per-record size estimates over a run of entries.
pub open spec fn spec_size_sum(es: Seq<(Seq<u8>, RecordModel)>) -> int
    decreases es.len(),
{
    if es.len() == 0 {
        0
    } else {
        spec_estimate(es[0].1) + spec_size_sum(es.skip(1))
    }
}

/// Estimate sums split over concatenation.
pub proof fn lemma_size_sum_append(a: Seq<(Seq<u8>, RecordModel)>, b: Seq<(Seq<u8>, RecordModel)>)
    ensures
        spec_size_sum(a + b) == spec_size_sum(a) + spec_size_sum(b),
    decreases a.len(),
{
    if a.len() == 0 {
        assert(a + b =~= b);
    } else {
        assert((a + b)[0] == a[0]);
        assert((a + b).skip(1) =~= a.skip(1) + b);
        lemma_size_sum_append(a.skip(1), b);
    }
}

/// Every entry's estimate is at most the sum, and the sum is non-negative.
pub proof fn lemma_size_sum_member(es: Seq<(Seq<u8>, RecordModel)>, i: int)
    requires
        0 <= i < es.len(),
    ensures
        spec_estimate(es[i].1) <= spec_size_sum(es),
        spec_size_sum(es) >= 0,
    decreases es.len(),
{
    lemma_size_sum_nonneg(es.skip(1));
    if i == 0 {
    } else {
        assert(es.skip(1)[i - 1] == es[i]);
        lemma_size_sum_member(es.skip(1), i - 1);
    }
}

/// The sum of estimates is non-negative.
pub proof fn lemma_size_sum_nonneg(es: Seq<(Seq<u8>, RecordModel)>)
    ensures
        spec_size_sum(es) >= 0,
    decreases es.len(),
{
    if es.len() > 0 {
        lemma_size_sum_nonneg(es.skip(1));
    }
}

/// As long as the running sum of estimates stays within the machine word,
/// the saturating size counter tracks it exactly: starting from a counter
/// equal to the sum, one insert leaves the counter at the new sum.
pub proof fn lemma_size_counter_tracks_sum(
    es: Seq<(Seq<u8>, RecordModel)>,
    counter: int,
    old_rec: Option<RecordModel>,
    new_rec: RecordModel,
    new_sum: int,
)
    requires
        counter == spec_size_sum(es),
        0 <= counter <= usize::MAX,
        match old_rec {
            Option::Some(o) => exists|i: int|
                0 <= i < es.len() && (#[trigger] es[i]).1 == o,
            Option::None => true,
        },
        new_sum == spec_size_sum(es) + spec_estimate(new_rec) - (match old_rec {
            Option::Some(o) => spec_estimate(o),
            Option::None => 0int,
        }),
        new_sum <= usize::MAX,
    ensures
        spec_size_after_insert(counter, old_rec, new_rec) == new_sum,
{
    match old_rec {
        Option::Some(o) => {
            let i = choose|i: int| 0 <= i < es.len() && (#[trigger] es[i]).1 == o;
            lemma_size_sum_member(es, i);
        },
        Option::None => {
            lemma_size_sum_nonneg(es);
        },
    }
}

/// What the size counter becomes after an insert: the replaced record's
/// estimate leaves, the new one enters, saturating at zero and at the
/// machine word.
pub open spec fn spec_size_after_insert(
    old_size: int,
    old_rec: Option<RecordModel>,
    new_rec: RecordModel,
) -> int {
    let after_sub = match old_rec {
        Option::Some(o) => if old_size - spec_estimate(o) < 0 {
            0
        } else {
            old_size - spec_estimate(o)
        },
        Option::None => old_size,
    };
    if after_sub + spec_estimate(new_rec) > usize::MAX {
        usize::MAX as int
    } else {
        after_sub + spec_estimate(new_rec)
    }
}

/// In-memory sorted staging table.
#[derive(Debug)]
pub struct MemTable {
    pub entries: Vec<(Vec<u8>, LogRecord)>,
    pub size_bytes: usize,
    pub max_size_bytes: usize,
}

impl MemTable {
    /// The association view: keys with their records, in stored order.
    pub open spec fn view_entries(&self) -> Seq<(Seq<u8>, RecordModel)> {
        entries_view(self.entries@)
    }

    /// Keys strictly ascending and each record keyed under its own key.
    pub open spec fn wf(&self) -> bool {
        &&& entries_sorted(self.view_entries())
        &&& forall|i: int|
            0 <= i < self.view_entries().len() ==> (#[trigger] self.view_entries()[i].1).key
                == self.view_entries()[i].0
    }

    /// The record stored under `k`, if any.
    pub open spec fn spec_get(&self, k: Seq<u8>) -> Option<RecordModel> {
        assoc_lookup(self.view_entries(), k)
    }

    /// An empty table with flush threshold `max_size_bytes`.
    pub fn new(max_size_bytes: usize) -> (r: MemTable)
        ensures
            r.wf(),
            r.view_entries() =~= Seq::<(Seq<u8>, RecordModel)>::empty(),
            r.size_bytes == 0,
            r.max_size_bytes == max_size_bytes,
    {
        MemTable { entries: Vec::new(), size_bytes: 0, max_size_bytes }
    }

    /// Approximate byte cost of one record in the table.
    fn estimate_size(record: &LogRecord) -> (r: usize)
        ensures
            r == spec_estimate(record@),
    {
        record.key.len().saturating_add(record.value.len()).saturating_add(32)
    }

    /// Stores `record` under its key; a record already under that key is
    /// replaced, and the size counter is adjusted by both estimates.
    pub fn insert(&mut self, record: LogRecord)
        requires
            old(self).wf(),
        ensures
            final(self).wf(),
            forall|k: Seq<u8>|
                #[trigger] final(self).spec_get(k) == if k == record.key@ {
                    Option::Some(record@)
                } else {
                    old(self).spec_get(k)
                },
            final(self).size_bytes == spec_size_after_insert(
                old(self).size_bytes as int,
                old(self).spec_get(record.key@),
                record@,
            ),
            final(self).max_size_bytes == old(self).max_size_bytes,
            final(self).view_entries().len() == if old(self).spec_get(record.key@) is Some {
                old(self).view_entries().len()
            } else {
                old(self).view_entries().len() + 1
            },
            spec_size_sum(final(self).view_entries()) == spec_size_sum(old(self).view_entries())
                + spec_estimate(record@) - (match old(self).spec_get(record.key@) {
                Option::Some(o) => spec_estimate(o),
                Option::None => 0int,
            }),
    {
        let ghost old_es = self.view_entries();
        let new_size = Self::estimate_size(&record);
        let mut pos: usize = 0;
        while pos < self.entries.len() && key_lt(self.entries[pos].0.as_slice(), record.key.as_slice())
            invariant
                0 <= pos <= self.entries@.len(),
                self.view_entries() == old_es,
                *self == *old(self),
                forall|i: int| 0 <= i < pos ==> lex_lt(#[trigger] old_es[i].0, record.key@),
            decreases self.entries@.len() - pos,
        {
            pos = pos + 1;
        }
        proof {
            lemma_lex_trichotomy(old_es[pos as int].0, record.key@);
        }
        let key_copy = vstd::slice::slice_to_vec(record.key.as_slice());
        if pos < self.entries.len() && key_eq(self.entries[pos].0.as_slice(), record.key.as_slice()) {
            // Same key: replace in place.
            let old_pair = self.entries.remove(pos);
            let old_size = Self::estimate_size(&old_pair.1);
            self.entries.insert(pos, (key_copy, record));
            self.size_bytes = self.size_bytes.saturating_sub(old_size).saturating_add(new_size);
            proof {
                let new_es = self.view_entries();
                let k = new_es[pos as int].0;
                let prefix = old_es.subrange(0, pos as int);
                let tail = old_es.skip(pos + 1);
                assert(old_es =~= prefix + seq![old_es[pos as int]] + tail);
                assert(new_es =~= prefix + seq![new_es[pos as int]] + tail);
                assert(entries_sorted(new_es)) by {
                    assert forall|x: int, y: int| 0 <= x < y < new_es.len() implies lex_lt(
                        #[trigger] new_es[x].0,
                        #[trigger] new_es[y].0,
                    ) by {
                        assert(new_es[x].0 == old_es[x].0);
                        assert(new_es[y].0 == old_es[y].0);
                    }
                }
                assert forall|i: int| 0 <= i < new_es.len() implies (#[trigger] new_es[i].1).key
                    == new_es[i].0 by {
                    if i != pos {
                        assert(new_es[i] == old_es[i]);
                    }
                }
                lemma_lookup_at(old_es, pos as int);
                lemma_size_sum_append(prefix, seq![old_es[pos as int]] + tail);
                lemma_size_sum_append(seq![old_es[pos as int]], tail);
                lemma_size_sum_append(prefix, seq![new_es[pos as int]] + tail);
                lemma_size_sum_append(seq![new_es[pos as int]], tail);
                assert(spec_size_sum(seq![old_es[pos as int]]) == spec_estimate(
                    old_es[pos as int].1,
                )) by {
                    assert(seq![old_es[pos as int]].skip(1) =~= Seq::<
                        (Seq<u8>, RecordModel),
                    >::empty());
                    assert(spec_size_sum(Seq::<(Seq<u8>, RecordModel)>::empty()) == 0);
                }
                assert(spec_size_sum(seq![new_es[pos as int]]) == spec_estimate(
                    new_es[pos as int].1,
                )) by {
                    assert(seq![new_es[pos as int]].skip(1) =~= Seq::<
                        (Seq<u8>, RecordModel),
                    >::empty());
                    assert(spec_size_sum(Seq::<(Seq<u8>, RecordModel)>::empty()) == 0);
                }
                assert(new_es =~= prefix + (seq![new_es[pos as int]] + tail));
                assert(old_es =~= prefix + (seq![old_es[pos as int]] + tail));
                assert(spec_size_sum(new_es) == spec_size_sum(old_es) + spec_estimate(record@)
                    - spec_estimate(old_es[pos as int].1));
                assert forall|k2: Seq<u8>|
                    #[trigger] self.spec_get(k2) == if k2 == k {
                        Option::Some(new_es[pos as int].1)
                    } else {
                        assoc_lookup(old_es, k2)
                    } by {
                    lemma_lookup_append(prefix, seq![new_es[pos as int]] + tail, k2);
                    lemma_lookup_append(seq![new_es[pos as int]], tail, k2);
                    lemma_lookup_append(prefix, seq![old_es[pos as int]] + tail, k2);
                    lemma_lookup_append(seq![old_es[pos as int]], tail, k2);
                    lemma_lookup_single((new_es[pos as int].0, new_es[pos as int].1), k2);
                    lemma_lookup_single((old_es[pos as int].0, old_es[pos as int].1), k2);
                    assert(seq![new_es[pos as int]] =~= seq![(new_es[pos as int].0, new_es[pos as int].1)]);
                    assert(seq![old_es[pos as int]] =~= seq![(old_es[pos as int].0, old_es[pos as int].1)]);
                    assert((prefix + (seq![new_es[pos as int]] + tail)) =~= new_es);
                    assert((prefix + (seq![old_es[pos as int]] + tail)) =~= old_es);
                    if k2 == k {
                        assert forall|i: int| 0 <= i < prefix.len() implies (#[trigger] prefix[i].0)
                            != k2 by {
                            assert(prefix[i] == old_es[i]);
                            assert(lex_lt(old_es[i].0, k2));
                            lemma_lex_trichotomy(old_es[i].0, k2);
                        }
                        lemma_lookup_absent(prefix, k2);
                    }
                }
            }
        } else {
            // New key: open a slot at the insertion point.
            self.entries.insert(pos, (key_copy, record));
            self.size_bytes = self.size_bytes.saturating_add(new_size);
            proof {
                let new_es = self.view_entries();
                let k = new_es[pos as int].0;
                let prefix = old_es.subrange(0, pos as int);
                let tail = old_es.skip(pos as int);
                assert(old_es =~= prefix + tail);
                assert(new_es =~= prefix + seq![new_es[pos as int]] + tail);
                assert forall|i: int| pos <= i < old_es.len() implies lex_lt(
                    k,
                    #[trigger] old_es[i].0,
                ) by {
                    if i > pos {
                        assert(lex_lt(old_es[pos as int].0, old_es[i].0));
                        crate::keys::lemma_lex_transitive(k, old_es[pos as int].0, old_es[i].0);
                    }
                }
                assert(entries_sorted(new_es)) by {
                    assert forall|x: int, y: int| 0 <= x < y < new_es.len() implies lex_lt(
                        #[trigger] new_es[x].0,
                        #[trigger] new_es[y].0,
                    ) by {
                        if x < pos {
                            assert(new_es[x] == old_es[x]);
                        }
                        if y < pos {
                            assert(new_es[y] == old_es[y]);
                        }
                        if x > pos {
                            assert(new_es[x] == old_es[x - 1]);
                        }
                        if y > pos {
                            assert(new_es[y] == old_es[y - 1]);
                        }
                    }
                }
                assert forall|i: int| 0 <= i < old_es.len() implies (#[trigger] old_es[i].0)
                    != k by {
                    if i < pos {
                        lemma_lex_trichotomy(old_es[i].0, k);
                    } else {
                        lemma_lex_trichotomy(k, old_es[i].0);
                    }
                }
                lemma_lookup_absent(old_es, k);
                lemma_size_sum_append(prefix, seq![new_es[pos as int]] + tail);
                lemma_size_sum_append(seq![new_es[pos as int]], tail);
                lemma_size_sum_append(prefix, tail);
                assert(spec_size_sum(seq![new_es[pos as int]]) == spec_estimate(
                    new_es[pos as int].1,
                )) by {
                    assert(seq![new_es[pos as int]].skip(1) =~= Seq::<
                        (Seq<u8>, RecordModel),
                    >::empty());
                    assert(spec_size_sum(Seq::<(Seq<u8>, RecordModel)>::empty()) == 0);
                }
                assert(new_es =~= prefix + (seq![new_es[pos as int]] + tail));
                assert(old_es =~= prefix + tail);
                assert(spec_size_sum(new_es) == spec_size_sum(old_es) + spec_estimate(record@));
                assert forall|k2: Seq<u8>|
                    #[trigger] self.spec_get(k2) == if k2 == k {
                        Option::Some(new_es[pos as int].1)
                    } else {
                        assoc_lookup(old_es, k2)
                    } by {
                    lemma_lookup_append(prefix, seq![new_es[pos as int]] + tail, k2);
                    lemma_lookup_append(seq![new_es[pos as int]], tail, k2);
                    lemma_lookup_append(prefix, tail, k2);
                    lemma_lookup_single((new_es[pos as int].0, new_es[pos as int].1), k2);
                    assert(seq![new_es[pos as int]] =~= seq![(new_es[pos as int].0, new_es[pos as int].1)]);
                    assert((prefix + (seq![new_es[pos as int]] + tail)) =~= new_es);
                    assert((prefix + tail) =~= old_es);
                    if k2 == k {
                        assert forall|i: int| 0 <= i < prefix.len() implies (#[trigger] prefix[i].0)
                            != k2 by {
                            assert(prefix[i] == old_es[i]);
                            lemma_lex_trichotomy(old_es[i].0, k2);
                        }
                        lemma_lookup_absent(prefix, k2);
                    }
                }
            }
        }
    }

    /// True when the table has reached its flush threshold.
    pub fn should_flush(&self) -> (r: bool)
        ensures
            r == (self.size_bytes >= self.max_size_bytes),
    {
        self.size_bytes >= self.max_size_bytes
    }

    /// A copy of the record stored under `key`, if any.
    pub fn get(&self, key: &[u8]) -> (r: Option<LogRecord>)
        requires
            self.wf(),
        ensures
            match r {
                Option::Some(rec) => self.spec_get(key@) == Option::Some(rec@),
                Option::None => self.spec_get(key@) is None,
            },
    {
        proof {
            assert(self.view_entries().skip(0) =~= self.view_entries());
        }
        let mut i: usize = 0;
        while i < self.entries.len()
            invariant
                0 <= i <= self.entries@.len(),
                self.wf(),
                assoc_lookup(self.view_entries(), key@) == assoc_lookup(
                    self.view_entries().skip(i as int),
                    key@,
                ),
            decreases self.entries@.len() - i,
        {
            proof {
                assert(self.view_entries().skip(i as int)[0] == self.view_entries()[i as int]);
            }
            if key_eq(self.entries[i].0.as_slice(), key) {
                return Some(self.entries[i].1.duplicate());
            }
            proof {
                assert(self.view_entries().skip(i as int).skip(1) =~= self.view_entries().skip(
                    i + 1,
                ));
            }
            i = i + 1;
        }
        proof {
            assert(self.view_entries().skip(self.entries@.len() as int).len() == 0);
        }
        None
    }

    /// The entries in ascending key order, as copies.
    pub fn iter_ordered(&self) -> (r: Vec<(Vec<u8>, LogRecord)>)
        ensures
            entries_view(r@) =~= self.view_entries(),
    {
        let mut out: Vec<(Vec<u8>, LogRecord)> = Vec::new();
        let mut i: usize = 0;
        while i < self.entries.len()
            invariant
                0 <= i <= self.entries@.len(),
                entries_view(out@) =~= self.view_entries().subrange(0, i as int),
            decreases self.entries@.len() - i,
        {
            let key_copy = vstd::slice::slice_to_vec(self.entries[i].0.as_slice());
            let ghost prev = out@;
            out.push((key_copy, self.entries[i].1.duplicate()));
            proof {
                assert(prev.len() == i as int) by {
                    assert(entries_view(prev).len() == prev.len());
                    assert(entries_view(prev).len() == i as int);
                }
                assert(entries_view(out@) =~= self.view_entries().subrange(0, i + 1)) by {
                    assert forall|j: int| 0 <= j < out@.len() implies #[trigger] entries_view(
                        out@,
                    )[j] == self.view_entries().subrange(0, i + 1)[j] by {
                        if j < i {
                            assert(out@[j] == prev[j]);
                            assert(entries_view(prev)[j] == self.view_entries().subrange(
                                0,
                                i as int,
                            )[j]);
                        }
                    }
                }
            }
            i = i + 1;
        }
        proof {
            assert(self.view_entries().subrange(0, self.entries@.len() as int)
                =~= self.view_entries());
        }
        out
    }

    /// Empties the table, zeroes the counter, and reports how many records
    /// were dropped.
    pub fn clear(&mut self) -> (r: usize)
        ensures
            r == old(self).view_entries().len(),
            final(self).view_entries() =~= Seq::<(Seq<u8>, RecordModel)>::empty(),
            final(self).wf(),
            final(self).size_bytes == 0,
            final(self).max_size_bytes == old(self).max_size_bytes,
    {
        let count = self.entries.len();
        self.entries.clear();
        self.size_bytes = 0;
        count
    }
}

} // verus!
