//! The data block: the bounded container of sorted entries inside a
//! sorted-run file, and the unit of I/O and caching.
//!
//! Serialized layout:
//!
//! ```text
//! [entry 1] .. [entry N] [offset 1: u16 LE] .. [offset N: u16 LE] [N: u16 LE]
//! ```
//!
//! Each entry is `len(key): u16 LE | key | len(value): u16 LE | value`.  The
//! offsets point at the start of each entry within the entries area, so both
//! lengths and offsets cap keys, values and the entries area at 65 535
//! bytes.  A block refuses an entry that would push its serialized size over
//! its byte budget.

use vstd::bytes::*;
use vstd::prelude::*;
use vstd::slice::{slice_subrange, slice_to_vec};

use crate::codec::{push_bytes, push_u16_le};

verus! {

/// Default block byte budget.
pub const BLOCK_SIZE: usize = 4096;

/// Entry parse at `off` stays within `data` and is internally consistent.
pub open spec fn entry_ok(data: Seq<u8>, off: int) -> bool {
    &&& 0 <= off
    &&& off + 2 <= data.len()
    &&& off + 4 + entry_klen(data, off) <= data.len()
    &&& entry_end(data, off) <= data.len()
}

/// Key length of the entry at `off`.
pub open spec fn entry_klen(data: Seq<u8>, off: int) -> int {
    spec_u16_from_le_bytes(data.subrange(off, off + 2)) as int
}

/// Value length of the entry at `off`.
pub open spec fn entry_vlen(data: Seq<u8>, off: int) -> int {
    spec_u16_from_le_bytes(
        data.subrange(off + 2 + entry_klen(data, off), off + 4 + entry_klen(data, off)),
    ) as int
}

/// Key bytes of the entry at `off`.
pub open spec fn entry_key(data: Seq<u8>, off: int) -> Seq<u8> {
    data.subrange(off + 2, off + 2 + entry_klen(data, off))
}

/// Value bytes of the entry at `off`.
pub open spec fn entry_value(data: Seq<u8>, off: int) -> Seq<u8> {
    data.subrange(
        off + 4 + entry_klen(data, off),
        off + 4 + entry_klen(data, off) + entry_vlen(data, off),
    )
}

/// One past the last byte of the entry at `off`.
pub open spec fn entry_end(data: Seq<u8>, off: int) -> int {
    off + 4 + entry_klen(data, off) + entry_vlen(data, off)
}

/// The entries area and offset table describe a seamless run of entries:
/// every offset parses, the first entry starts at zero, each entry starts
/// where the previous one ends, and the last one ends at the end of the
/// area.
pub open spec fn block_shape_wf(data: Seq<u8>, offsets: Seq<u16>) -> bool {
    &&& data.len() <= 0xFFFF
    &&& offsets.len() <= 0xFFFF
    &&& forall|i: int| 0 <= i < offsets.len() ==> entry_ok(data, #[trigger] offsets[i] as int)
    &&& (offsets.len() > 0 ==> offsets[0] == 0)
    &&& forall|i: int|
        0 <= i < offsets.len() - 1 ==> (#[trigger] offsets[i + 1] as int) == entry_end(
            data,
            offsets[i] as int,
        )
    &&& (offsets.len() > 0 ==> entry_end(data, offsets[offsets.len() - 1] as int) == data.len())
    &&& (offsets.len() == 0 ==> data.len() == 0)
}

/// The entries of a well-shaped block, in stored order.
pub open spec fn block_entries_of(data: Seq<u8>, offsets: Seq<u16>) -> Seq<(Seq<u8>, Seq<u8>)> {
    Seq::new(
        offsets.len(),
        |i: int| (entry_key(data, offsets[i] as int), entry_value(data, offsets[i] as int)),
    )
}

/// The value of the first entry whose key is `key`, if any.
pub open spec fn block_lookup(entries: Seq<(Seq<u8>, Seq<u8>)>, key: Seq<u8>) -> Option<Seq<u8>>
    decreases entries.len(),
{
    if entries.len() == 0 {
        Option::None
    } else if entries[0].0 == key {
        Option::Some(entries[0].1)
    } else {
        block_lookup(entries.skip(1), key)
    }
}

/// In a run of entries with strictly ascending keys, the entry at `l` is
/// what lookup finds for its key.
pub proof fn lemma_block_lookup_at(es: Seq<(Seq<u8>, Seq<u8>)>, l: int)
    requires
        forall|i: int, j: int|
            0 <= i < j < es.len() ==> crate::keys::lex_lt(
                (#[trigger] es[i]).0,
                (#[trigger] es[j]).0,
            ),
        0 <= l < es.len(),
    ensures
        block_lookup(es, es[l].0) == Option::Some(es[l].1),
    decreases l,
{
    if l == 0 {
    } else {
        assert(crate::keys::lex_lt(es[0].0, es[l].0));
        crate::keys::lemma_lex_trichotomy(es[0].0, es[l].0);
        assert(es.skip(1)[l - 1] == es[l]);
        assert forall|i: int, j: int| 0 <= i < j < es.skip(1).len() implies crate::keys::lex_lt(
            (#[trigger] es.skip(1)[i]).0,
            (#[trigger] es.skip(1)[j]).0,
        ) by {
            assert(es.skip(1)[i] == es[i + 1]);
            assert(es.skip(1)[j] == es[j + 1]);
        }
        lemma_block_lookup_at(es.skip(1), l - 1);
    }
}

/// A key no entry carries is not found.
pub proof fn lemma_block_lookup_absent(es: Seq<(Seq<u8>, Seq<u8>)>, key: Seq<u8>)
    requires
        forall|i: int| 0 <= i < es.len() ==> (#[trigger] es[i]).0 != key,
    ensures
        block_lookup(es, key) is None,
    decreases es.len(),
{
    if es.len() > 0 {
        assert forall|i: int| 0 <= i < es.skip(1).len() implies (#[trigger] es.skip(1)[i]).0
            != key by {
            assert(es.skip(1)[i] == es[i + 1]);
        }
        lemma_block_lookup_absent(es.skip(1), key);
    }
}

/// The byte image of the offset table.
pub open spec fn spec_offsets_bytes(offsets: Seq<u16>) -> Seq<u8>
    decreases offsets.len(),
{
    if offsets.len() == 0 {
        Seq::<u8>::empty()
    } else {
        spec_offsets_bytes(offsets.drop_last()) + spec_u16_to_le_bytes(offsets.last())
    }
}

/// The serialized image of a block.
pub open spec fn spec_encode_block(data: Seq<u8>, offsets: Seq<u16>) -> Seq<u8> {
    data + spec_offsets_bytes(offsets) + spec_u16_to_le_bytes(offsets.len() as u16)
}

/// What a byte string parses back to: the entries area and offset table, or
/// nothing if the image is no well-shaped block.
pub open spec fn spec_parse_block(d: Seq<u8>) -> Option<(Seq<u8>, Seq<u16>)> {
    if d.len() < 2 {
        Option::None
    } else {
        let n = spec_u16_from_le_bytes(d.subrange(d.len() - 2, d.len() as int)) as int;
        if d.len() < 2 + 2 * n {
            Option::None
        } else {
            let offs_start = d.len() - 2 - 2 * n;
            let data = d.subrange(0, offs_start);
            let offsets = Seq::new(
                n as nat,
                |i: int|
                    spec_u16_from_le_bytes(
                        d.subrange(offs_start + 2 * i, offs_start + 2 * i + 2),
                    ),
            );
            if block_shape_wf(data, offsets) {
                Option::Some((data, offsets))
            } else {
                Option::None
            }
        }
    }
}

/// The length of the offset-table image is two bytes per offset.
pub proof fn lemma_offsets_bytes_len(offsets: Seq<u16>)
    ensures
        spec_offsets_bytes(offsets).len() == 2 * offsets.len(),
    decreases offsets.len(),
{
    lemma_auto_spec_u16_to_from_le_bytes();
    if offsets.len() > 0 {
        lemma_offsets_bytes_len(offsets.drop_last());
    }
}

/// Each offset can be read back out of the offset-table image.
pub proof fn lemma_offsets_bytes_index(offsets: Seq<u16>, i: int)
    requires
        0 <= i < offsets.len(),
    ensures
        spec_offsets_bytes(offsets).subrange(2 * i, 2 * i + 2) =~= spec_u16_to_le_bytes(
            offsets[i],
        ),
    decreases offsets.len(),
{
    lemma_auto_spec_u16_to_from_le_bytes();
    lemma_offsets_bytes_len(offsets);
    if i == offsets.len() - 1 {
        lemma_offsets_bytes_len(offsets.drop_last());
        assert(spec_offsets_bytes(offsets).subrange(2 * i, 2 * i + 2) =~= spec_u16_to_le_bytes(
            offsets.last(),
        ));
    } else {
        lemma_offsets_bytes_len(offsets.drop_last());
        lemma_offsets_bytes_index(offsets.drop_last(), i);
        assert(spec_offsets_bytes(offsets).subrange(2 * i, 2 * i + 2) =~= spec_offsets_bytes(
            offsets.drop_last(),
        ).subrange(2 * i, 2 * i + 2));
    }
}

/// Parsing inverts serialization for every well-shaped block.
pub proof fn lemma_block_round_trip(data: Seq<u8>, offsets: Seq<u16>)
    requires
        block_shape_wf(data, offsets),
    ensures
        spec_parse_block(spec_encode_block(data, offsets)) == Option::Some((data, offsets)),
{
    lemma_auto_spec_u16_to_from_le_bytes();
    lemma_offsets_bytes_len(offsets);
    let d = spec_encode_block(data, offsets);
    let n = offsets.len() as int;
    assert(d.len() == data.len() + 2 * n + 2);
    assert(d.subrange(d.len() - 2, d.len() as int) =~= spec_u16_to_le_bytes(offsets.len() as u16));
    let offs_start = d.len() - 2 - 2 * n;
    assert(offs_start == data.len());
    assert(d.subrange(0, offs_start) =~= data);
    let parsed = Seq::new(
        n as nat,
        |i: int| spec_u16_from_le_bytes(d.subrange(offs_start + 2 * i, offs_start + 2 * i + 2)),
    );
    assert(parsed =~= offsets) by {
        assert forall|i: int| 0 <= i < n implies parsed[i] == offsets[i] by {
            lemma_offsets_bytes_index(offsets, i);
            assert(d.subrange(offs_start + 2 * i, offs_start + 2 * i + 2) =~= spec_offsets_bytes(
                offsets,
            ).subrange(2 * i, 2 * i + 2));
        }
    }
}

/// A bounded container of key-value entries; the caller hands entries in
/// sorted order and the block only enforces its byte budget.
#[derive(Debug)]
pub struct Block {
    pub data: Vec<u8>,
    pub offsets: Vec<u16>,
    pub block_size: usize,
}

impl Block {
    /// The entries area and offset table are a seamless run of entries.
    pub open spec fn wf(&self) -> bool {
        block_shape_wf(self.data@, self.offsets@)
    }

    /// The entries held, in stored order.
    pub open spec fn entries(&self) -> Seq<(Seq<u8>, Seq<u8>)> {
        block_entries_of(self.data@, self.offsets@)
    }

    /// The byte budget the block was created with.
    pub open spec fn spec_block_size(&self) -> int {
        self.block_size as int
    }

    /// Serialized size if encoded now: entries area, offset table, count.
    pub open spec fn spec_current_size(&self) -> int {
        self.data@.len() + 2 * self.offsets@.len() + 2int
    }

    /// Whether an entry still fits: the projected serialized size must stay
    /// within the budget, and lengths and offsets must fit their 16-bit
    /// encodings.
    pub open spec fn spec_can_add(&self, key: Seq<u8>, value: Seq<u8>) -> bool {
        &&& self.data@.len() + 4 + key.len() + value.len() <= 0xFFFF
    &&& self.offsets@.len() + 1 <= 0xFFFF
    &&& self.spec_current_size() + 4 + key.len() + value.len() + 2 <= self.block_size
    }

    /// An empty block with byte budget `block_size`.
    pub fn new(block_size: usize) -> (r: Block)
        ensures
            r.wf(),
            r.entries() =~= Seq::<(Seq<u8>, Seq<u8>)>::empty(),
            r.spec_block_size() == block_size,
            r.spec_current_size() == 2,
    {
        Block { data: Vec::new(), offsets: Vec::new(), block_size }
    }

    /// Number of entries in the block.
    pub fn len(&self) -> (r: usize)
        ensures
            r == self.entries().len(),
    {
        self.offsets.len()
    }

    /// True when the block holds no entry.
    pub fn is_empty(&self) -> (r: bool)
        ensures
            r == (self.entries().len() == 0),
    {
        self.offsets.len() == 0
    }

    /// Size of the entries area alone.
    pub fn data_size(&self) -> (r: usize)
        ensures
            r == self.data@.len(),
    {
        self.data.len()
    }

    /// Serialized size if encoded now.
    pub fn current_size(&self) -> (r: usize)
        requires
            self.wf(),
        ensures
            r == self.spec_current_size(),
    {
        self.data.len() + 2 * self.offsets.len() + 2
    }

    /// Tries to append an entry; refuses, leaving the block unchanged, when
    /// the entry would not fit.
    pub fn add(&mut self, key: &[u8], value: &[u8]) -> (r: bool)
        requires
            old(self).wf(),
        ensures
            final(self).wf(),
            r == old(self).spec_can_add(key@, value@),
            r ==> final(self).entries() =~= old(self).entries().push((key@, value@)),
            r ==> final(self).spec_current_size() == old(self).spec_current_size() + 4 + key@.len()
                + value@.len() + 2,
            !r ==> *final(self) == *old(self),
            final(self).spec_block_size() == old(self).spec_block_size(),
    {
        proof {
            lemma_auto_spec_u16_to_from_le_bytes();
        }
        if key.len() > 0xFFFF || value.len() > 0xFFFF {
            return false;
        }
        if self.data.len() + 4 + key.len() + value.len() > 0xFFFF {
            return false;
        }
        if self.offsets.len() + 1 > 0xFFFF {
            return false;
        }
        let projected = self.data.len() + 4 + key.len() + value.len() + 2 * self.offsets.len() + 4;
        if projected > self.block_size {
            return false;
        }
        let ghost old_data = self.data@;
        let ghost old_offsets = self.offsets@;
        let off = self.data.len() as u16;
        self.offsets.push(off);
        push_u16_le(&mut self.data, key.len() as u16);
        push_bytes(&mut self.data, key);
        push_u16_le(&mut self.data, value.len() as u16);
        push_bytes(&mut self.data, value);
        proof {
            let data = self.data@;
            let offsets = self.offsets@;
            let noff = old_data.len() as int;
            assert(data =~= old_data + spec_u16_to_le_bytes(key@.len() as u16) + key@
                + spec_u16_to_le_bytes(value@.len() as u16) + value@);
            // The freshly appended bytes parse back as the new entry.
            assert(data.subrange(noff, noff + 2) =~= spec_u16_to_le_bytes(key@.len() as u16));
            assert(entry_klen(data, noff) == key@.len());
            assert(data.subrange(noff + 2, noff + 2 + key@.len()) =~= key@);
            assert(data.subrange(noff + 2 + key@.len(), noff + 4 + key@.len())
                =~= spec_u16_to_le_bytes(value@.len() as u16));
            assert(entry_vlen(data, noff) == value@.len());
            assert(data.subrange(noff + 4 + key@.len(), noff + 4 + key@.len() + value@.len())
                =~= value@);
            assert(entry_ok(data, noff));
            assert(entry_end(data, noff) == data.len());
            // Extending the entries area does not disturb older entries.
            assert forall|i: int| 0 <= i < old_offsets.len() implies {
                &&& entry_ok(data, #[trigger] old_offsets[i] as int)
                &&& entry_klen(data, old_offsets[i] as int) == entry_klen(
                    old_data,
                    old_offsets[i] as int,
                )
                &&& entry_vlen(data, old_offsets[i] as int) == entry_vlen(
                    old_data,
                    old_offsets[i] as int,
                )
                &&& entry_key(data, old_offsets[i] as int) == entry_key(
                    old_data,
                    old_offsets[i] as int,
                )
                &&& entry_value(data, old_offsets[i] as int) == entry_value(
                    old_data,
                    old_offsets[i] as int,
                )
            } by {
                let o = old_offsets[i] as int;
                assert(entry_ok(old_data, o));
                assert(data.subrange(o, o + 2) =~= old_data.subrange(o, o + 2));
                assert(entry_klen(data, o) == entry_klen(old_data, o));
                let k = entry_klen(old_data, o);
                assert(data.subrange(o + 2 + k, o + 4 + k) =~= old_data.subrange(o + 2 + k, o + 4
                    + k));
                assert(entry_vlen(data, o) == entry_vlen(old_data, o));
                assert(data.subrange(o + 2, o + 2 + k) =~= old_data.subrange(o + 2, o + 2 + k));
                let v = entry_vlen(old_data, o);
                assert(data.subrange(o + 4 + k, o + 4 + k + v) =~= old_data.subrange(o + 4 + k, o
                    + 4 + k + v));
            }
            assert(final(self).wf());
            assert(final(self).entries() =~= old(self).entries().push((key@, value@)));
        }
        true
    }

    /// Serializes the block.
    pub fn encode(&self) -> (out: Vec<u8>)
        requires
            self.wf(),
        ensures
            out@ == spec_encode_block(self.data@, self.offsets@),
            spec_parse_block(out@) == Option::Some((self.data@, self.offsets@)),
            out@.len() == self.spec_current_size(),
    {
        proof {
            lemma_block_round_trip(self.data@, self.offsets@);
            lemma_offsets_bytes_len(self.offsets@);
        }
        let mut out: Vec<u8> = Vec::new();
        push_bytes(&mut out, self.data.as_slice());
        let mut i: usize = 0;
        while i < self.offsets.len()
            invariant
                0 <= i <= self.offsets@.len(),
                out@ == self.data@ + spec_offsets_bytes(self.offsets@.subrange(0, i as int)),
            decreases self.offsets@.len() - i,
        {
            push_u16_le(&mut out, self.offsets[i]);
            proof {
                assert(self.offsets@.subrange(0, i + 1).drop_last() =~= self.offsets@.subrange(
                    0,
                    i as int,
                ));
            }
            i = i + 1;
        }
        proof {
            assert(self.offsets@.subrange(0, self.offsets@.len() as int) =~= self.offsets@);
        }
        push_u16_le(&mut out, self.offsets.len() as u16);
        out
    }

    /// Parses a serialized block.  A byte string that is no well-shaped
    /// block image comes back as an empty block.
    pub fn decode(d: &[u8]) -> (r: Block)
        ensures
            r.wf(),
            r.spec_block_size() == BLOCK_SIZE,
            match spec_parse_block(d@) {
                Option::Some((data, offsets)) => r.data@ == data && r.offsets@ == offsets,
                Option::None => r.entries().len() == 0,
            },
    {
        proof {
            lemma_auto_spec_u16_to_from_le_bytes();
        }
        let len: usize = d.len();
        if len < 2 {
            return Block::new(BLOCK_SIZE);
        }
        let n = u16_from_le_bytes(slice_subrange(d, len - 2, len)) as usize;
        if (len - 2) / 2 < n {
            proof {
                assert(d@.len() < 2 + 2 * (n as int));
            }
            return Block::new(BLOCK_SIZE);
        }
        proof {
            assert(2 + 2 * (n as int) <= d@.len());
        }
        let offs_start = len - 2 - 2 * n;
        let data = slice_to_vec(slice_subrange(d, 0, offs_start));
        let ghost spec_offsets = Seq::new(
            n as nat,
            |i: int|
                spec_u16_from_le_bytes(
                    d@.subrange(offs_start + 2 * i, offs_start + 2 * i + 2),
                ),
        );
        let mut offsets: Vec<u16> = Vec::new();
        let mut i: usize = 0;
        while i < n
            invariant
                0 <= i <= n,
                offs_start + 2 * n + 2 == len,
                len == d@.len(),
                offsets@ =~= spec_offsets.subrange(0, i as int),
                spec_offsets == Seq::new(
                    n as nat,
                    |j: int|
                        spec_u16_from_le_bytes(
                            d@.subrange(offs_start + 2 * j, offs_start + 2 * j + 2),
                        ),
                ),
            decreases n - i,
        {
            let off = u16_from_le_bytes(slice_subrange(d, offs_start + 2 * i, offs_start + 2 * i + 2));
            offsets.push(off);
            proof {
                assert(offsets@ =~= spec_offsets.subrange(0, i + 1));
            }
            i = i + 1;
        }
        proof {
            assert(offsets@ =~= spec_offsets);
            assert(d@.subrange(d@.len() - 2, d@.len() as int) =~= d@.subrange(
                (len - 2) as int,
                len as int,
            ));
            assert(d@.subrange(0, offs_start as int) == data@);
            assert(spec_parse_block(d@) == if block_shape_wf(data@, offsets@) {
                Option::Some((data@, offsets@))
            } else {
                Option::<(Seq<u8>, Seq<u16>)>::None
            });
        }
        // Validate the shape: each entry parses and the run is seamless.
        let mut ok: bool = data.len() <= 0xFFFF && n <= 0xFFFF && (n > 0 || data.len() == 0);
        if ok && n > 0 {
            if offsets[0] != 0 {
                ok = false;
            }
        }
        let mut j: usize = 0;
        while j < n && ok
            invariant
                0 <= j <= n,
                n == offsets@.len(),
                ok ==> forall|i2: int| 0 <= i2 < j ==> entry_ok(data@, #[trigger] offsets@[i2] as int),
                ok ==> forall|i2: int|
                    0 <= i2 < j && i2 + 1 < n ==> (#[trigger] offsets@[i2 + 1] as int) == entry_end(
                        data@,
                        offsets@[i2] as int,
                    ),
                ok ==> (j == n && n > 0 ==> entry_end(data@, offsets@[n - 1] as int)
                    == data@.len()),
                ok ==> (n > 0 ==> offsets@[0] == 0),
                ok ==> data@.len() <= 0xFFFF && n <= 0xFFFF && (n > 0 || data@.len() == 0),
                !ok ==> !block_shape_wf(data@, offsets@),
            decreases n - j,
        {
            let off = offsets[j] as usize;
            proof {
                if block_shape_wf(data@, offsets@) {
                    assert(entry_ok(data@, offsets@[j as int] as int));
                }
            }
            // Parse the entry at `off`, with every bound checked.
            if off + 2 > data.len() {
                ok = false;
            } else {
                let klen = u16_from_le_bytes(slice_subrange(&data, off, off + 2)) as usize;
                proof {
                    assert(klen == entry_klen(data@, off as int));
                }
                if klen > data.len() || off + 4 + klen > data.len() {
                    ok = false;
                } else {
                    let vlen = u16_from_le_bytes(
                        slice_subrange(&data, off + 2 + klen, off + 4 + klen),
                    ) as usize;
                    proof {
                        assert(vlen == entry_vlen(data@, off as int));
                    }
                    if vlen > data.len() || off + 4 + klen + vlen > data.len() {
                        ok = false;
                    } else {
                        let end = off + 4 + klen + vlen;
                        proof {
                            assert(entry_ok(data@, off as int));
                            assert(entry_end(data@, off as int) == end);
                        }
                        if j + 1 < n {
                            if offsets[j + 1] as usize != end {
                                ok = false;
                                proof {
                                    assert(!block_shape_wf(data@, offsets@)) by {
                                        if block_shape_wf(data@, offsets@) {
                                            assert(offsets@[j + 1] as int == entry_end(
                                                data@,
                                                offsets@[j as int] as int,
                                            ));
                                        }
                                    }
                                }
                            }
                        } else {
                            if end != data.len() {
                                ok = false;
                            }
                        }
                    }
                }
            }
            j = j + 1;
        }
        if !ok {
            proof {
                assert(spec_parse_block(d@) is None);
            }
            return Block::new(BLOCK_SIZE);
        }
        proof {
            assert(block_shape_wf(data@, offsets@));
            assert(d@.subrange(d@.len() - 2, d@.len() as int) =~= d@.subrange(
                (len - 2) as int,
                len as int,
            ));
            assert(d@.subrange(0, offs_start as int) == data@);
        }
        Block { data, offsets, block_size: BLOCK_SIZE }
    }

    /// The key of the first entry, if any.
    pub fn first_key(&self) -> (r: Option<Vec<u8>>)
        requires
            self.wf(),
        ensures
            match r {
                Option::Some(k) => self.entries().len() > 0 && k@ == self.entries()[0].0,
                Option::None => self.entries().len() == 0,
            },
    {
        proof {
            lemma_auto_spec_u16_to_from_le_bytes();
        }
        if self.offsets.len() == 0 {
            return None;
        }
        proof {
            assert(entry_ok(self.data@, self.offsets@[0] as int));
        }
        let off = self.offsets[0] as usize;
        let klen = u16_from_le_bytes(slice_subrange(self.data.as_slice(), off, off + 2)) as usize;
        let key = slice_subrange(self.data.as_slice(), off + 2, off + 2 + klen);
        Some(slice_to_vec(key))
    }

    /// The entry at position `i`, as copies of its key and value.
    pub fn entry_at(&self, i: usize) -> (r: (Vec<u8>, Vec<u8>))
        requires
            self.wf(),
            i < self.entries().len(),
        ensures
            r.0@ == self.entries()[i as int].0,
            r.1@ == self.entries()[i as int].1,
    {
        proof {
            lemma_auto_spec_u16_to_from_le_bytes();
            assert(entry_ok(self.data@, self.offsets@[i as int] as int));
        }
        let off = self.offsets[i] as usize;
        let klen = u16_from_le_bytes(slice_subrange(self.data.as_slice(), off, off + 2)) as usize;
        let key = slice_subrange(self.data.as_slice(), off + 2, off + 2 + klen);
        let vlen = u16_from_le_bytes(
            slice_subrange(self.data.as_slice(), off + 2 + klen, off + 4 + klen),
        ) as usize;
        let value = slice_subrange(self.data.as_slice(), off + 4 + klen, off + 4 + klen + vlen);
        (slice_to_vec(key), slice_to_vec(value))
    }

    /// Looks a key up among the entries; linear scan in stored order.
    pub fn get(&self, key: &[u8]) -> (r: Option<Vec<u8>>)
        requires
            self.wf(),
        ensures
            match r {
                Option::Some(v) => block_lookup(self.entries(), key@) == Option::Some(v@),
                Option::None => block_lookup(self.entries(), key@) is None,
            },
    {
        let n = self.offsets.len();
        proof {
            assert(self.entries().skip(0) =~= self.entries());
        }
        let mut i: usize = 0;
        while i < n
            invariant
                0 <= i <= n,
                n == self.offsets@.len(),
                self.wf(),
                block_lookup(self.entries(), key@) == block_lookup(
                    self.entries().skip(i as int),
                    key@,
                ),
            decreases n - i,
        {
            proof {
                lemma_auto_spec_u16_to_from_le_bytes();
                assert(entry_ok(self.data@, self.offsets@[i as int] as int));
            }
            let off = self.offsets[i] as usize;
            let klen = u16_from_le_bytes(slice_subrange(self.data.as_slice(), off, off + 2))
                as usize;
            let ekey = slice_subrange(self.data.as_slice(), off + 2, off + 2 + klen);
            let ghost entry = self.entries()[i as int];
            proof {
                assert(ekey@ == entry.0);
                assert(self.entries().skip(i as int)[0] == entry);
            }
            if crate::keys::key_eq(ekey, key) {
                let vlen = u16_from_le_bytes(
                    slice_subrange(self.data.as_slice(), off + 2 + klen, off + 4 + klen),
                ) as usize;
                let value = slice_subrange(
                    self.data.as_slice(),
                    off + 4 + klen,
                    off + 4 + klen + vlen,
                );
                proof {
                    assert(value@ == entry.1);
                    assert(block_lookup(self.entries().skip(i as int), key@) == Option::Some(
                        entry.1,
                    ));
                }
                return Some(slice_to_vec(value));
            }
            proof {
                assert(self.entries().skip(i as int).skip(1) =~= self.entries().skip(i + 1));
            }
            i = i + 1;
        }
        proof {
            assert(self.entries().skip(n as int).len() == 0);
        }
        None
    }
}

} // verus!
