//! The shared block cache: a fixed-capacity LRU of decompressed block
//! bytes, keyed by file identity and block offset, through the `lru`
//! crate.
//!
//! The cache is owned by the engine and handed to every sorted-run reader,
//! so cached blocks survive individual opens and closes.  Its contents are
//! modelled as a map from key to bytes; eviction may drop any entry except
//! the one just inserted, and a hit returns exactly what was stored.

use vstd::prelude::*;
use vstd::string::StringSliceAdditionalSpecFns;

verus! {

/// Declares `lru::LruCache` so that it can stand in fields and signatures;
/// the value stays opaque.
#[verifier::external_type_specification]
#[verifier::external_body]
#[verifier::reject_recursive_types(K)]
#[verifier::reject_recursive_types(V)]
#[verifier::reject_recursive_types(S)]
pub struct ExLruCache<K, V, S>(lru::LruCache<K, V, S>);

/// The concrete cache collection: keyed by two 64-bit words, holding byte
/// vectors, hashed by the standard library's default hasher.
pub type LruBytes = lru::LruCache<(u64, u64), Vec<u8>, std::collections::hash_map::RandomState>;

/// A cache map with nothing in it.
pub open spec fn empty_cache_map() -> Map<(u64, u64), Seq<u8>> {
    Map::empty()
}

/// What the cache holds: the bytes stored under each (file, offset) key.
pub uninterp spec fn lru_contents(c: LruBytes) -> Map<
    (u64, u64),
    Seq<u8>,
>;

/// How many entries the cache may hold at once.
pub uninterp spec fn lru_capacity(c: LruBytes) -> int;

/// Relies on `lru::LruCache::with_hasher`: an empty cache with the given
/// capacity, holding finitely many entries at all times.
#[verifier::external_body]
fn lru_new(cap: usize) -> (r: LruBytes)
    requires
        cap >= 1,
    ensures
        lru_contents(r) == empty_cache_map(),
        lru_contents(r).dom().finite(),
        lru_capacity(r) == cap,
{
    lru::LruCache::with_hasher(
        core::num::NonZeroUsize::new(cap).unwrap(),
        std::collections::hash_map::RandomState::new(),
    )
}

/// Relies on `lru::LruCache::get`: a hit returns the stored bytes and only
/// refreshes recency; a miss means the key is absent.
#[verifier::external_body]
fn lru_get(c: &mut LruBytes, k: (u64, u64)) -> (r: Option<Vec<u8>>)
    ensures
        lru_contents(*final(c)) == lru_contents(*old(c)),
        lru_capacity(*final(c)) == lru_capacity(*old(c)),
        match r {
            Option::Some(v) => lru_contents(*old(c)).contains_key(k) && lru_contents(*old(c))[k]
                == v@,
            Option::None => !lru_contents(*old(c)).contains_key(k),
        },
{
    c.get(&k).cloned()
}

/// Relies on `lru::LruCache::put`: the pair goes in; at most the
/// least-recently-used entry leaves, so afterwards every held entry is the
/// new one or one already held.
#[verifier::external_body]
fn lru_put(c: &mut LruBytes, k: (u64, u64), v: Vec<u8>)
    ensures
        lru_contents(*final(c)).contains_key(k),
        lru_contents(*final(c))[k] == v@,
        forall|q: (u64, u64)| #[trigger]
            lru_contents(*final(c)).contains_key(q) ==> q == k || (lru_contents(
                *old(c),
            ).contains_key(q) && lru_contents(*final(c))[q] == lru_contents(*old(c))[q]),
        lru_capacity(*final(c)) == lru_capacity(*old(c)),
        lru_contents(*final(c)).dom().finite(),
        lru_contents(*old(c)).dom().finite() ==> lru_contents(*final(c)).dom().len()
            <= lru_capacity(*final(c)),
{
    c.put(k, v);
}

/// Relies on `lru::LruCache::clear`: every entry leaves.
#[verifier::external_body]
fn lru_clear(c: &mut LruBytes)
    ensures
        lru_contents(*final(c)) == empty_cache_map(),
        lru_contents(*final(c)).dom().finite(),
        lru_capacity(*final(c)) == lru_capacity(*old(c)),
{
    c.clear()
}

/// Relies on `lru::LruCache::len`: how many entries are held.
#[verifier::external_body]
fn lru_len(c: &LruBytes) -> (r: usize)
    ensures
        r == lru_contents(*c).dom().len() || !lru_contents(*c).dom().finite(),
{
    c.len()
}

/// Relies on `lru::LruCache::cap`: the configured capacity.
#[verifier::external_body]
fn lru_cap(c: &LruBytes) -> (r: usize)
    ensures
        r as int == lru_capacity(*c),
        r >= 1,
{
    c.cap().get()
}

/// Identifies one block across all sorted-run files: a file identity plus
/// the block's byte offset within the file.
#[derive(Debug, Clone, Copy, PartialEq, Eq, Structural, Hash)]
pub struct CacheKey {
    pub file_id: u64,
    pub block_offset: u64,
}

/// The 64-bit FNV-1a hash of a byte string.
pub open spec fn spec_fnv1a(data: Seq<u8>, i: int) -> u64
    decreases i,
{
    if i <= 0 {
        0xcbf29ce484222325u64
    } else {
        (spec_fnv1a(data, i - 1) ^ (data[i - 1] as u64)).wrapping_mul(0x100000001b3u64)
    }
}

/// The FNV-1a hash of a whole byte string: the deterministic file identity
/// of the path it is computed from.
pub open spec fn spec_file_id(path: Seq<u8>) -> u64 {
    spec_fnv1a(path, path.len() as int)
}

/// FNV-1a over a byte string; distinct paths get identities that collide
/// only as often as a 64-bit hash does.
pub fn fnv1a_hash(data: &[u8]) -> (r: u64)
    ensures
        r == spec_file_id(data@),
{
    let mut h: u64 = 0xcbf29ce484222325u64;
    let mut i: usize = 0;
    while i < data.len()
        invariant
            0 <= i <= data@.len(),
            h == spec_fnv1a(data@, i as int),
        decreases data@.len() - i,
    {
        h = (h ^ (data[i] as u64)).wrapping_mul(0x100000001b3u64);
        i = i + 1;
    }
    h
}

impl CacheKey {
    /// The cache key of the block at `offset` in the file at `path`: the
    /// file identity is derived deterministically from the path bytes.
    pub fn new(path: &str, offset: u64) -> (r: CacheKey)
        ensures
            r.file_id == spec_file_id(path.spec_bytes()),
            r.block_offset == offset,
    {
        CacheKey { file_id: fnv1a_hash(path.as_bytes()), block_offset: offset }
    }
}

/// Statistics of the cache: entries held and configured capacity.
#[derive(Debug, Clone, Copy, PartialEq, Eq, Structural)]
pub struct CacheStats {
    pub len: usize,
    pub cap: usize,
}

/// How many block slots a cache budget buys: the budget in bytes over the
/// block size, floored at one slot; a budget beyond what a machine word
/// counts in bytes is clamped first.
pub open spec fn spec_cache_slots(capacity_mb: int, block_size: int) -> int {
    let mb = if capacity_mb > usize::MAX as int / 1048576 {
        usize::MAX as int / 1048576
    } else {
        capacity_mb
    };
    let slots = mb * 1048576 / block_size;
    if slots == 0 {
        1
    } else {
        slots
    }
}

/// Process-wide cache of decompressed blocks shared by all sorted-run
/// readers, with LRU eviction.
#[derive(Debug)]
pub struct GlobalBlockCache {
    cache: LruBytes,
}

impl GlobalBlockCache {
    /// What the cache holds, keyed by (file identity, block offset).
    pub closed spec fn contents(&self) -> Map<(u64, u64), Seq<u8>> {
        lru_contents(self.cache)
    }

    /// How many entries the cache may hold at once.
    pub closed spec fn spec_capacity(&self) -> int {
        lru_capacity(self.cache)
    }

    /// The cache always holds finitely many entries.
    pub closed spec fn finite(&self) -> bool {
        lru_contents(self.cache).dom().finite()
    }

    /// An empty cache whose slot count is the byte budget over the block
    /// size, floored at one slot; an unpayable budget is clamped first.
    pub fn new(capacity_mb: usize, block_size: usize) -> (r: GlobalBlockCache)
        requires
            block_size >= 1,
        ensures
            r.contents() == empty_cache_map(),
            r.spec_capacity() == spec_cache_slots(capacity_mb as int, block_size as int),
            r.finite(),
    {
        let mb = if capacity_mb > usize::MAX / 1048576 {
            usize::MAX / 1048576
        } else {
            capacity_mb
        };
        let capacity_bytes = mb * 1048576;
        let mut num_blocks = capacity_bytes / block_size;
        if num_blocks == 0 {
            num_blocks = 1;
        }
        GlobalBlockCache { cache: lru_new(num_blocks) }
    }

    /// The bytes cached under `key`, if present.
    pub fn get(&mut self, key: &CacheKey) -> (r: Option<Vec<u8>>)
        ensures
            final(self).contents() == old(self).contents(),
            final(self).spec_capacity() == old(self).spec_capacity(),
            match r {
                Option::Some(v) => old(self).contents().contains_key(
                    (key.file_id, key.block_offset),
                ) && old(self).contents()[(key.file_id, key.block_offset)] == v@,
                Option::None => !old(self).contents().contains_key(
                    (key.file_id, key.block_offset),
                ),
            },
    {
        lru_get(&mut self.cache, (key.file_id, key.block_offset))
    }

    /// Stores bytes under `key`; at most one other entry is evicted.
    pub fn put(&mut self, key: CacheKey, value: Vec<u8>)
        ensures
            final(self).contents().contains_key((key.file_id, key.block_offset)),
            final(self).contents()[(key.file_id, key.block_offset)] == value@,
            forall|q: (u64, u64)|
                final(self).contents().contains_key(q) && q != (key.file_id, key.block_offset)
                    ==> old(self).contents().contains_key(q) && final(self).contents()[q] == old(self).contents()[q],
            final(self).spec_capacity() == old(self).spec_capacity(),
            final(self).finite(),
            old(self).finite() ==> final(self).contents().dom().len() <= final(self).spec_capacity(),
    {
        lru_put(&mut self.cache, (key.file_id, key.block_offset), value);
        proof {
            assert forall|q: (u64, u64)|
                self.contents().contains_key(q) && q != (key.file_id, key.block_offset) implies old(self).contents().contains_key(q) && self.contents()[q] == old(self).contents()[q] by {
                assert(lru_contents(self.cache).contains_key(q));
            }
        }
    }

    /// Empties the cache.
    pub fn clear(&mut self)
        ensures
            final(self).contents() == empty_cache_map(),
            final(self).finite(),
            final(self).spec_capacity() == old(self).spec_capacity(),
    {
        lru_clear(&mut self.cache)
    }

    /// Entries held and configured capacity, exactly.
    pub fn stats(&self) -> (r: CacheStats)
        requires
            self.finite(),
        ensures
            r.len as int == self.contents().dom().len(),
            r.cap as int == self.spec_capacity(),
            r.cap >= 1,
    {
        CacheStats { len: lru_len(&self.cache), cap: lru_cap(&self.cache) }
    }
}

} // verus!
