//! The approximate membership filter of a sorted-run file, through the
//! `bloomfilter` crate.
//!
//! The filter is built over every key of a run and serialized into the
//! run's metadata block.  A negative answer is authoritative; a positive
//! one tolerates the configured false-positive rate.  The filter's
//! guarantee is modelled as the set of keys it was fed: `bloom_view`.  The
//! filter is always created with a fixed seed, so that a run's bytes are a
//! function of its records alone.

use vstd::prelude::*;

verus! {

/// Declares `bloomfilter::Bloom` so that it can stand in fields and
/// signatures; the value stays opaque.
#[verifier::external_type_specification]
#[verifier::external_body]
#[verifier::reject_recursive_types(T)]
pub struct ExBloom<T: ?Sized>(bloomfilter::Bloom<T>);

/// Keys the filter is bound to answer true for: the ones fed to it, or,
/// for a filter rebuilt from bytes, its whole accept-set.
pub uninterp spec fn bloom_view(b: bloomfilter::Bloom<[u8]>) -> Set<Seq<u8>>;

/// The filter has a non-empty bitmap, so probing it cannot fail.
pub uninterp spec fn bloom_wf(b: bloomfilter::Bloom<[u8]>) -> bool;

/// How many bytes the filter serializes to: its fixed header plus its
/// bitmap.
pub uninterp spec fn bloom_serial_len(b: bloomfilter::Bloom<[u8]>) -> int;

/// The accept-set of the filter a byte string encodes — every key that
/// filter answers true for — or nothing when the bytes encode no filter.
/// Two fed-key sets can leave identical filter state, so the bytes bound
/// the fed keys only from above.
pub uninterp spec fn bloom_unpacked(bytes: Seq<u8>) -> Option<Set<Seq<u8>>>;

/// Relies on `bloomfilter::Bloom::new_with_seed`: a filter with a positive
/// bitmap size and item estimate is created, empty; it serializes to a
/// 45-byte header plus the bitmap.
#[verifier::external_body]
pub(crate) fn bloom_new(bitmap_bytes: usize, items: usize, seed: &[u8; 32]) -> (r: Result<
    bloomfilter::Bloom<[u8]>,
    &'static str,
>)
    requires
        1 <= bitmap_bytes <= usize::MAX / 8,
        1 <= items,
    ensures
        r is Ok,
        r matches Ok(b) ==> bloom_wf(b) && bloom_view(b) == Set::<Seq<u8>>::empty()
            && bloom_serial_len(b) == 45 + bitmap_bytes,
{
    bloomfilter::Bloom::new_with_seed(bitmap_bytes, items, seed)
}

/// Relies on `bloomfilter::Bloom::set`: records the presence of one key.
#[verifier::external_body]
pub(crate) fn bloom_set(b: &mut bloomfilter::Bloom<[u8]>, key: &[u8])
    requires
        bloom_wf(*old(b)),
    ensures
        bloom_wf(*final(b)),
        bloom_view(*final(b)) == bloom_view(*old(b)).insert(key@),
        bloom_serial_len(*final(b)) == bloom_serial_len(*old(b)),
{
    b.set(key)
}

/// Relies on `bloomfilter::Bloom::check`: no false negatives — every key
/// that was fed answers true.
#[verifier::external_body]
pub(crate) fn bloom_check(b: &bloomfilter::Bloom<[u8]>, key: &[u8]) -> (r: bool)
    requires
        bloom_wf(*b),
    ensures
        bloom_view(*b).contains(key@) ==> r,
{
    b.check(key)
}

/// Relies on `bloomfilter::Bloom::to_bytes`: serializes header and bitmap,
/// so that `from_bytes` rebuilds a filter with identical behaviour.  The
/// rebuilt filter's accept-set therefore holds at least every key this one
/// is bound to accept; the bytes cannot pin the fed keys more tightly.
#[verifier::external_body]
pub(crate) fn bloom_to_bytes(b: &bloomfilter::Bloom<[u8]>) -> (r: Vec<u8>)
    requires
        bloom_wf(*b),
    ensures
        match bloom_unpacked(r@) {
            Option::Some(s) => bloom_view(*b) <= s,
            Option::None => false,
        },
        r@.len() == bloom_serial_len(*b),
{
    b.to_bytes()
}

/// Relies on `bloomfilter::Bloom::from_bytes`: rebuilds the serialized
/// filter, or rejects bytes that encode none.  The length floor keeps the
/// rebuilt bitmap non-empty; the ceiling keeps the byte count addressable
/// in bits.
#[verifier::external_body]
pub(crate) fn bloom_from_bytes(bytes: &[u8]) -> (r: Result<
    bloomfilter::Bloom<[u8]>,
    &'static str,
>)
    requires
        46 <= bytes@.len() <= usize::MAX / 8,
    ensures
        r matches Ok(b) ==> bloom_wf(b) && bloom_unpacked(bytes@) == Option::Some(bloom_view(b)),
        r is Err ==> bloom_unpacked(bytes@) is None,
{
    bloomfilter::Bloom::from_bytes(bytes.to_vec())
}

/// Repeated halving of `y` until it falls under 2048 (or the step bound is
/// reached), counting the steps: the integer part of `log2(y/1024)`.
pub open spec fn spec_halve(y: int, e: int) -> (int, int)
    decreases 60 - e,
{
    if y >= 2048 && 0 <= e < 60 {
        spec_halve(y / 2, e + 1)
    } else {
        (y, e)
    }
}

/// The bitmap size `bloom_bitmap_bytes` chooses, exactly: about
/// `1.44 * log2(1e6 / ppm)` bits per key, floored at one byte and capped
/// below the filter constructor's and serialization-window limits.
pub open spec fn spec_bloom_bitmap_bytes(items: int, ppm: int) -> int {
    let scaled = 1024000000int / ppm;
    let (y, e) = spec_halve(scaled, 0);
    let log2_1024 = e * 1024 + (if y >= 2048 {
        1023int
    } else {
        y - 1024
    });
    let bits_per_key_1024 = 1477 * log2_1024 / 1024;
    let total_bits = items * bits_per_key_1024 / 1024 + 8;
    let total_bytes = total_bits / 8 + 1;
    let cap = usize::MAX as int / 8 - 64;
    if total_bytes > cap {
        cap
    } else {
        total_bytes
    }
}

/// An integer approximation of the recommended bitmap size, in bytes, for
/// `items` keys at a false-positive rate of `fp_rate_ppm` parts per
/// million; exactly `spec_bloom_bitmap_bytes` of its arguments.
pub fn bloom_bitmap_bytes(items: usize, fp_rate_ppm: u32) -> (r: usize)
    requires
        1 <= fp_rate_ppm < 1000000,
    ensures
        r == spec_bloom_bitmap_bytes(items as int, fp_rate_ppm as int),
        1 <= r <= usize::MAX / 8 - 64,
{
    // log2 of (1e6 / ppm), scaled by 1024 and linearly interpolated.
    let scaled: u64 = 1024000000u64 / (fp_rate_ppm as u64);
    proof {
        assert(scaled >= 1024) by (nonlinear_arith)
            requires
                1 <= fp_rate_ppm < 1000000,
                scaled == 1024000000u64 as int / (fp_rate_ppm as int),
        ;
    }
    let mut y: u64 = scaled;
    let mut e: u64 = 0;
    while y >= 2048 && e < 60
        invariant
            1024 <= y,
            0 <= e <= 60,
            scaled >= 1024,
            spec_halve(scaled as int, 0) == spec_halve(y as int, e as int),
        decreases y,
    {
        y = y / 2;
        e = e + 1;
    }
    proof {
        assert(spec_halve(y as int, e as int) == (y as int, e as int));
    }
    let log2_1024: u64 = e * 1024 + (if y >= 2048 {
        1023
    } else {
        y - 1024
    });
    // 1.4427 bits per key per halving of the false-positive rate.
    let bits_per_key_1024: u64 = 1477 * log2_1024 / 1024;
    proof {
        assert(bits_per_key_1024 <= 100000);
        assert((items as u128) * (bits_per_key_1024 as u128) < 0x100000000000000000000000u128)
            by (nonlinear_arith)
            requires
                items as u128 <= 0xffffffffffffffffu128,
                bits_per_key_1024 as u128 <= 100000,
        ;
    }
    let total_bits: u128 = (items as u128) * (bits_per_key_1024 as u128) / 1024 + 8;
    let total_bytes: u128 = total_bits / 8 + 1;
    let cap: usize = usize::MAX / 8 - 64;
    if total_bytes > (cap as u128) {
        cap
    } else {
        proof {
            assert(total_bytes <= usize::MAX as u128);
        }
        total_bytes as usize
    }
}

} // verus!
