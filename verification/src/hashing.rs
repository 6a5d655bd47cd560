//! Fingerprint and bucket-index derivation.
//!
//! A key (an arbitrary byte slice) is hashed with 64-bit FNV-1a. The
//! fingerprint is the top byte of the hash, with 0 remapped to 1 so
//! that a stored fingerprint is never the empty-slot marker. The
//! primary index is the hash masked to the low `pow` bits; the
//! alternate index is the primary index XORed with the hash of the
//! fingerprint byte, under the same mask. The alternate index is
//! therefore derivable from the fingerprint and either index alone,
//! and the derivation is an involution: applying it twice returns to
//! the starting index.

use vstd::prelude::*;

verus! {

/// FNV-1a 64-bit offset basis.
pub const FNV_OFFSET: u64 = 0xcbf29ce484222325;

/// FNV-1a 64-bit prime.
pub const FNV_PRIME: u64 = 0x100000001b3;

/// One FNV-1a step: fold one byte into the running hash.
pub open spec fn fnv_mix(h: u64, b: u8) -> u64 {
    (h ^ (b as u64)).wrapping_mul(FNV_PRIME)
}

/// FNV-1a hash of a byte sequence.
pub open spec fn hash64(s: Seq<u8>) -> u64
    decreases s.len(),
{
    if s.len() == 0 {
        FNV_OFFSET
    } else {
        fnv_mix(hash64(s.drop_last()), s.last())
    }
}

/// The bit mask that keeps the low `pow` bits of an index.
pub open spec fn index_mask(pow: usize) -> u64
    recommends
        pow < 64,
{
    ((1u64 << (pow as u64)) - 1) as u64
}

/// The fingerprint byte of a key: the top byte of its hash, remapped
/// away from 0 so it can never be mistaken for an empty slot.
pub open spec fn fingerprint(k: Seq<u8>) -> u8 {
    let b = (hash64(k) >> 56) as u8;
    if b == 0 {
        1u8
    } else {
        b
    }
}

/// The primary bucket index of a key, under `pow` index bits.
pub open spec fn primary_index(k: Seq<u8>, pow: usize) -> u64 {
    hash64(k) & index_mask(pow)
}

/// The alternate bucket index reachable from index `i` for the
/// fingerprint `fp`, under `pow` index bits.
pub open spec fn alt_index(fp: u8, i: u64, pow: usize) -> u64 {
    (i ^ hash64(seq![fp])) & index_mask(pow)
}

/// The alternate index of a key: derived from its primary index and
/// its fingerprint.
pub open spec fn secondary_index(k: Seq<u8>, pow: usize) -> u64 {
    alt_index(fingerprint(k), primary_index(k, pow), pow)
}

/// An index that fits in the `pow`-bit index space.
pub open spec fn fits_index(i: u64, pow: usize) -> bool {
    i == i & index_mask(pow)
}

/// A fingerprint is never zero.
pub proof fn lemma_fingerprint_nonzero(k: Seq<u8>)
    ensures
        fingerprint(k) != 0,
{
}

/// A masked index fits the index space, and the whole index space
/// lies below 2^pow.
pub proof fn lemma_mask_bounds(x: u64, pow: usize)
    requires
        pow < 64,
    ensures
        fits_index(x & index_mask(pow), pow),
        x & index_mask(pow) < (1u64 << (pow as u64)),
{
    let p = pow as u64;
    let m = index_mask(pow);
    assert((x & m) & m == x & m && (p < 64 ==> (x & m) < (1u64 << p))) by (bit_vector)
        requires
            m == ((1u64 << p) - 1) as u64,
    ;
}

/// Re-deriving the other index is symmetric: from the alternate index
/// and the same fingerprint, the alternate derivation returns to the
/// original index.
pub proof fn lemma_alt_index_involution(fp: u8, i: u64, pow: usize)
    requires
        pow < 64,
        fits_index(i, pow),
    ensures
        alt_index(fp, alt_index(fp, i, pow), pow) == i,
{
    let h = hash64(seq![fp]);
    let m = index_mask(pow);
    assert((((i ^ h) & m) ^ h) & m == i & m) by (bit_vector);
}

/// The alternate derivation always lands inside the index space.
pub proof fn lemma_alt_index_fits(fp: u8, i: u64, pow: usize)
    requires
        pow < 64,
    ensures
        fits_index(alt_index(fp, i, pow), pow),
        alt_index(fp, i, pow) < (1u64 << (pow as u64)),
{
    lemma_mask_bounds(i ^ hash64(seq![fp]), pow);
}

/// One FNV-1a step, executably.
fn mix(h: u64, b: u8) -> (r: u64)
    ensures
        r == fnv_mix(h, b),
{
    (h ^ (b as u64)).wrapping_mul(FNV_PRIME)
}

/// FNV-1a hash of a byte slice.
pub fn hash_bytes(data: &[u8]) -> (h: u64)
    ensures
        h == hash64(data@),
{
    let mut h: u64 = FNV_OFFSET;
    let n = data.len();
    for idx in 0..n
        invariant
            n == data@.len(),
            h == hash64(data@.take(idx as int)),
    {
        h = mix(h, data[idx]);
        proof {
            assert(data@.take(idx + 1).drop_last() =~= data@.take(idx as int));
            assert(data@.take(idx + 1).last() == data@[idx as int]);
        }
    }
    proof {
        assert(data@.take(n as int) =~= data@);
    }
    h
}

/// FNV-1a hash of a single byte, as hashed when a fingerprint's own
/// hash is folded into an index.
fn hash_byte(b: u8) -> (h: u64)
    ensures
        h == hash64(seq![b]),
{
    proof {
        assert(seq![b].drop_last() =~= Seq::<u8>::empty());
        assert(seq![b].last() == b);
        assert(hash64(Seq::<u8>::empty()) == FNV_OFFSET);
        assert(hash64(seq![b]) == fnv_mix(hash64(seq![b].drop_last()), seq![b].last()));
    }
    mix(FNV_OFFSET, b)
}

/// Fingerprint, primary index and alternate index of a key, under
/// `pow` index bits.
pub fn key_parts(data: &[u8], pow: usize) -> (r: (u8, u64, u64))
    requires
        pow < 64,
    ensures
        r.0 == fingerprint(data@),
        r.0 != 0,
        r.1 == primary_index(data@, pow),
        r.2 == secondary_index(data@, pow),
        fits_index(r.1, pow),
        fits_index(r.2, pow),
        r.1 < (1u64 << (pow as u64)),
        r.2 < (1u64 << (pow as u64)),
    {
    let h = hash_bytes(data);
    proof {
        let p = pow as u64;
        assert(h >> 56 < 256) by (bit_vector);
        assert(p < 64 ==> 1u64 << p >= 1) by (bit_vector);
    }
    let top = (h >> 56) as u8;
    let fp: u8 = if top == 0 {
        1u8
    } else {
        top
    };
    let mask = (1u64 << (pow as u64)) - 1;
    let i1 = h & mask;
    let i2 = get_alt_index(fp, i1, pow);
    proof {
        lemma_mask_bounds(h, pow);
    }
    (fp, i1, i2)
}

/// The alternate index reachable from index `i` for fingerprint `fp`,
/// under `pow` index bits.
pub fn get_alt_index(fp: u8, i: u64, pow: usize) -> (r: u64)
    requires
        pow < 64,
    ensures
        r == alt_index(fp, i, pow),
        fits_index(r, pow),
        r < (1u64 << (pow as u64)),
    {
    let hf = hash_byte(fp);
    proof {
        let p = pow as u64;
        assert(p < 64 ==> 1u64 << p >= 1) by (bit_vector);
    }
    let mask = (1u64 << (pow as u64)) - 1;
    proof {
        lemma_alt_index_fits(fp, i, pow);
    }
    (i ^ hf) & mask
}

} // verus!
