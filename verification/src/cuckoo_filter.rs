//! The cuckoo filter: an array of four-slot buckets sized to a power
//! of two, a live-item counter, and the insertion, lookup and deletion
//! operations, including the bounded eviction ("kick") loop.

use crate::bucket::Bucket;
use crate::bucket::occupied_slots;
use crate::hashing::alt_index;
use crate::hashing::fingerprint;
use crate::hashing::fits_index;
use crate::hashing::get_alt_index;
use crate::hashing::key_parts;
use crate::hashing::lemma_alt_index_fits;
use crate::hashing::lemma_alt_index_involution;
use crate::hashing::lemma_mask_bounds;
use crate::hashing::primary_index;
use crate::hashing::secondary_index;
use vstd::multiset::Multiset;
use vstd::prelude::*;
use vstd::arithmetic::power2::pow2;
use vstd::arithmetic::power2::is_pow2;
use vstd::arithmetic::power2::lemma_pow2_adds;
use vstd::arithmetic::power2::lemma_pow2_pos;
use vstd::arithmetic::power2::lemma_pow2_strictly_increases;
use vstd::arithmetic::power2::lemma2_to64;

verus! {

/// Trailing zero count of `c`, with the convention that the count of
/// zero is the full bit width, 64.
pub open spec fn spec_trailing_zeros(c: int) -> int
    recommends
        c >= 0,
    decreases c,
{
    if c <= 0 {
        64
    } else if c % 2 == 1 {
        0
    } else {
        1 + spec_trailing_zeros(c / 2)
    }
}

/// The smallest power of two that is at least `max(x, 1)`.
pub open spec fn spec_upper_power2(x: int) -> int
    decreases x,
{
    if x <= 1 {
        1
    } else {
        2 * spec_upper_power2((x + 1) / 2)
    }
}

/// The bucket count chosen for a requested key capacity: the smallest
/// power of two holding at least `max_num_keys / 4` buckets, doubled
/// once more when the load factor `max_num_keys / (buckets * 4)` would
/// exceed 0.96, that is, when `25 * max_num_keys > 96 * buckets`.
pub open spec fn spec_gen_size(max_num_keys: u64) -> int {
    let base = spec_upper_power2(if max_num_keys / 4 >= 1 {
        (max_num_keys / 4) as int
    } else {
        1int
    });
    if 25 * max_num_keys > 96 * base {
        2 * base
    } else {
        base
    }
}

/// The trailing zero count is never negative.
proof fn lemma_tz_nonneg(c: int)
    ensures
        spec_trailing_zeros(c) >= 0,
    decreases c,
{
    if c > 0 && c % 2 == 0 {
        lemma_tz_nonneg(c / 2);
    }
}

/// A positive number below 2^k has fewer than k trailing zeros.
proof fn lemma_tz_bound(c: int, k: nat)
    requires
        1 <= c < pow2(k),
    ensures
        spec_trailing_zeros(c) < k,
    decreases c,
{
    lemma2_to64();
    if c % 2 == 1 {
        if k == 0 {
            assert(pow2(0) == 1);
        } else {
            lemma_tz_nonneg(c);
        }
    } else {
        lemma_pow2_adds((k - 1) as nat, 1);
        assert(pow2(1) == 2);
        lemma_tz_bound(c / 2, (k - 1) as nat);
    }
}

/// Two to the trailing-zero count of a positive number never exceeds
/// that number.
proof fn lemma_pow2_tz_le(c: int)
    requires
        c >= 1,
    ensures
        pow2(spec_trailing_zeros(c) as nat) <= c,
    decreases c,
{
    lemma2_to64();
    if c % 2 == 1 {
        assert(pow2(0) == 1);
    } else {
        lemma_pow2_tz_le(c / 2);
        lemma_tz_nonneg(c / 2);
        lemma_pow2_adds(1, spec_trailing_zeros(c / 2) as nat);
        assert(pow2(1) == 2);
    }
}

/// The upper power of two of `x >= 1` is a power of two, at least `x`,
/// and below `2 * x`.
proof fn lemma_upper_power2_props(x: int)
    requires
        x >= 1,
    ensures
        is_pow2(spec_upper_power2(x)),
        spec_upper_power2(x) >= x,
        spec_upper_power2(x) < 2 * x,
    decreases x,
{
    reveal(is_pow2);
    if x > 1 {
        lemma_upper_power2_props((x + 1) / 2);
    }
}

/// Number of trailing zero bits of `c`; 64 when `c` is 0.
pub fn trailing_zeros(c: usize) -> (r: usize)
    ensures
        r as int == spec_trailing_zeros(c as int),
        r <= 64,
{
    if c == 0 {
        return 64;
    }
    let mut x: usize = c;
    let mut n: usize = 0;
    proof {
        lemma2_to64();
        vstd::arithmetic::power2::lemma2_to64_rest();
        lemma_tz_bound(c as int, 64);
        lemma_tz_nonneg(x as int);
    }
    while x % 2 == 0
        invariant
            x >= 1,
            spec_trailing_zeros(c as int) == n + spec_trailing_zeros(x as int),
            spec_trailing_zeros(c as int) < 64,
            spec_trailing_zeros(x as int) >= 0,
            n <= 64,
        decreases x,
    {
        x = x / 2;
        n = n + 1;
        proof {
            lemma_tz_nonneg(x as int);
        }
    }
    n
}

/// The smallest power of two at least `max(x, 1)`.
pub fn upper_power2(x: u64) -> (r: u64)
    requires
        x <= 0x4000000000000000,
    ensures
        r as int == spec_upper_power2(x as int),
        r >= 1,
    decreases x,
{
    if x <= 1 {
        1
    } else {
        proof {
            lemma_upper_power2_props(((x + 1) / 2) as int);
        }
        let half = upper_power2((x + 1) / 2);
        2 * half
    }
}

/// The bucket count for a requested key capacity: a power of two, with
/// one extra doubling when the load factor would exceed 0.96.
pub fn gen_size(max_num_keys: u64) -> (r: u64)
    ensures
        r as int == spec_gen_size(max_num_keys),
        r >= 1,
{
    let quarter = max_num_keys / 4;
    let want: u64 = if quarter >= 1 {
        quarter
    } else {
        1
    };
    proof {
        lemma_upper_power2_props(want as int);
    }
    let mut num_buckets = upper_power2(want);
    if (25u128 * (max_num_keys as u128)) > (96u128 * (num_buckets as u128)) {
        num_buckets = num_buckets * 2;
    }
    num_buckets
}

/// The chosen bucket count is at least one and never exceeds the
/// requested key count (or four, for tiny requests), so a caller can
/// bound the allocation from its own argument.
pub proof fn lemma_gen_size_bounds(max_num_keys: u64)
    ensures
        1 <= spec_gen_size(max_num_keys),
        spec_gen_size(max_num_keys) <= if max_num_keys <= 4 {
            4int
        } else {
            max_num_keys as int
        },
{
    let x: int = if max_num_keys / 4 >= 1 {
        (max_num_keys / 4) as int
    } else {
        1int
    };
    lemma_upper_power2_props(x);
}

/// Maximum number of cuckoo kicks before an insertion claims failure.
pub const MAX_CUCKOO_COUNT: usize = 500;

/// Relies on rand::random: a fresh draw from the thread-local random
/// generator. Nothing is assumed about which value comes back.
pub assume_specification<T>[ rand::random::<T> ]() -> (r: T)
    where
        rand::distributions::Standard: rand::distributions::Distribution<T>,
;

/// One of the two candidate indices, chosen by a fair coin.
fn rand_index(i1: u64, i2: u64) -> (r: u64)
    ensures
        r == i1 || r == i2,
{
    if rand::random::<bool>() {
        i1
    } else {
        i2
    }
}

/// A slot position drawn uniformly from the four of a bucket.
fn rand_slot() -> (j: usize)
    ensures
        j < 4,
{
    let b: u8 = rand::random();
    (b % 4) as usize
}

/// A slot update that overwrites something other than an occurrence
/// of `v` keeps `v` present.
proof fn lemma_update_keeps_contains(s: Seq<u8>, j: int, x: u8, v: u8)
    requires
        0 <= j < s.len(),
        s.contains(v),
        s[j] != v,
    ensures
        s.update(j, x).contains(v),
{
    let t = choose|t: int| 0 <= t < s.len() && s[t] == v;
    assert(s.update(j, x)[t] == v);
}

/// The result of an operation that either succeeds or reports a
/// filter error.
pub type CResult<E> = Result<(), E>;

/// Errors of the filter's operations. Only `NotEnoughSpace` is ever
/// produced today; the other variants are kept for callers that match
/// exhaustively on future operations.
pub enum CuckooError {
    NotFound,
    NotEnoughSpace,
    NotSupported,
}

/// Occupied slots summed over a whole bucket array.
pub open spec fn total_occupied(bs: Seq<Bucket>) -> int
    decreases bs.len(),
{
    if bs.len() == 0 {
        0
    } else {
        total_occupied(bs.drop_last()) + occupied_slots(bs.last()@)
    }
}

/// Replacing one bucket changes the total by the difference of that
/// bucket's occupancy.
proof fn lemma_total_occupied_update(bs: Seq<Bucket>, k: int, nb: Bucket)
    requires
        0 <= k < bs.len(),
    ensures
        total_occupied(bs.update(k, nb)) == total_occupied(bs) - occupied_slots(bs[k]@)
            + occupied_slots(nb@),
    decreases bs.len(),
{
    let u = bs.update(k, nb);
    if k == bs.len() - 1 {
        assert(u.drop_last() =~= bs.drop_last());
        assert(u.last() == nb);
    } else {
        assert(u.drop_last() =~= bs.drop_last().update(k, nb));
        assert(u.last() == bs.last());
        lemma_total_occupied_update(bs.drop_last(), k, nb);
    }
}

/// The total occupancy lies between any one bucket's occupancy and
/// that occupancy plus four slots for every other bucket.
proof fn lemma_total_occupied_split(bs: Seq<Bucket>, k: int)
    requires
        0 <= k < bs.len(),
    ensures
        occupied_slots(bs[k]@) <= total_occupied(bs),
        total_occupied(bs) <= occupied_slots(bs[k]@) + 4 * (bs.len() - 1),
    decreases bs.len(),
{
    if k == bs.len() - 1 {
        lemma_total_occupied_bounds(bs.drop_last());
    } else {
        lemma_total_occupied_split(bs.drop_last(), k);
        assert(bs.drop_last()[k] == bs[k]);
    }
}

/// The total occupancy of a bucket array lies between 0 and four
/// slots per bucket.
proof fn lemma_total_occupied_bounds(bs: Seq<Bucket>)
    ensures
        0 <= total_occupied(bs) <= 4 * bs.len(),
    decreases bs.len(),
{
    if bs.len() > 0 {
        lemma_total_occupied_bounds(bs.drop_last());
    }
}

/// A bucket array with no occupied slot at all has none in any one
/// bucket.
proof fn lemma_total_occupied_zero(bs: Seq<Bucket>, k: int)
    requires
        0 <= k < bs.len(),
        total_occupied(bs) == 0,
    ensures
        occupied_slots(bs[k]@) == 0,
    decreases bs.len(),
{
    lemma_total_occupied_bounds(bs.drop_last());
    if k < bs.len() - 1 {
        lemma_total_occupied_zero(bs.drop_last(), k);
        assert(bs.drop_last()[k] == bs[k]);
    }
}

/// A power of two of a six-bit exponent, as the machine computes it.
proof fn lemma_shl_is_pow2(pow: usize)
    requires
        pow < 64,
    ensures
        (1u64 << (pow as u64)) as int == pow2(pow as nat),
        1u64 << (pow as u64) >= 1,
{
    lemma2_to64();
    vstd::arithmetic::power2::lemma2_to64_rest();
    if pow < 63 {
        lemma_pow2_strictly_increases(pow as nat, 63);
    }
    vstd::bits::lemma_u64_shl_is_mul(1u64, pow as u64);
}

/// The multiset of the four slot values of a bucket.
pub open spec fn bucket_ms(s: Seq<u8>) -> Multiset<u8>
    recommends
        s.len() == 4,
{
    Multiset::empty().insert(s[0]).insert(s[1]).insert(s[2]).insert(s[3])
}

/// The multiset of every slot value across a bucket array, empty
/// slots included.
pub open spec fn slots_ms(bs: Seq<Bucket>) -> Multiset<u8>
    decreases bs.len(),
{
    if bs.len() == 0 {
        Multiset::empty()
    } else {
        slots_ms(bs.drop_last()).add(bucket_ms(bs.last()@))
    }
}

/// Replacing one bucket exchanges exactly that bucket's slot values
/// in the array-wide multiset.
proof fn lemma_slots_ms_update(bs: Seq<Bucket>, k: int, nb: Bucket)
    requires
        0 <= k < bs.len(),
    ensures
        slots_ms(bs.update(k, nb)).add(bucket_ms(bs[k]@)) == slots_ms(bs).add(bucket_ms(nb@)),
    decreases bs.len(),
{
    broadcast use vstd::multiset::group_multiset_axioms;

    let u = bs.update(k, nb);
    assert(slots_ms(bs) == slots_ms(bs.drop_last()).add(bucket_ms(bs.last()@)));
    if k == bs.len() - 1 {
        assert(u.drop_last() =~= bs.drop_last());
        assert(u.last() == nb);
        assert(slots_ms(u) == slots_ms(bs.drop_last()).add(bucket_ms(nb@)));
        assert(bs.last() == bs[k]);
        assert forall|y: u8|
            slots_ms(u).add(bucket_ms(bs[k]@)).count(y) == slots_ms(bs).add(
                bucket_ms(nb@),
            ).count(y) by {
            assert(slots_ms(u).add(bucket_ms(bs[k]@)).count(y) == slots_ms(u).count(y)
                + bucket_ms(bs[k]@).count(y));
            assert(slots_ms(u).count(y) == slots_ms(bs.drop_last()).count(y) + bucket_ms(
                nb@,
            ).count(y));
            assert(slots_ms(bs).add(bucket_ms(nb@)).count(y) == slots_ms(bs).count(y) + bucket_ms(
                nb@,
            ).count(y));
            assert(slots_ms(bs).count(y) == slots_ms(bs.drop_last()).count(y) + bucket_ms(
                bs[k]@,
            ).count(y));
        }
        assert(slots_ms(u).add(bucket_ms(bs[k]@)) =~= slots_ms(bs).add(bucket_ms(nb@)));
    } else {
        assert(u.drop_last() =~= bs.drop_last().update(k, nb));
        assert(u.last() == bs.last());
        lemma_slots_ms_update(bs.drop_last(), k, nb);
        assert(bs.drop_last()[k] == bs[k]);
        assert(slots_ms(u) == slots_ms(bs.drop_last().update(k, nb)).add(bucket_ms(bs.last()@)));
        assert forall|y: u8|
            slots_ms(u).add(bucket_ms(bs[k]@)).count(y) == slots_ms(bs).add(
                bucket_ms(nb@),
            ).count(y) by {
            assert(slots_ms(bs.drop_last().update(k, nb)).add(bucket_ms(bs[k]@)).count(y)
                == slots_ms(bs.drop_last()).add(bucket_ms(nb@)).count(y));
            assert(slots_ms(bs.drop_last().update(k, nb)).add(bucket_ms(bs[k]@)).count(y)
                == slots_ms(bs.drop_last().update(k, nb)).count(y) + bucket_ms(bs[k]@).count(y));
            assert(slots_ms(bs.drop_last()).add(bucket_ms(nb@)).count(y) == slots_ms(
                bs.drop_last(),
            ).count(y) + bucket_ms(nb@).count(y));
            assert(slots_ms(u).add(bucket_ms(bs[k]@)).count(y) == slots_ms(
                bs.drop_last().update(k, nb),
            ).count(y) + bucket_ms(bs.last()@).count(y) + bucket_ms(bs[k]@).count(y));
            assert(slots_ms(bs).add(bucket_ms(nb@)).count(y) == slots_ms(bs.drop_last()).count(y)
                + bucket_ms(bs.last()@).count(y) + bucket_ms(nb@).count(y));
        }
        assert(slots_ms(u).add(bucket_ms(bs[k]@)) =~= slots_ms(bs).add(bucket_ms(nb@)));
    }
}

/// Overwriting one slot exchanges exactly the old and new values in
/// the bucket's multiset.
proof fn lemma_bucket_ms_update(s: Seq<u8>, j: int, x: u8)
    requires
        s.len() == 4,
        0 <= j < 4,
    ensures
        bucket_ms(s.update(j, x)).insert(s[j]) == bucket_ms(s).insert(x),
{
    broadcast use vstd::multiset::group_multiset_axioms;

    if j == 0 {
        assert(bucket_ms(s.update(j, x)).insert(s[j]) =~= bucket_ms(s).insert(x));
    } else if j == 1 {
        assert(bucket_ms(s.update(j, x)).insert(s[j]) =~= bucket_ms(s).insert(x));
    } else if j == 2 {
        assert(bucket_ms(s.update(j, x)).insert(s[j]) =~= bucket_ms(s).insert(x));
    } else {
        assert(bucket_ms(s.update(j, x)).insert(s[j]) =~= bucket_ms(s).insert(x));
    }
}

/// From the two exchange equations of an insertion into an empty
/// slot, the whole-array multiset gains the stored value in place of
/// one empty marker.
proof fn lemma_ms_exchange(
    sn: Multiset<u8>,
    so: Multiset<u8>,
    bn: Multiset<u8>,
    bo: Multiset<u8>,
    a: u8,
    b: u8,
)
    requires
        sn.add(bo) == so.add(bn),
        bn.insert(a) == bo.insert(b),
    ensures
        sn.insert(a) == so.insert(b),
{
    broadcast use vstd::multiset::group_multiset_axioms;

    assert forall|y: u8| sn.insert(a).count(y) == so.insert(b).count(y) by {
        assert(sn.add(bo).count(y) == sn.count(y) + bo.count(y));
        assert(so.add(bn).count(y) == so.count(y) + bn.count(y));
        assert(sn.count(y) + bo.count(y) == so.count(y) + bn.count(y));
        assert(bn.insert(a).count(y) == bn.count(y) + Multiset::singleton(a).count(y));
        assert(bo.insert(b).count(y) == bo.count(y) + Multiset::singleton(b).count(y));
        assert(bn.count(y) + Multiset::singleton(a).count(y) == bo.count(y) + Multiset::singleton(
            b,
        ).count(y));
        assert(sn.insert(a).count(y) == sn.count(y) + Multiset::singleton(a).count(y));
        assert(so.insert(b).count(y) == so.count(y) + Multiset::singleton(b).count(y));
    }
    assert(sn.insert(a) =~= so.insert(b));
}

/// Exactly one slot of bucket `c`, one that held `fpv`, has been
/// cleared between `pre` and `post`; every other bucket stands
/// untouched.
pub open spec fn removed_one(pre: CuckooFilter, post: CuckooFilter, c: u64, fpv: u8) -> bool {
    &&& exists|s: int|
        0 <= s < 4 && pre.bucket_at(c)[s] == fpv && (forall|t: int|
            0 <= t < s ==> pre.bucket_at(c)[t] != fpv) && post.bucket_at(c) == pre.bucket_at(
            c,
        ).update(s, 0u8)
    &&& forall|b: int|
        0 <= b < pre.num_buckets() && b != c as int ==> post.spec_buckets()[b]
            == pre.spec_buckets()[b]
}

/// A cuckoo filter: a power-of-two-sized array of four-slot buckets
/// and a count of the fingerprints currently stored.
pub struct CuckooFilter {
    buckets: Vec<Bucket>,
    size: usize,
    pow: usize,
}

impl CuckooFilter {
    /// The bucket array.
    pub closed spec fn spec_buckets(self) -> Seq<Bucket> {
        self.buckets@
    }

    /// The number of low hash bits used as a bucket index.
    pub closed spec fn spec_pow(self) -> usize {
        self.pow
    }

    /// The stored-fingerprint count, as tracked by the filter.
    pub closed spec fn spec_size(self) -> int {
        self.size as int
    }

    /// Number of buckets.
    pub open spec fn num_buckets(self) -> int {
        self.spec_buckets().len() as int
    }

    /// The slot sequence of the bucket at index `i`.
    pub open spec fn bucket_at(self, i: u64) -> Seq<u8> {
        self.spec_buckets()[i as int]@
    }

    /// Well-formedness: at least one bucket, a valid index width whose
    /// index space fits the bucket array, four slots per bucket, a
    /// slot count per bucket that fits the machine word, and a size
    /// counter that equals the number of occupied slots.
    pub open spec fn wf(self) -> bool {
        &&& self.spec_buckets().len() >= 1
        &&& self.spec_pow() < 64
        &&& pow2(self.spec_pow() as nat) <= self.spec_buckets().len()
        &&& forall|b: int|
            0 <= b < self.spec_buckets().len() ==> (#[trigger] self.spec_buckets()[b])@.len() == 4
        &&& self.spec_size() == total_occupied(self.spec_buckets())
        &&& self.spec_buckets().len() * 4 <= usize::MAX
    }

    /// Every slot of every bucket is empty.
    pub open spec fn all_empty(self) -> bool {
        forall|b: int, j: int|
            0 <= b < self.num_buckets() && 0 <= j < 4 ==> (#[trigger] self.spec_buckets()[b]@[j])
                == 0u8
    }

    /// The key's fingerprint is present in one of its two candidate
    /// buckets. This is exactly what `contains` reports.
    pub open spec fn spec_contains(self, k: Seq<u8>) -> bool {
        self.bucket_at(primary_index(k, self.spec_pow())).contains(fingerprint(k))
            || self.bucket_at(secondary_index(k, self.spec_pow())).contains(fingerprint(k))
    }

    /// One of the key's two candidate buckets has an empty slot, so an
    /// `add` of this key is owed success without any eviction.
    pub open spec fn has_room_for(self, k: Seq<u8>) -> bool {
        self.bucket_at(primary_index(k, self.spec_pow())).contains(0u8)
            || self.bucket_at(secondary_index(k, self.spec_pow())).contains(0u8)
    }

    /// The fingerprint value `v` is present in the candidate pair of
    /// buckets reachable from index `a`: at `a` itself or at the
    /// alternate index derived from `v` and `a`.
    pub open spec fn pair_present(self, v: u8, a: u64) -> bool {
        self.bucket_at(a).contains(v) || self.bucket_at(
            alt_index(v, a, self.spec_pow()),
        ).contains(v)
    }

    /// Every slot of bucket `i` holds exactly the value `v`.
    pub open spec fn bucket_all(self, i: u64, v: u8) -> bool {
        forall|j: int| 0 <= j < 4 ==> #[trigger] self.bucket_at(i)[j] == v
    }

    /// Every occupant of bucket `i` could relocate: for each slot,
    /// the alternate bucket of the fingerprint it holds has an empty
    /// slot, so the first eviction kick from bucket `i` succeeds
    /// whatever slot is drawn.
    pub open spec fn every_victim_relocatable(self, i: u64) -> bool {
        forall|j: int|
            0 <= j < 4 ==> self.bucket_at(
                alt_index(#[trigger] self.bucket_at(i)[j], i, self.spec_pow()),
            ).contains(0u8)
    }

    /// A filter with `capacity` zeroed buckets (at least one), using
    /// the trailing-zero count of the bucket count as its index width.
    pub fn with_capacity(capacity: usize) -> (r: Self)
        requires
            4 * (capacity as int) <= usize::MAX,
        ensures
            r.wf(),
            r.spec_size() == 0,
            r.all_empty(),
            r.num_buckets() == if capacity == 0 { 1int } else { capacity as int },
            r.spec_pow() as int == spec_trailing_zeros(
                if capacity == 0 { 1int } else { capacity as int },
            ),
    {
        let cap: usize = if capacity == 0 {
            1
        } else {
            capacity
        };
        let mut buckets: Vec<Bucket> = Vec::new();
        let mut n: usize = 0;
        while n < cap
            invariant
                n == buckets@.len(),
                n <= cap,
                total_occupied(buckets@) == 0,
                forall|b: int, j: int|
                    0 <= b < n && 0 <= j < 4 ==> (#[trigger] buckets@[b]@[j]) == 0u8,
                forall|b: int| 0 <= b < n ==> (#[trigger] buckets@[b])@.len() == 4,
            decreases cap - n,
        {
            let ghost prev = buckets@;
            let nb = Bucket::new();
            buckets.push(nb);
            n = n + 1;
            proof {
                assert(buckets@.drop_last() =~= prev);
                assert(occupied_slots(nb@) == 0);
            }
        }
        let p = trailing_zeros(cap);
        proof {
            vstd::arithmetic::power2::lemma2_to64_rest();
            lemma_tz_bound(cap as int, 64);
            lemma_tz_nonneg(cap as int);
            lemma_pow2_tz_le(cap as int);
        }
        CuckooFilter { buckets, size: 0, pow: p }
    }

    /// A filter sized for `max_num_keys` keys, with the bucket count
    /// that `gen_size` chooses.
    pub fn new(max_num_keys: u64) -> (r: Self)
        requires
            4 * spec_gen_size(max_num_keys) <= usize::MAX,
        ensures
            r.wf(),
            r.spec_size() == 0,
            r.all_empty(),
            r.num_buckets() == spec_gen_size(max_num_keys),
            r.spec_pow() as int == spec_trailing_zeros(spec_gen_size(max_num_keys)),
    {
        let n = gen_size(max_num_keys);
        Self::with_capacity(n as usize)
    }

    /// The number of fingerprints currently stored.
    pub fn size(&self) -> (r: usize)
        ensures
            r as int == self.spec_size(),
    {
        self.size
    }

    /// An index that fits the index space addresses a bucket.
    proof fn lemma_index_in_bounds(self, i: u64)
        requires
            self.wf(),
            fits_index(i, self.spec_pow()),
        ensures
            (i as int) < self.num_buckets(),
    {
        lemma_mask_bounds(i, self.spec_pow());
        lemma_shl_is_pow2(self.spec_pow());
    }

    /// Stores `fp` in bucket `i` if that bucket has an empty slot,
    /// counting the stored fingerprint; reports whether it did.
    fn insert(&mut self, fp: u8, i: u64) -> (r: bool)
        requires
            old(self).wf(),
            fp != 0,
            fits_index(i, old(self).spec_pow()),
        ensures
            final(self).wf(),
            final(self).spec_pow() == old(self).spec_pow(),
            final(self).num_buckets() == old(self).num_buckets(),
            r == old(self).bucket_at(i).contains(0u8),
            r ==> final(self).spec_size() == old(self).spec_size() + 1,
            r ==> slots_ms(final(self).spec_buckets()).insert(0u8) == slots_ms(
                old(self).spec_buckets(),
            ).insert(fp),
            r ==> final(self).bucket_at(i).contains(fp),
            r ==> exists|s: int|
                0 <= s < 4 && old(self).bucket_at(i)[s] == 0 && (forall|t: int|
                    0 <= t < s ==> old(self).bucket_at(i)[t] != 0) && final(self).bucket_at(i)
                    == old(self).bucket_at(i).update(s, fp),
            forall|b: int|
                0 <= b < old(self).num_buckets() && b != i as int ==> final(self).spec_buckets()[b]
                    == old(self).spec_buckets()[b],
            !r ==> final(self).spec_buckets() == old(self).spec_buckets() && final(self).spec_size()
                == old(self).spec_size(),
    {
        proof {
            old(self).lemma_index_in_bounds(i);
        }
        assert(i as int == i as usize as int);
        let idx = i as usize;
        let mut bkt = self.buckets[idx];
        if bkt.insert(fp) {
            let ghost prevbs = self.buckets@;
            self.buckets.set(idx, bkt);
            proof {
                lemma_total_occupied_update(prevbs, idx as int, bkt);
                lemma_total_occupied_split(prevbs, idx as int);
                let s = choose|s: int|
                    0 <= s < 4 && prevbs[idx as int]@[s] == 0 && (forall|t: int|
                        0 <= t < s ==> prevbs[idx as int]@[t] != 0) && bkt@ == prevbs[idx as int]@.update(
                        s,
                        fp,
                    );
                assert(occupied_slots(bkt@) == occupied_slots(prevbs[idx as int]@) + 1);
                assert(old(self).bucket_at(i)[s] == 0);
                assert(forall|t: int| 0 <= t < s ==> old(self).bucket_at(i)[t] != 0);
                lemma_slots_ms_update(prevbs, idx as int, bkt);
                lemma_bucket_ms_update(prevbs[idx as int]@, s, fp);
                lemma_ms_exchange(
                    slots_ms(self.buckets@),
                    slots_ms(prevbs),
                    bucket_ms(bkt@),
                    bucket_ms(prevbs[idx as int]@),
                    0u8,
                    fp,
                );
                assert(self.buckets@[i as int]@ == old(self).bucket_at(i).update(s, fp));
            }
            self.size = self.size + 1;
            true
        } else {
            false
        }
    }

    /// Clears one occurrence of `fp` from bucket `i` if present,
    /// uncounting it; reports whether it did.
    fn remove(&mut self, fp: u8, i: u64) -> (r: bool)
        requires
            old(self).wf(),
            fp != 0,
            fits_index(i, old(self).spec_pow()),
        ensures
            final(self).wf(),
            final(self).spec_pow() == old(self).spec_pow(),
            final(self).num_buckets() == old(self).num_buckets(),
            r == old(self).bucket_at(i).contains(fp),
            r ==> final(self).spec_size() == old(self).spec_size() - 1,
            r ==> final(self).bucket_at(i).contains(0u8),
            r ==> exists|s: int|
                0 <= s < 4 && old(self).bucket_at(i)[s] == fp && (forall|t: int|
                    0 <= t < s ==> old(self).bucket_at(i)[t] != fp) && final(self).bucket_at(i)
                    == old(self).bucket_at(i).update(s, 0u8),
            forall|b: int|
                0 <= b < old(self).num_buckets() && b != i as int ==> final(self).spec_buckets()[b]
                    == old(self).spec_buckets()[b],
            !r ==> final(self).spec_buckets() == old(self).spec_buckets() && final(self).spec_size()
                == old(self).spec_size(),
    {
        proof {
            old(self).lemma_index_in_bounds(i);
        }
        assert(i as int == i as usize as int);
        let idx = i as usize;
        let mut bkt = self.buckets[idx];
        if bkt.delete(fp) {
            let ghost prevbs = self.buckets@;
            self.buckets.set(idx, bkt);
            proof {
                lemma_total_occupied_update(prevbs, idx as int, bkt);
                lemma_total_occupied_split(prevbs, idx as int);
                let s = choose|s: int|
                    0 <= s < 4 && prevbs[idx as int]@[s] == fp && (forall|t: int|
                        0 <= t < s ==> prevbs[idx as int]@[t] != fp) && bkt@ == prevbs[idx as int]@.update(
                        s,
                        0u8,
                    );
                assert(occupied_slots(bkt@) == occupied_slots(prevbs[idx as int]@) - 1);
                assert(old(self).bucket_at(i)[s] == fp);
                assert(forall|t: int| 0 <= t < s ==> old(self).bucket_at(i)[t] != fp);
                assert(self.buckets@[i as int]@ == old(self).bucket_at(i).update(s, 0u8));
            }
            self.size = self.size - 1;
            true
        } else {
            false
        }
    }

    /// Whether the key's fingerprint is present in either of its two
    /// candidate buckets. Both buckets are consulted deliberately:
    /// reading only the primary bucket would miss fingerprints that
    /// eviction moved to their alternate bucket, and would make false
    /// negatives possible. True membership of an added, undeleted key
    /// implies a true answer; an absent key answers true only on a
    /// fingerprint collision. On an empty filter the answer is always
    /// false.
    pub fn contains(&self, data: &[u8]) -> (r: bool)
        requires
            self.wf(),
        ensures
            r == self.spec_contains(data@),
            self.spec_size() == 0 ==> r == false,
    {
        let parts = key_parts(data, self.pow);
        proof {
            self.lemma_index_in_bounds(parts.1);
            self.lemma_index_in_bounds(parts.2);
            if self.spec_size() == 0 {
                lemma_total_occupied_zero(self.spec_buckets(), parts.1 as int);
                lemma_total_occupied_zero(self.spec_buckets(), parts.2 as int);
            }
        }
        let b1 = self.buckets[parts.1 as usize];
        let b2 = self.buckets[parts.2 as usize];
        b1.get_fingerprint_index(parts.0).is_some() || b2.get_fingerprint_index(parts.0).is_some()
    }

    /// Inserts the key's fingerprint: first into a free slot of its
    /// primary bucket, then of its alternate bucket, and otherwise by
    /// the eviction loop starting from a randomly chosen one of the
    /// two. On success the count rises by exactly one, the key tests
    /// as contained, the slot multiset gains exactly one copy of the
    /// fingerprint in place of one empty marker, and every fingerprint
    /// that was reachable from one of its own candidate buckets still
    /// is; so no earlier key's `contains` answer is disturbed. Success
    /// is owed when either candidate bucket has room, and also when
    /// both are full but every occupant of both could relocate,
    /// whatever the random draws. When both candidate buckets hold
    /// nothing but this key's own fingerprint, eviction can only
    /// shuttle between them and failure (only `NotEnoughSpace`, with
    /// the occupied-slot count unchanged) is owed.
    pub fn add(&mut self, item: &[u8]) -> (r: CResult<CuckooError>)
        requires
            old(self).wf(),
        ensures
            final(self).wf(),
            final(self).spec_pow() == old(self).spec_pow(),
            final(self).num_buckets() == old(self).num_buckets(),
            old(self).has_room_for(item@) ==> r is Ok,
            r is Ok ==> final(self).spec_size() == old(self).spec_size() + 1,
            r is Ok ==> final(self).spec_contains(item@),
            r is Ok ==> forall|v: u8, a: u64|
                v != 0 && fits_index(a, old(self).spec_pow()) && old(self).pair_present(v, a)
                    ==> #[trigger] final(self).pair_present(v, a),
            r is Err ==> final(self).spec_size() == old(self).spec_size() && (r matches Err(
                CuckooError::NotEnoughSpace,
            )),
            old(self).every_victim_relocatable(primary_index(item@, old(self).spec_pow()))
                && old(self).every_victim_relocatable(
                secondary_index(item@, old(self).spec_pow()),
            ) ==> r is Ok,
            old(self).bucket_all(primary_index(item@, old(self).spec_pow()), fingerprint(item@))
                && old(self).bucket_all(
                secondary_index(item@, old(self).spec_pow()),
                fingerprint(item@),
            ) ==> (r matches Err(CuckooError::NotEnoughSpace)),
            r is Ok ==> slots_ms(final(self).spec_buckets()).insert(0u8) == slots_ms(
                old(self).spec_buckets(),
            ).insert(fingerprint(item@)),
    {
        let ghost pw: usize = old(self).spec_pow();
        let parts = key_parts(item, self.pow);
        let ghost i1 = parts.1;
        let ghost i2 = parts.2;
        proof {
            lemma_alt_index_involution(parts.0, i1, pw);
        }
        if self.insert(parts.0, parts.1) {
            proof {
                let fin = *self;
                let pre = *old(self);
                pre.lemma_index_in_bounds(i1);
                let ghost s0 = choose|s: int|
                    0 <= s < 4 && pre.bucket_at(i1)[s] == 0 && fin.bucket_at(i1)
                        == pre.bucket_at(i1).update(s, parts.0);
                assert forall|v: u8, a: u64|
                    v != 0 && fits_index(a, pw) && pre.pair_present(v, a)
                        implies #[trigger] fin.pair_present(v, a) by {
                    lemma_alt_index_fits(v, a, pw);
                    pre.lemma_index_in_bounds(a);
                    pre.lemma_index_in_bounds(alt_index(v, a, pw));
                    let c: u64 = if pre.bucket_at(a).contains(v) {
                        a
                    } else {
                        alt_index(v, a, pw)
                    };
                    if c as int == i1 as int {
                        lemma_update_keeps_contains(pre.bucket_at(i1), s0, parts.0, v);
                    }
                    assert(fin.bucket_at(c).contains(v));
                }
            }
            return Ok(());
        }
        if self.insert(parts.0, parts.2) {
            proof {
                let fin = *self;
                let pre = *old(self);
                pre.lemma_index_in_bounds(i2);
                let ghost s0 = choose|s: int|
                    0 <= s < 4 && pre.bucket_at(i2)[s] == 0 && fin.bucket_at(i2)
                        == pre.bucket_at(i2).update(s, parts.0);
                assert forall|v: u8, a: u64|
                    v != 0 && fits_index(a, pw) && pre.pair_present(v, a)
                        implies #[trigger] fin.pair_present(v, a) by {
                    lemma_alt_index_fits(v, a, pw);
                    pre.lemma_index_in_bounds(a);
                    pre.lemma_index_in_bounds(alt_index(v, a, pw));
                    let c: u64 = if pre.bucket_at(a).contains(v) {
                        a
                    } else {
                        alt_index(v, a, pw)
                    };
                    if c as int == i2 as int {
                        lemma_update_keeps_contains(pre.bucket_at(i2), s0, parts.0, v);
                    }
                    assert(fin.bucket_at(c).contains(v));
                }
            }
            return Ok(());
        }
        let start = rand_index(parts.1, parts.2);
        let ghost before = *self;
        let res = self.reinsert(parts.0, start);
        proof {
            if res is Ok {
                assert(self.spec_contains(item@)) by {
                    if start == i2 {
                        assert(alt_index(parts.0, i2, pw) == i1);
                    }
                }
                assert(slots_ms(before.spec_buckets()) == slots_ms(old(self).spec_buckets()));
            }
            if old(self).bucket_all(i1, parts.0) && old(self).bucket_all(i2, parts.0) {
                assert(before.bucket_all(i1, parts.0)) by {
                    assert forall|j: int| 0 <= j < 4 implies before.bucket_at(i1)[j] == parts.0 by {
                        assert(before.bucket_at(i1) == old(self).bucket_at(i1));
                    }
                }
                assert(before.bucket_all(i2, parts.0)) by {
                    assert forall|j: int| 0 <= j < 4 implies before.bucket_at(i2)[j] == parts.0 by {
                        assert(before.bucket_at(i2) == old(self).bucket_at(i2));
                    }
                }
                assert(alt_index(parts.0, start, pw) == i1 || alt_index(parts.0, start, pw) == i2);
                assert(res is Err);
            }
        }
        res
    }

    /// Makes room for `fp` by cuckoo kicks, starting at bucket `i`:
    /// swaps `fp` with a randomly chosen occupant of the current
    /// bucket, then tries to move the evicted occupant to its own
    /// alternate bucket, repeating up to the kick bound. On success
    /// one net fingerprint has been stored (the slot multiset trades
    /// one empty marker for `fp`) and `fp` itself sits in bucket `i`
    /// or its alternate; every fingerprint pair that was reachable
    /// before is still reachable. Success is owed when every occupant
    /// of the start bucket can relocate; failure is owed when the
    /// start bucket and its alternate hold nothing but `fp` itself.
    /// On failure the occupied slot count is unchanged.
    fn reinsert(&mut self, fp: u8, i: u64) -> (r: CResult<CuckooError>)
        requires
            old(self).wf(),
            fp != 0,
            fits_index(i, old(self).spec_pow()),
            !old(self).bucket_at(i).contains(0u8),
        ensures
            final(self).wf(),
            final(self).spec_pow() == old(self).spec_pow(),
            final(self).num_buckets() == old(self).num_buckets(),
            r is Ok ==> final(self).spec_size() == old(self).spec_size() + 1,
            r is Ok ==> final(self).bucket_at(i).contains(fp) || final(self).bucket_at(
                alt_index(fp, i, old(self).spec_pow()),
            ).contains(fp),
            r is Ok ==> forall|v: u8, a: u64|
                v != 0 && fits_index(a, old(self).spec_pow()) && old(self).pair_present(v, a)
                    ==> #[trigger] final(self).pair_present(v, a),
            r is Err ==> final(self).spec_size() == old(self).spec_size() && (r matches Err(
                CuckooError::NotEnoughSpace,
            )),
            old(self).every_victim_relocatable(i) ==> r is Ok,
            old(self).bucket_all(i, fp) && old(self).bucket_all(
                alt_index(fp, i, old(self).spec_pow()),
                fp,
            ) ==> r is Err,
            r is Ok ==> slots_ms(final(self).spec_buckets()).insert(0u8) == slots_ms(
                old(self).spec_buckets(),
            ).insert(fp),
    {
        let ghost pw: usize = old(self).spec_pow();
        let ghost fp0: u8 = fp;
        let ghost i0: u64 = i;
        let ghost ia0: u64 = alt_index(fp0, i0, pw);
        let mut cur_fp = fp;
        let mut cur_i = i;
        proof {
            lemma_alt_index_involution(fp0, i0, pw);
        }
        for kick in 0..MAX_CUCKOO_COUNT
            invariant
                kick == 0 ==> self.spec_buckets() == old(self).spec_buckets() && cur_fp == fp0
                    && cur_i == i0,
                old(self).every_victim_relocatable(i0) ==> kick == 0,
                (old(self).bucket_all(i0, fp0) && old(self).bucket_all(ia0, fp0)) ==> (
                self.bucket_at(i0) == old(self).bucket_at(i0) && self.bucket_at(ia0) == old(
                    self,
                ).bucket_at(ia0) && cur_fp == fp0 && (cur_i == i0 || cur_i == ia0)),
                self.wf(),
                self.spec_pow() == pw,
                pw == old(self).spec_pow(),
                self.num_buckets() == old(self).num_buckets(),
                self.spec_size() == old(self).spec_size(),
                cur_fp != 0,
                fp0 == fp,
                i0 == i,
                fp0 != 0,
                fits_index(cur_i, pw),
                fits_index(i0, pw),
                ia0 == alt_index(fp0, i0, pw),
                alt_index(fp0, ia0, pw) == i0,
                !self.bucket_at(cur_i).contains(0u8),
                slots_ms(self.spec_buckets()).insert(cur_fp) == slots_ms(
                    old(self).spec_buckets(),
                ).insert(fp0),
                (cur_fp == fp0 && (cur_i == i0 || cur_i == ia0)) || self.bucket_at(i0).contains(fp0)
                    || self.bucket_at(ia0).contains(fp0),
                forall|v: u8, a: u64|
                    v != 0 && fits_index(a, pw) && old(self).pair_present(v, a)
                        ==> #[trigger] self.pair_present(v, a) || (cur_fp == v && (cur_i == a || cur_i
                        == alt_index(v, a, pw))),
        {
            let ghost head = *self;
            let ghost head_fp = cur_fp;
            let ghost head_i = cur_i;
            let j = rand_slot();
            proof {
                self.lemma_index_in_bounds(cur_i);
            }
            let idx = cur_i as usize;
            assert(cur_i as int == idx as int);
            let mut bkt = self.buckets[idx];
            let victim = bkt.slot(j);
            assert(victim != 0) by {
                if victim == 0 {
                    assert(head.bucket_at(head_i)[j as int] == 0);
                    assert(head.bucket_at(head_i).contains(0u8));
                }
            }
            bkt.set_slot(j, cur_fp);
            let ghost prevbs = self.buckets@;
            self.buckets.set(idx, bkt);
            proof {
                lemma_total_occupied_update(prevbs, idx as int, bkt);
                assert(occupied_slots(bkt@) == occupied_slots(prevbs[idx as int]@));
                lemma_slots_ms_update(prevbs, idx as int, bkt);
                lemma_bucket_ms_update(prevbs[idx as int]@, j as int, head_fp);
                lemma_ms_exchange(
                    slots_ms(self.buckets@),
                    slots_ms(prevbs),
                    bucket_ms(bkt@),
                    bucket_ms(prevbs[idx as int]@),
                    victim,
                    head_fp,
                );
            }
            cur_fp = victim;
            cur_i = get_alt_index(cur_fp, cur_i, self.pow);
            let ghost mid = *self;
            proof {
                // After the swap, the bucket at the head index holds the
                // carried fingerprint at slot j; everything else stands.
                assert(mid.bucket_at(head_i) == head.bucket_at(head_i).update(j as int, head_fp));
                assert(mid.bucket_at(head_i)[j as int] == head_fp);
                assert(mid.bucket_at(head_i).contains(head_fp));
                assert(forall|b: int|
                    0 <= b < head.num_buckets() && b != head_i as int
                        ==> #[trigger] mid.spec_buckets()[b] == head.spec_buckets()[b]);
                lemma_alt_index_involution(cur_fp, head_i, pw);
            }
            if self.insert(cur_fp, cur_i) {
                proof {
                    let fin = *self;
                    lemma_alt_index_fits(fp0, i0, pw);
                    head.lemma_index_in_bounds(i0);
                    head.lemma_index_in_bounds(ia0);
                    if old(self).bucket_all(i0, fp0) && old(self).bucket_all(ia0, fp0) {
                        // Both pair buckets are filled with the carried
                        // fingerprint, so the slot that took the insert
                        // cannot have been empty.
                        assert(head.bucket_at(head_i)[j as int] == fp0);
                        assert(cur_fp == fp0);
                        assert(cur_i == i0 || cur_i == ia0);
                        assert(mid.bucket_at(cur_i) == old(self).bucket_at(cur_i)) by {
                            if cur_i as int == head_i as int {
                                assert(mid.bucket_at(head_i) =~= head.bucket_at(head_i));
                            } else {
                                head.lemma_index_in_bounds(cur_i);
                            }
                        }
                        let t = choose|t: int|
                            0 <= t < mid.bucket_at(cur_i).len() && mid.bucket_at(cur_i)[t] == 0u8;
                        assert(old(self).bucket_at(cur_i)[t] == fp0);
                        assert(false);
                    }
                    let ghost s0 = choose|s: int|
                        0 <= s < 4 && mid.bucket_at(cur_i)[s] == 0 && fin.bucket_at(cur_i)
                            == mid.bucket_at(cur_i).update(s, cur_fp);
                    // The carried fingerprint of this iteration now rests in
                    // its own alternate bucket.
                    assert(fin.bucket_at(cur_i).contains(cur_fp));
                    // A value present in a bucket of the intermediate state
                    // stays present: the insertion only filled an empty slot.
                    assert forall|v: u8, c: u64|
                        v != 0 && (c as int) < mid.num_buckets() && mid.bucket_at(c).contains(v)
                            implies #[trigger] fin.bucket_at(c).contains(v) by {
                        if c as int == cur_i as int {
                            lemma_update_keeps_contains(mid.bucket_at(cur_i), s0, cur_fp, v);
                        }
                    }
                    assert(fin.bucket_at(i0).contains(fp0) || fin.bucket_at(ia0).contains(fp0)) by {
                        if head_fp == fp0 && (head_i == i0 || head_i == ia0) {
                            assert(mid.bucket_at(head_i).contains(fp0));
                        } else if head.bucket_at(i0).contains(fp0) {
                            if head_i == i0 && head.bucket_at(i0)[j as int] == fp0 && cur_fp == fp0 {
                                assert(fin.bucket_at(cur_i).contains(fp0));
                                assert(cur_i == alt_index(fp0, i0, pw));
                            } else {
                                if head_i == i0 {
                                    lemma_update_keeps_contains(
                                        head.bucket_at(i0),
                                        j as int,
                                        head_fp,
                                        fp0,
                                    );
                                }
                                assert(mid.bucket_at(i0).contains(fp0));
                            }
                        } else {
                            if head_i == ia0 && head.bucket_at(ia0)[j as int] == fp0 && cur_fp == fp0 {
                                assert(fin.bucket_at(cur_i).contains(fp0));
                                assert(cur_i == alt_index(fp0, ia0, pw));
                            } else {
                                if head_i == ia0 {
                                    lemma_update_keeps_contains(
                                        head.bucket_at(ia0),
                                        j as int,
                                        head_fp,
                                        fp0,
                                    );
                                }
                                assert(mid.bucket_at(ia0).contains(fp0));
                            }
                        }
                    }
                    assert forall|v: u8, a: u64|
                        v != 0 && fits_index(a, pw) && old(self).pair_present(v, a)
                            implies #[trigger] fin.pair_present(v, a) by {
                        lemma_alt_index_involution(v, a, pw);
                        lemma_alt_index_fits(v, a, pw);
                        head.lemma_index_in_bounds(a);
                        head.lemma_index_in_bounds(alt_index(v, a, pw));
                        if head.pair_present(v, a) || (head_fp == v && (head_i == a || head_i
                            == alt_index(v, a, pw))) {
                            if head_fp == v && (head_i == a || head_i == alt_index(v, a, pw)) {
                                assert(mid.pair_present(v, a));
                            } else {
                                let c: u64 = if head.bucket_at(a).contains(v) {
                                    a
                                } else {
                                    alt_index(v, a, pw)
                                };
                                if c != head_i {
                                    assert(mid.bucket_at(c).contains(v));
                                } else if head.bucket_at(c)[j as int] == v && cur_fp == v {
                                    assert(fin.bucket_at(cur_i).contains(v));
                                    assert(cur_i == a || cur_i == alt_index(v, a, pw));
                                } else {
                                    lemma_update_keeps_contains(
                                        head.bucket_at(c),
                                        j as int,
                                        head_fp,
                                        v,
                                    );
                                    assert(mid.bucket_at(c).contains(v));
                                }
                            }
                        }
                    }
                    assert(fin.bucket_at(i0).contains(fp0) || fin.bucket_at(ia0).contains(fp0));
                }
                return Ok(());
            }
            proof {
                // The insertion failed and changed nothing, so the swapped
                // state carries over to the next iteration.
                assert(self.spec_buckets() == mid.spec_buckets());
                lemma_alt_index_fits(fp0, i0, pw);
                head.lemma_index_in_bounds(i0);
                head.lemma_index_in_bounds(ia0);
                if old(self).every_victim_relocatable(i0) {
                    // When every victim of the start bucket can relocate,
                    // the very first kick finds a free slot: the failed
                    // insert is impossible.
                    assert(head_i == i0 && head_fp == fp0);
                    assert(head.spec_buckets() == old(self).spec_buckets());
                    let v = old(self).bucket_at(i0)[j as int];
                    assert(old(self).bucket_at(alt_index(v, i0, pw)).contains(0u8));
                    assert(cur_fp == v);
                    assert(cur_i == alt_index(v, i0, pw));
                    if cur_i as int == head_i as int {
                        assert(old(self).bucket_at(i0).contains(0u8));
                        assert(false);
                    } else {
                        head.lemma_index_in_bounds(cur_i);
                        assert(mid.bucket_at(cur_i) == head.bucket_at(cur_i));
                        assert(false);
                    }
                }
                if old(self).bucket_all(i0, fp0) && old(self).bucket_all(ia0, fp0) {
                    // Shuttling between two buckets full of the same
                    // fingerprint: the swap rewrote a slot with the value
                    // it already held, so the pair stands as at entry.
                    assert(head.bucket_at(head_i)[j as int] == fp0);
                    assert(cur_fp == fp0);
                    assert(cur_i == i0 || cur_i == ia0);
                    assert(mid.bucket_at(head_i) =~= head.bucket_at(head_i));
                    assert(mid.bucket_at(i0) == old(self).bucket_at(i0)) by {
                        if i0 as int != head_i as int {
                            assert(mid.spec_buckets()[i0 as int] == head.spec_buckets()[i0 as int]);
                        }
                    }
                    assert(mid.bucket_at(ia0) == old(self).bucket_at(ia0)) by {
                        if ia0 as int != head_i as int {
                            assert(mid.spec_buckets()[ia0 as int] == head.spec_buckets()[ia0 as int]);
                        }
                    }
                }
                assert(self.bucket_at(i0).contains(fp0) || self.bucket_at(ia0).contains(fp0) || (cur_fp
                    == fp0 && (cur_i == i0 || cur_i == ia0))) by {
                    if head_fp == fp0 && (head_i == i0 || head_i == ia0) {
                        assert(mid.bucket_at(head_i).contains(fp0));
                    } else if head.bucket_at(i0).contains(fp0) {
                        if head_i == i0 && head.bucket_at(i0)[j as int] == fp0 && cur_fp == fp0 {
                            assert(cur_i == alt_index(fp0, i0, pw));
                        } else {
                            if head_i == i0 {
                                lemma_update_keeps_contains(
                                    head.bucket_at(i0),
                                    j as int,
                                    head_fp,
                                    fp0,
                                );
                            }
                            assert(mid.bucket_at(i0).contains(fp0));
                        }
                    } else {
                        if head_i == ia0 && head.bucket_at(ia0)[j as int] == fp0 && cur_fp == fp0 {
                            assert(cur_i == alt_index(fp0, ia0, pw));
                        } else {
                            if head_i == ia0 {
                                lemma_update_keeps_contains(
                                    head.bucket_at(ia0),
                                    j as int,
                                    head_fp,
                                    fp0,
                                );
                            }
                            assert(mid.bucket_at(ia0).contains(fp0));
                        }
                    }
                }
                assert forall|v: u8, a: u64|
                    v != 0 && fits_index(a, pw) && old(self).pair_present(v, a)
                        implies #[trigger] self.pair_present(v, a) || (cur_fp == v && (cur_i == a || cur_i
                        == alt_index(v, a, pw))) by {
                    lemma_alt_index_involution(v, a, pw);
                    lemma_alt_index_fits(v, a, pw);
                    head.lemma_index_in_bounds(a);
                    head.lemma_index_in_bounds(alt_index(v, a, pw));
                    if head.pair_present(v, a) || (head_fp == v && (head_i == a || head_i
                        == alt_index(v, a, pw))) {
                        if head_fp == v && (head_i == a || head_i == alt_index(v, a, pw)) {
                            assert(mid.pair_present(v, a));
                        } else {
                            let c: u64 = if head.bucket_at(a).contains(v) {
                                a
                            } else {
                                alt_index(v, a, pw)
                            };
                            if c != head_i {
                                assert(mid.bucket_at(c).contains(v));
                            } else if head.bucket_at(c)[j as int] == v && cur_fp == v {
                                assert(cur_i == a || cur_i == alt_index(v, a, pw));
                            } else {
                                lemma_update_keeps_contains(
                                    head.bucket_at(c),
                                    j as int,
                                    head_fp,
                                    v,
                                );
                                assert(mid.bucket_at(c).contains(v));
                            }
                        }
                    }
                }
            }
        }
        Err(CuckooError::NotEnoughSpace)
    }

    /// Removes one occurrence of the key's fingerprint from its
    /// primary bucket, or failing that from its alternate bucket.
    /// Succeeds exactly when the fingerprint was present; on success
    /// the count drops by one and the cleared slot leaves room for the
    /// key. Deleting an absent key changes nothing.
    pub fn delete(&mut self, data: &[u8]) -> (r: bool)
        requires
            old(self).wf(),
        ensures
            final(self).wf(),
            final(self).spec_pow() == old(self).spec_pow(),
            final(self).num_buckets() == old(self).num_buckets(),
            r == old(self).spec_contains(data@),
            r ==> final(self).spec_size() == old(self).spec_size() - 1,
            r ==> final(self).has_room_for(data@),
            r ==> removed_one(
                *old(self),
                *final(self),
                if old(self).bucket_at(primary_index(data@, old(self).spec_pow())).contains(
                    fingerprint(data@),
                ) {
                    primary_index(data@, old(self).spec_pow())
                } else {
                    secondary_index(data@, old(self).spec_pow())
                },
                fingerprint(data@),
            ),
            !r ==> final(self).spec_buckets() == old(self).spec_buckets() && final(self).spec_size()
                == old(self).spec_size(),
    {
        let parts = key_parts(data, self.pow);
        if self.remove(parts.0, parts.1) {
            proof {
                let s = choose|s: int|
                    0 <= s < 4 && old(self).bucket_at(parts.1)[s] == parts.0 && (forall|t: int|
                        0 <= t < s ==> old(self).bucket_at(parts.1)[t] != parts.0)
                        && self.bucket_at(parts.1) == old(self).bucket_at(parts.1).update(s, 0u8);
                assert(old(self).bucket_at(parts.1)[s] == fingerprint(data@));
                assert(self.bucket_at(parts.1) == old(self).bucket_at(parts.1).update(s, 0u8));
                assert(removed_one(*old(self), *self, parts.1, parts.0));
            }
            return true;
        }
        let found = self.remove(parts.0, parts.2);
        proof {
            if found {
                let s = choose|s: int|
                    0 <= s < 4 && old(self).bucket_at(parts.2)[s] == parts.0 && (forall|t: int|
                        0 <= t < s ==> old(self).bucket_at(parts.2)[t] != parts.0)
                        && self.bucket_at(parts.2) == old(self).bucket_at(parts.2).update(s, 0u8);
                assert(old(self).bucket_at(parts.2)[s] == fingerprint(data@));
                assert(self.bucket_at(parts.2) == old(self).bucket_at(parts.2).update(s, 0u8));
                assert(removed_one(*old(self), *self, parts.2, parts.0));
            }
        }
        found
    }
}

impl Default for CuckooFilter {
    /// A filter sized for about sixteen million keys (the bucket
    /// count that `gen_size` chooses for `1 << 24`), for
    /// zero-configuration use.
    fn default() -> (r: Self)
        ensures
            r.wf(),
            r.spec_size() == 0,
            r.all_empty(),
            r.num_buckets() == spec_gen_size(1u64 << 24),
            r.spec_pow() as int == spec_trailing_zeros(spec_gen_size(1u64 << 24)),
    {
        proof {
            assert(1u64 << 24 == 0x1000000) by (bit_vector);
            lemma_upper_power2_props(0x400000);
            assert(usize::MAX >= 0xffffffff);
            assert(spec_gen_size(0x1000000) < 0x1000000);
        }
        CuckooFilter::new(1u64 << 24)
    }
}

/// A filter whose counter reads zero holds no fingerprint at all, so
/// `contains` answers false for every key: an empty filter has no
/// false positives.
pub proof fn lemma_empty_filter_contains_nothing(f: CuckooFilter, k: Seq<u8>)
    requires
        f.wf(),
        f.spec_size() == 0,
    ensures
        !f.spec_contains(k),
{
    let pw = f.spec_pow();
    let j1 = primary_index(k, pw);
    let j2 = secondary_index(k, pw);
    lemma_mask_bounds(crate::hashing::hash64(k), pw);
    lemma_alt_index_fits(fingerprint(k), j1, pw);
    f.lemma_index_in_bounds(j1);
    f.lemma_index_in_bounds(j2);
    lemma_total_occupied_zero(f.spec_buckets(), j1 as int);
    lemma_total_occupied_zero(f.spec_buckets(), j2 as int);
    if f.bucket_at(j1).contains(fingerprint(k)) {
        let t = choose|t: int| 0 <= t < f.bucket_at(j1).len() && f.bucket_at(j1)[t] == fingerprint(
            k,
        );
        assert(occupied_slots(f.bucket_at(j1)) > 0);
    }
    if f.bucket_at(j2).contains(fingerprint(k)) {
        let t = choose|t: int| 0 <= t < f.bucket_at(j2).len() && f.bucket_at(j2)[t] == fingerprint(
            k,
        );
        assert(occupied_slots(f.bucket_at(j2)) > 0);
    }
}

} // verus!
