//! XOR distance between 128-bit keys: leading zeros and the key ranges of buckets.
use vstd::prelude::*;
use vstd::std_specs::bits::{axiom_u64_leading_zeros, u64_leading_zeros};
use core::ops::RangeInclusive;

verus! {

/// The number of leading zero bits of a 128-bit number (`u128::leading_zeros`).
pub open spec fn lz128(x: u128) -> int {
    if (x >> 64u128) != 0 {
        u64_leading_zeros((x >> 64u128) as u64)
    } else {
        64 + u64_leading_zeros(x as u64)
    }
}

/// A 128-bit number has between 0 and 128 leading zero bits.
pub proof fn lemma_lz128_bound(x: u128)
    ensures
        0 <= lz128(x) <= 128,
{
    axiom_u64_leading_zeros((x >> 64u128) as u64);
    axiom_u64_leading_zeros(x as u64);
}

/// The number of leading zero bits of `x`.
pub fn leading_zeros_u128(x: u128) -> (r: u32)
    ensures
        r == lz128(x),
        r <= 128,
{
    let hi = (x >> 64u128) as u64;
    let lo = x as u64;
    proof {
        axiom_u64_leading_zeros(hi);
        axiom_u64_leading_zeros(lo);
        lemma_high_half(x);
    }
    if hi != 0 {
        hi.leading_zeros()
    } else {
        64 + lo.leading_zeros()
    }
}

/// The shift that separates the keys of range `i` from ours: `127 - i`.
pub open spec fn range_shift(i: int) -> u128 {
    (127 - i) as u128
}

/// The first key of range `i`: the keys that agree with `key` on the bits above
/// position `127 - i` and differ at that bit.
pub open spec fn range_start(key: u128, i: int) -> u128 {
    ((key >> range_shift(i)) ^ 1u128) << range_shift(i)
}

/// The last key of range `i`.
pub open spec fn range_end(key: u128, i: int) -> u128 {
    range_start(key, i) | (((1u128 << range_shift(i)) - 1) as u128)
}

/// The key ranges of the buckets of a table whose own key is `key`: range `i`
/// (for `i < 128`) holds the keys whose distance from `key` has `i` leading zero
/// bits. Each range is inclusive and not exhausted.
pub fn key_ranges(key: u128) -> (r: Vec<RangeInclusive<u128>>)
    ensures
        r@.len() == 128,
        forall|i: int|
            0 <= i < 128 ==> {
                &&& (#[trigger] r@[i])@.start == range_start(key, i)
                &&& r@[i]@.end == range_end(key, i)
                &&& !r@[i]@.exhausted
            },
{
    let mut r: Vec<RangeInclusive<u128>> = Vec::new();
    let mut i: u32 = 0;
    while i < 128
        invariant
            i <= 128,
            r@.len() == i,
            forall|k: int|
                0 <= k < i ==> {
                    &&& (#[trigger] r@[k])@.start == range_start(key, k)
                    &&& r@[k]@.end == range_end(key, k)
                    &&& !r@[k]@.exhausted
                },
        decreases 128 - i,
    {
        let s: u128 = (127 - i) as u128;
        let start: u128 = ((key >> s) ^ 1) << s;
        assert(s < 128 ==> (1u128 << s) >= 1) by (bit_vector);
        let end: u128 = start | ((1u128 << s) - 1);
        r.push(RangeInclusive::new(start, end));
        i = i + 1;
    }
    r
}

/// The high half of a 128-bit number fits in 64 bits.
proof fn lemma_high_half(x: u128)
    ensures
        ((x >> 64u128) != 0) == (((x >> 64u128) as u64) != 0),
{
    assert(((x >> 64u128) != 0) == (((x >> 64u128) as u64) != 0)) by (bit_vector);
}

proof fn bv_in_block(x: u128, p: u128, s: u128)
    by (bit_vector)
    requires
        s < 128,
        (x >> s) == p,
    ensures
        (p << s) <= x,
        x <= ((p << s) | (((1u128 << s) - 1) as u128)),
{
}

proof fn bv_below_block(x: u128, p: u128, s: u128)
    by (bit_vector)
    requires
        s < 128,
        (x >> s) < p,
        ((p << s) >> s) == p,
    ensures
        x < (p << s),
{
}

proof fn bv_above_block(x: u128, p: u128, s: u128)
    by (bit_vector)
    requires
        s < 128,
        (x >> s) > p,
        ((p << s) >> s) == p,
    ensures
        x > ((p << s) | (((1u128 << s) - 1) as u128)),
{
}

proof fn bv_sibling_fits(key: u128, s: u128)
    by (bit_vector)
    requires
        s < 128,
    ensures
        ((((key >> s) ^ 1u128) << s) >> s) == ((key >> s) ^ 1u128),
{
}

#[verifier::rlimit(100)]
proof fn bv_shift_xor(x: u128, key: u128, s: u128)
    by (bit_vector)
    requires
        s < 128,
    ensures
        ((x ^ key) >> s) == ((x >> s) ^ (key >> s)),
{
}

proof fn bv_xor_one(a: u128, b: u128)
    by (bit_vector)
    ensures
        ((a ^ b) == 1) == (a == (b ^ 1u128)),
{
}

proof fn bv_xor_shift(x: u128, key: u128, s: u128)
    requires
        s < 128,
    ensures
        (((x ^ key) >> s) == 1) == ((x >> s) == ((key >> s) ^ 1u128)),
{
    bv_shift_xor(x, key, s);
    bv_xor_one(x >> s, key >> s);
}

/// Keys in range `i` share exactly the bits of `key` above position `127 - i`, and
/// differ at that bit.
proof fn lemma_range_bits(key: u128, x: u128, s: u128)
    requires
        s < 128,
    ensures
        ((((key >> s) ^ 1u128) << s) <= x && x <= ((((key >> s) ^ 1u128) << s) | (((1u128 << s)
            - 1) as u128))) <==> ((x ^ key) >> s) == 1,
{
    let p = (key >> s) ^ 1u128;
    bv_sibling_fits(key, s);
    bv_xor_shift(x, key, s);
    if (x >> s) == p {
        bv_in_block(x, p, s);
    } else if (x >> s) < p {
        bv_below_block(x, p, s);
    } else {
        bv_above_block(x, p, s);
    }
}

/// A number whose bits above position `s` read as `1` reads as `0` above any higher
/// position.
proof fn lemma_shift_one_unique(y: u128, s: u128, t: u128)
    requires
        s < t < 128,
        (y >> s) == 1,
    ensures
        (y >> t) == 0,
{
    assert(s < t < 128 && (y >> s) == 1 ==> (y >> t) == 0) by (bit_vector);
}

/// The highest set bit of a nonzero number is at position `127 - lz128(y)`.
proof fn lemma_lz128_top_bit(y: u128)
    requires
        y != 0,
    ensures
        0 <= lz128(y) <= 127,
        (y >> ((127 - lz128(y)) as u128)) == 1,
{
    let hi = (y >> 64u128) as u64;
    let lo = y as u64;
    lemma_high_half(y);
    axiom_u64_leading_zeros(hi);
    axiom_u64_leading_zeros(lo);
    if hi != 0 {
        let l = u64_leading_zeros(hi);
        let t: u64 = (63 - l) as u64;
        let t1: u64 = (64 - l) as u64;
        assert((hi >> t) & 1u64 != 0u64);
        assert(hi >> t1 == 0);
        assert((y >> ((64 + t) as u128)) == 1) by (bit_vector)
            requires
                t < 64,
                t1 == t + 1,
                hi == (y >> 64u128) as u64,
                (hi >> t) & 1u64 != 0u64,
                hi >> t1 == 0,
        ;
        assert((127 - lz128(y)) as u128 == (64 + t) as u128);
    } else {
        assert((y as u64) != 0) by (bit_vector)
            requires
                (y >> 64u128) as u64 == 0,
                y != 0,
        ;
        let l = u64_leading_zeros(lo);
        let t: u64 = (63 - l) as u64;
        let t1: u64 = (64 - l) as u64;
        assert((lo >> t) & 1u64 != 0u64);
        assert(lo >> t1 == 0);
        assert((y >> (t as u128)) == 1) by (bit_vector)
            requires
                t < 64,
                t1 == t + 1,
                (y >> 64u128) as u64 == 0,
                lo == y as u64,
                (lo >> t) & 1u64 != 0u64,
                lo >> t1 == 0,
        ;
        assert((127 - lz128(y)) as u128 == t as u128);
    }
}

/// A number reads as `1` above position `s` exactly when it is nonzero with
/// `127 - s` leading zero bits.
pub proof fn lemma_lz128_shift(y: u128, s: u128)
    requires
        s < 128,
    ensures
        ((y >> s) == 1) <==> (y != 0 && lz128(y) == 127 - s),
{
    if (y >> s) == 1 {
        assert((y >> s) == 1 ==> y != 0) by (bit_vector);
        lemma_lz128_top_bit(y);
        let t = (127 - lz128(y)) as u128;
        if s < t {
            lemma_shift_one_unique(y, s, t);
        } else if t < s {
            lemma_shift_one_unique(y, t, s);
        }
    }
    if y != 0 && lz128(y) == 127 - s {
        lemma_lz128_top_bit(y);
    }
}

/// Range `i` holds exactly the keys other than `key` whose distance from `key`
/// has `i` leading zero bits: the depth at which a table with key `key` files
/// an entry with that key.
pub proof fn lemma_range_partition(key: u128, i: int, x: u128)
    requires
        0 <= i < 128,
    ensures
        (range_start(key, i) <= x && x <= range_end(key, i)) <==> (x != key && lz128(key ^ x) == i),
{
    let s = range_shift(i);
    lemma_range_bits(key, x, s);
    lemma_lz128_shift(x ^ key, s);
    assert((x ^ key) == (key ^ x)) by (bit_vector);
    assert(((x ^ key) != 0) == (x != key)) by (bit_vector);
}

/// The ranges of distinct indices are disjoint, and every key but `key` lies in one.
pub proof fn lemma_ranges_cover(key: u128, x: u128)
    requires
        x != key,
    ensures
        0 <= lz128(key ^ x) < 128,
        range_start(key, lz128(key ^ x)) <= x && x <= range_end(key, lz128(key ^ x)),
{
    assert((key ^ x) != 0) by (bit_vector)
        requires
            x != key,
    ;
    lemma_lz128_top_bit(key ^ x);
    lemma_range_partition(key, lz128(key ^ x), x);
}

/// The midpoint of two keys, rounded down, computed without overflow.
pub fn midpoint(a: u128, b: u128) -> (r: u128)
    ensures
        r == (a + b) / 2,
{
    assert(((a >> 1u128) + (b >> 1u128) + (a & b & 1u128)) == (a + b) / 2) by (bit_vector);
    (a >> 1).wrapping_add(b >> 1).wrapping_add(a & b & 1)
}

} // verus!
