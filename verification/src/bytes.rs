//! Fixed-width integers and their byte encodings.
use vstd::prelude::*;

verus! {

/// The number that a byte string denotes when read most significant byte first.
pub open spec fn be_value(s: Seq<u8>) -> nat
    decreases s.len(),
{
    if s.len() == 0 {
        0
    } else {
        (be_value(s.drop_last()) * 256 + s.last()) as nat
    }
}

/// `256` raised to the power `n`.
pub open spec fn pow256(n: nat) -> nat
    decreases n,
{
    if n == 0 {
        1
    } else {
        256 * pow256((n - 1) as nat)
    }
}

/// A byte string of length `n` denotes a number below `256^n`.
pub proof fn lemma_be_value_bound(s: Seq<u8>)
    ensures
        be_value(s) < pow256(s.len()),
    decreases s.len(),
{
    if s.len() > 0 {
        lemma_be_value_bound(s.drop_last());
    }
}

/// Two byte strings of one length that denote the same number are equal.
pub proof fn lemma_be_value_injective(s: Seq<u8>, t: Seq<u8>)
    requires
        s.len() == t.len(),
        be_value(s) == be_value(t),
    ensures
        s == t,
    decreases s.len(),
{
    if s.len() > 0 {
        let a = s.last();
        let b = t.last();
        assert(be_value(s.drop_last()) * 256 + a == be_value(t.drop_last()) * 256 + b);
        assert(a == b && be_value(s.drop_last()) == be_value(t.drop_last())) by (nonlinear_arith)
            requires
                be_value(s.drop_last()) * 256 + a == be_value(t.drop_last()) * 256 + b,
                0 <= a < 256,
                0 <= b < 256,
                be_value(s.drop_last()) >= 0,
                be_value(t.drop_last()) >= 0,
        ;
        lemma_be_value_injective(s.drop_last(), t.drop_last());
        assert(s =~= s.drop_last().push(a));
        assert(t =~= t.drop_last().push(b));
    } else {
        assert(s =~= t);
    }
}

/// Reading a byte string one byte further appends that byte in the lowest place.
pub proof fn lemma_be_value_take_step(s: Seq<u8>, i: int)
    requires
        0 <= i < s.len(),
    ensures
        be_value(s.take(i + 1)) == be_value(s.take(i)) * 256 + s[i],
{
    assert(s.take(i + 1).drop_last() =~= s.take(i));
}

/// `256^16` is `2^128`.
pub proof fn lemma_pow256_16()
    ensures
        pow256(16) == 0x1_0000_0000_0000_0000_0000_0000_0000_0000,
{
    reveal_with_fuel(pow256, 17);
}

/// The number that the first 16 bytes of `bytes` denote, most significant byte first:
/// what `u128::from_be_bytes` gives for them.
pub fn u128_from_be_prefix(bytes: &[u8]) -> (r: u128)
    requires
        bytes@.len() >= 16,
    ensures
        r == be_value(bytes@.take(16)),
{
    let mut acc: u128 = 0;
    let mut i: usize = 0;
    proof {
        lemma_pow256_16();
    }
    while i < 16
        invariant
            i <= 16,
            bytes@.len() >= 16,
            acc == be_value(bytes@.take(i as int)),
            pow256(16) == 0x1_0000_0000_0000_0000_0000_0000_0000_0000,
        decreases 16 - i,
    {
        proof {
            lemma_be_value_take_step(bytes@, i as int);
            lemma_be_value_bound(bytes@.take(i as int + 1));
            lemma_pow256_mono((i + 1) as nat, 16);
        }
        acc = acc * 256 + bytes[i] as u128;
        i = i + 1;
    }
    acc
}

/// `256^m <= 256^n` for `m <= n`.
pub proof fn lemma_pow256_mono(m: nat, n: nat)
    requires
        m <= n,
    ensures
        pow256(m) <= pow256(n),
    decreases n,
{
    if m < n {
        lemma_pow256_mono(m, (n - 1) as nat);
    }
}

/// The eight bytes of `x`, least significant first: what `u64::to_le_bytes` gives.
pub open spec fn u64_le_bytes(x: u64) -> Seq<u8> {
    seq![
        x as u8,
        (x >> 8) as u8,
        (x >> 16) as u8,
        (x >> 24) as u8,
        (x >> 32) as u8,
        (x >> 40) as u8,
        (x >> 48) as u8,
        (x >> 56) as u8,
    ]
}

/// The eight bytes of `x`, most significant first: what `u64::to_be_bytes` gives.
pub open spec fn u64_be_bytes(x: u64) -> Seq<u8> {
    seq![
        (x >> 56) as u8,
        (x >> 48) as u8,
        (x >> 40) as u8,
        (x >> 32) as u8,
        (x >> 24) as u8,
        (x >> 16) as u8,
        (x >> 8) as u8,
        x as u8,
    ]
}

/// The sixteen bytes of `x`, least significant first: what `u128::to_le_bytes` gives.
pub open spec fn u128_le_bytes(x: u128) -> Seq<u8> {
    seq![
        x as u8,
        (x >> 8) as u8,
        (x >> 16) as u8,
        (x >> 24) as u8,
        (x >> 32) as u8,
        (x >> 40) as u8,
        (x >> 48) as u8,
        (x >> 56) as u8,
        (x >> 64) as u8,
        (x >> 72) as u8,
        (x >> 80) as u8,
        (x >> 88) as u8,
        (x >> 96) as u8,
        (x >> 104) as u8,
        (x >> 112) as u8,
        (x >> 120) as u8,
    ]
}

/// The two bytes of `x`, least significant first: what `u16::to_le_bytes` gives.
pub open spec fn u16_le_bytes(x: u16) -> Seq<u8> {
    seq![x as u8, (x >> 8) as u8]
}

/// `x.to_le_bytes()` for a `u64`.
pub fn u64_to_le(x: u64) -> (r: [u8; 8])
    ensures
        r@ == u64_le_bytes(x),
{
    let r = [
        x as u8,
        (x >> 8) as u8,
        (x >> 16) as u8,
        (x >> 24) as u8,
        (x >> 32) as u8,
        (x >> 40) as u8,
        (x >> 48) as u8,
        (x >> 56) as u8,
    ];
    assert(r@ =~= u64_le_bytes(x));
    r
}

/// `x.to_be_bytes()` for a `u64`.
pub fn u64_to_be(x: u64) -> (r: [u8; 8])
    ensures
        r@ == u64_be_bytes(x),
{
    let r = [
        (x >> 56) as u8,
        (x >> 48) as u8,
        (x >> 40) as u8,
        (x >> 32) as u8,
        (x >> 24) as u8,
        (x >> 16) as u8,
        (x >> 8) as u8,
        x as u8,
    ];
    assert(r@ =~= u64_be_bytes(x));
    r
}

/// `x.to_le_bytes()` for a `u128`.
pub fn u128_to_le(x: u128) -> (r: [u8; 16])
    ensures
        r@ == u128_le_bytes(x),
{
    let r = [
        x as u8,
        (x >> 8) as u8,
        (x >> 16) as u8,
        (x >> 24) as u8,
        (x >> 32) as u8,
        (x >> 40) as u8,
        (x >> 48) as u8,
        (x >> 56) as u8,
        (x >> 64) as u8,
        (x >> 72) as u8,
        (x >> 80) as u8,
        (x >> 88) as u8,
        (x >> 96) as u8,
        (x >> 104) as u8,
        (x >> 112) as u8,
        (x >> 120) as u8,
    ];
    assert(r@ =~= u128_le_bytes(x));
    r
}

/// `u16::from_le_bytes([lo, hi])`.
pub fn u16_from_le(lo: u8, hi: u8) -> (r: u16)
    ensures
        r == lo + 256 * hi,
{
    lo as u16 + (hi as u16) * 256
}

/// The two bytes of `x`, least significant first: `x.to_le_bytes()` for a `u16`.
pub fn u16_to_le(x: u16) -> (r: [u8; 2])
    ensures
        r@ == u16_le_bytes(x),
        r[0] + 256 * r[1] == x,
{
    let r = [x as u8, (x >> 8) as u8];
    assert(r@ =~= u16_le_bytes(x));
    assert((x as u8) + 256 * ((x >> 8) as u8) == x) by (bit_vector);
    r
}

/// Appends the bytes of `s` to `v`.
pub fn append_bytes(v: &mut Vec<u8>, s: &[u8])
    ensures
        final(v)@ == old(v)@ + s@,
{
    let mut i: usize = 0;
    while i < s.len()
        invariant
            i <= s@.len(),
            v@ == old(v)@ + s@.take(i as int),
        decreases s@.len() - i,
    {
        v.push(s[i]);
        i = i + 1;
        assert(v@ =~= old(v)@ + s@.take(i as int));
    }
    assert(s@.take(i as int) =~= s@);
}

} // verus!
