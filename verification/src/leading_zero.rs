//! Proof-of-work tokens: the first token, in counting order, that makes a hash
//! of the message and the token start with enough zero bits.
use vstd::prelude::*;
use vstd::std_specs::bits::u64_leading_zeros;

use crate::bytes::{append_bytes, be_value, lemma_be_value_bound, lemma_be_value_injective, pow256};

verus! {

/// Every byte of `s` is 255.
pub open spec fn all_ff(s: Seq<u8>) -> bool {
    forall|i: int| 0 <= i < s.len() ==> s[i] == 255
}

/// A token without leading zero bytes: the shortest big-endian writing of its number.
pub open spec fn canonical(t: Seq<u8>) -> bool {
    t.len() == 0 || t[0] != 0
}

/// Reading `a` followed by `b` is reading `a`, shifted by the length of `b`, plus `b`.
pub proof fn lemma_be_value_concat(a: Seq<u8>, b: Seq<u8>)
    ensures
        be_value(a + b) == be_value(a) * pow256(b.len()) + be_value(b),
    decreases b.len(),
{
    if b.len() == 0 {
        assert(a + b =~= a);
        assert(pow256(0) == 1);
        assert(be_value(b) == 0);
    } else {
        let b2 = b.drop_last();
        lemma_be_value_concat(a, b2);
        assert((a + b).drop_last() =~= a + b2);
        assert((a + b).last() == b.last());
        assert(be_value(a + b) == be_value(a + b2) * 256 + b.last());
        assert(be_value(b) == be_value(b2) * 256 + b.last());
        assert(pow256(b.len()) == 256 * pow256(b2.len()));
        let x = be_value(a);
        let p = pow256(b2.len());
        let y = be_value(b2);
        let l = b.last() as int;
        assert((x * p + y) * 256 + l == x * (256 * p) + (y * 256 + l)) by (nonlinear_arith);
        assert(be_value(a + b) == (x * p + y) * 256 + l);
    }
}

/// Zero bytes read as 0 and 255-bytes as the largest number of their length.
proof fn lemma_be_value_fill(r: nat)
    ensures
        be_value(Seq::new(r, |k: int| 0u8)) == 0,
        be_value(Seq::new(r, |k: int| 255u8)) == pow256(r) - 1,
    decreases r,
{
    if r > 0 {
        lemma_be_value_fill((r - 1) as nat);
        assert(Seq::new(r, |k: int| 0u8).drop_last() =~= Seq::new((r - 1) as nat, |k: int| 0u8));
        assert(Seq::new(r, |k: int| 255u8).drop_last() =~= Seq::new((r - 1) as nat, |k: int| 255u8));
    }
}

/// A nonempty canonical token of length `n` reads as a number in `[256^(n-1), 256^n)`.
proof fn lemma_canonical_range(t: Seq<u8>)
    requires
        canonical(t),
        t.len() > 0,
    ensures
        pow256((t.len() - 1) as nat) <= be_value(t) < pow256(t.len()),
{
    let rest = t.drop_first();
    lemma_be_value_concat(seq![t[0]], rest);
    assert(seq![t[0]] + rest =~= t);
    reveal_with_fuel(be_value, 2);
    assert(seq![t[0]].drop_last() =~= Seq::<u8>::empty());
    lemma_be_value_bound(t);
    let p = pow256(rest.len());
    assert(t[0] * p >= p) by (nonlinear_arith)
        requires
            t[0] >= 1,
            p >= 0,
    ;
}

/// Two canonical tokens with the same number are equal.
pub proof fn lemma_canonical_injective(t: Seq<u8>, u: Seq<u8>)
    requires
        canonical(t),
        canonical(u),
        be_value(t) == be_value(u),
    ensures
        t == u,
{
    if t.len() != u.len() {
        if t.len() == 0 {
            lemma_canonical_range(u);
            crate::bytes::lemma_pow256_mono(0, (u.len() - 1) as nat);
        } else if u.len() == 0 {
            lemma_canonical_range(t);
            crate::bytes::lemma_pow256_mono(0, (t.len() - 1) as nat);
        } else {
            lemma_canonical_range(t);
            lemma_canonical_range(u);
            if t.len() < u.len() {
                crate::bytes::lemma_pow256_mono(t.len(), (u.len() - 1) as nat);
            } else {
                crate::bytes::lemma_pow256_mono(u.len(), (t.len() - 1) as nat);
            }
        }
    }
    lemma_be_value_injective(t, u);
}

/// Adds one to a big-endian number held in bytes: the last byte that is not 255
/// goes up by one and the bytes after it become 0; when every byte is 255, they all
/// become 0 and a 1 is put in front.
pub fn vec_incr(b256: &mut Vec<u8>)
    ensures
        be_value(final(b256)@) == be_value(old(b256)@) + 1,
        final(b256)@.len() == old(b256)@.len() + (if all_ff(old(b256)@) { 1int } else { 0 }),
        canonical(old(b256)@) ==> canonical(final(b256)@),
{
    let ghost s = b256@;
    let mut i = b256.len();
    while i != 0
        invariant
            i <= s.len(),
            s == old(b256)@,
            b256@.len() == s.len(),
            b256@.take(i as int) == s.take(i as int),
            forall|k: int| i <= k < s.len() ==> #[trigger] s[k] == 255,
            forall|k: int| i <= k < s.len() ==> #[trigger] b256@[k] == 0,
        decreases i,
    {
        i = i - 1;
        let n = b256[i];
        assert(b256@.take(i as int + 1)[i as int] == s.take(i as int + 1)[i as int]);
        if n == 255 {
            b256.set(i, 0);
            assert(b256@.take(i as int) =~= s.take(i as int));
        } else {
            b256.set(i, n + 1);
            proof {
                let r = (s.len() - i - 1) as nat;
                let zeros = Seq::new(r, |k: int| 0u8);
                let ffs = Seq::new(r, |k: int| 255u8);
                assert(b256@ =~= s.take(i as int + 1).update(i as int, (n + 1) as u8) + zeros);
                assert(s =~= s.take(i as int + 1) + ffs);
                lemma_be_value_concat(s.take(i as int + 1), ffs);
                lemma_be_value_concat(s.take(i as int + 1).update(i as int, (n + 1) as u8), zeros);
                lemma_be_value_fill(r);
                assert(s.take(i as int + 1).update(i as int, (n + 1) as u8).drop_last() =~= s.take(
                    i as int + 1,
                ).drop_last());
                assert(s.take(i as int + 1).drop_last() =~= s.take(i as int));
                let p = pow256(r);
                let x = be_value(s.take(i as int));
                assert((x * 256 + n + 1) * p + 0 == (x * 256 + n) * p + (p - 1) + 1) by (nonlinear_arith);
                assert(!all_ff(s));
                if i == 0 {
                    assert(canonical(b256@));
                } else {
                    assert(b256@[0] == s[0]);
                }
            }
            return;
        }
    }
    b256.insert(0, 1);
    proof {
        let r = s.len();
        let zeros = Seq::new(r, |k: int| 0u8);
        let ffs = Seq::new(r, |k: int| 255u8);
        assert(s =~= ffs);
        assert(b256@ =~= seq![1u8] + zeros);
        lemma_be_value_concat(seq![1u8], zeros);
        lemma_be_value_fill(r);
        assert(seq![1u8].drop_last() =~= Seq::<u8>::empty());
        assert(be_value(seq![1u8]) == be_value(Seq::<u8>::empty()) * 256 + 1);
        assert(be_value(seq![1u8]) == 1);
        assert(zeros.len() == r);
        assert(be_value(zeros) == 0);
        assert(be_value(seq![1u8] + zeros) == be_value(seq![1u8]) * pow256(zeros.len()) + be_value(zeros));
        assert(be_value(seq![1u8] + zeros) == pow256(r));
        assert(be_value(b256@) == pow256(r));
        assert(all_ff(s));
    }
}

/// The token with number `k`: `k` written in big-endian bytes without leading zeros.
pub open spec fn token_of(k: nat) -> Seq<u8>
    decreases k,
{
    if k == 0 {
        Seq::empty()
    } else {
        token_of(k / 256).push((k % 256) as u8)
    }
}

/// The token with number `k` is canonical and reads as `k`.
pub proof fn lemma_token_of(k: nat)
    ensures
        canonical(token_of(k)),
        be_value(token_of(k)) == k,
    decreases k,
{
    if k > 0 {
        lemma_token_of(k / 256);
        let t = token_of(k);
        assert(t.drop_last() =~= token_of(k / 256));
        if k / 256 == 0 {
            assert(t[0] == (k % 256) as u8);
        } else {
            assert(t[0] == token_of(k / 256)[0]);
        }
    }
}

/// A hash result that starts with at least `n` zero bits.
pub open spec fn hash_ok(h: u64, n: u32) -> bool {
    u64_leading_zeros(h) >= n
}

/// Some call of `hash` on `v` followed by the token `t` returned a result `h` with
/// `hash_ok(h, n) == ok`.
pub open spec fn tried<H: Fn(&[u8]) -> u64>(hash: H, v: Seq<u8>, t: Seq<u8>, n: u32, ok: bool) -> bool {
    exists|s: &[u8], h: u64| #[trigger] call_ensures(hash, (s,), h) && s@ == v + t && hash_ok(h, n) == ok
}

/// Tries the tokens `token_of(0)`, `token_of(1)`, ... in turn and returns the first
/// for which `hash(v ++ token)` starts with at least `n` zero bits.
pub fn find<H: Fn(&[u8]) -> u64>(n: u32, v: &[u8], hash: H) -> (r: Vec<u8>)
    requires
        forall|s: &[u8]| call_requires(hash, (s,)),
    ensures
        r@ == token_of(be_value(r@)),
        tried(hash, v@, r@, n, true),
        forall|k: nat| k < be_value(r@) ==> tried(hash, v@, #[trigger] token_of(k), n, false),
{
    let mut token: Vec<u8> = Vec::new();
    proof {
        lemma_token_of(0);
    }
    loop
        invariant
            forall|s: &[u8]| call_requires(hash, (s,)),
            canonical(token@),
            forall|k: nat| k < be_value(token@) ==> tried(hash, v@, #[trigger] token_of(k), n, false),
        decreases usize::MAX - token@.len(), pow256(token@.len()) - be_value(token@),
    {
        let mut txt: Vec<u8> = Vec::new();
        append_bytes(&mut txt, v);
        append_bytes(&mut txt, token.as_slice());
        let sl = txt.as_slice();
        let h = hash(sl);
        proof {
            assert(call_ensures(hash, (sl,), h));
            lemma_token_of(be_value(token@));
            lemma_canonical_injective(token@, token_of(be_value(token@)));
        }
        if h.leading_zeros() >= n {
            proof {
                assert(tried(hash, v@, token@, n, true));
            }
            return token;
        }
        let ghost old_token = token@;
        proof {
            assert(tried(hash, v@, old_token, n, false));
            lemma_be_value_bound(old_token);
        }
        vec_incr(&mut token);
        proof {
            assert forall|k: nat| k < be_value(token@) implies tried(hash, v@, #[trigger] token_of(k), n, false) by {
                if k == be_value(old_token) {
                    assert(token_of(k) == old_token);
                }
            }
            lemma_be_value_bound(token@);
            assert(token.len() <= usize::MAX);
        }
    }
}

} // verus!
