//! The decisions of the peer store. The store keeps, among others, two column
//! families that map public keys to addresses and addresses to public keys; reading
//! and writing them is left to the caller, which hands over what it read and carries
//! out what is decided here.
use vstd::prelude::*;

use crate::addr::FromBytes;
use crate::bytes::{be_value, u128_from_be_prefix};

verus! {

/// The most peers that one range query returns.
pub const KAD_LEN: usize = 32;

/// A peer read from the store: its public key and its address.
pub struct PkAddr<A> {
    pub pk: Box<[u8]>,
    pub addr: A,
}

/// The key that the first 16 bytes of a public key denote.
pub open spec fn pk_key(pk: Seq<u8>) -> u128 {
    be_value(pk.take(16)) as u128
}

/// Takes the next entry of a range query over public keys that ends at `end`:
/// an entry past `end` ends the query and is dropped; otherwise it is added, and the
/// query goes on while fewer than `KAD_LEN` peers are collected. Returns whether the
/// query goes on.
pub fn addr_range_push<A: FromBytes<A>>(
    li: &mut Vec<PkAddr<A>>,
    pk: Box<[u8]>,
    addr: &[u8],
    end: u128,
) -> (more: bool)
    requires
        pk@.len() >= 16,
        pk_key(pk@) <= end ==> addr@.len() >= A::encoded_len(),
    ensures
        pk_key(pk@) > end ==> final(li)@ == old(li)@ && !more,
        pk_key(pk@) <= end ==> {
            &&& final(li)@.len() == old(li)@.len() + 1
            &&& final(li)@.drop_last() == old(li)@
            &&& final(li)@.last().pk@ == pk@
            &&& A::decodes_to(addr@, final(li)@.last().addr)
            &&& more == (final(li)@.len() < KAD_LEN)
        },
{
    let key = u128_from_be_prefix(&pk);
    if key > end {
        return false;
    }
    let a = A::from_bytes(addr);
    li.push(PkAddr { pk, addr: a });
    proof {
        assert(li@.drop_last() =~= old(li)@);
    }
    li.len() < KAD_LEN
}

/// Whether two byte strings are equal.
pub fn bytes_eq(a: &[u8], b: &[u8]) -> (r: bool)
    ensures
        r == (a@ == b@),
{
    if a.len() != b.len() {
        return false;
    }
    let mut i: usize = 0;
    while i < a.len()
        invariant
            a@.len() == b@.len(),
            i <= a@.len(),
            forall|k: int| 0 <= k < i ==> a@[k] == b@[k],
        decreases a@.len() - i,
    {
        if a[i] != b[i] {
            return false;
        }
        i = i + 1;
    }
    assert(a@ =~= b@);
    true
}

/// A copy of a byte string.
pub fn to_vec(s: &[u8]) -> (r: Vec<u8>)
    ensures
        r@ == s@,
{
    let mut v: Vec<u8> = Vec::new();
    crate::bytes::append_bytes(&mut v, s);
    v
}

/// What linking an address with a public key does to the store: nothing, when
/// the key is linked with that address already; otherwise the old address of the
/// key loses its link in the address family, the old key of the address loses its
/// link in the key family, and both new links are written.
pub struct PkAddrPlan {
    pub unchanged: bool,
    pub del_addr_pk: Option<Vec<u8>>,
    pub del_pk_addr: Option<Vec<u8>>,
}

/// The two families: public key to address, and address to public key.
#[verifier::reject_recursive_types(K)]
pub struct Links<K> {
    pub pk_addr: Map<K, K>,
    pub addr_pk: Map<K, K>,
}

/// What a map holds at `k`.
pub open spec fn lookup<K>(m: Map<K, K>, k: K) -> Option<K> {
    if m.contains_key(k) {
        Some(m[k])
    } else {
        None
    }
}

/// The two families are inverse to each other.
pub open spec fn inverse<K>(l: Links<K>) -> bool {
    forall|p: K, a: K| lookup(l.pk_addr, p) == Some(a) <==> lookup(l.addr_pk, a) == Some(p)
}

/// The links after a plan for `addr` and `pk` is carried out.
pub open spec fn apply_plan(
    l: Links<Seq<u8>>,
    addr: Seq<u8>,
    pk: Seq<u8>,
    unchanged: bool,
    del_addr_pk: Option<Seq<u8>>,
    del_pk_addr: Option<Seq<u8>>,
) -> Links<Seq<u8>> {
    if unchanged {
        l
    } else {
        let ap = match del_addr_pk {
            Some(k) => l.addr_pk.remove(k),
            None => l.addr_pk,
        };
        let pa = match del_pk_addr {
            Some(k) => l.pk_addr.remove(k),
            None => l.pk_addr,
        };
        Links { pk_addr: pa.insert(pk, addr), addr_pk: ap.insert(addr, pk) }
    }
}

/// Decides how to link `addr` with a public key, given the address that the key is
/// linked with (`pre_addr`) and the key that the address is linked with (`pre_pk`).
pub fn addr_pk_plan(addr: &[u8], pre_addr: Option<&[u8]>, pre_pk: Option<&[u8]>) -> (r: PkAddrPlan)
    ensures
        r.unchanged == (pre_addr is Some && pre_addr->0@ == addr@),
        !r.unchanged ==> (r.del_addr_pk is Some <==> pre_addr is Some),
        !r.unchanged && pre_addr is Some ==> r.del_addr_pk->0@ == pre_addr->0@,
        !r.unchanged ==> (r.del_pk_addr is Some <==> pre_pk is Some),
        !r.unchanged && pre_pk is Some ==> r.del_pk_addr->0@ == pre_pk->0@,
{
    let del_addr_pk = match pre_addr {
        Some(pre) => {
            if bytes_eq(addr, pre) {
                return PkAddrPlan { unchanged: true, del_addr_pk: None, del_pk_addr: None };
            }
            Some(to_vec(pre))
        },
        None => None,
    };
    let del_pk_addr = match pre_pk {
        Some(pre) => Some(to_vec(pre)),
        None => None,
    };
    PkAddrPlan { unchanged: false, del_addr_pk, del_pk_addr }
}

/// Linking an address with a public key, as planned from what the store holds,
/// links them both ways and keeps the two families inverse to each other.
pub proof fn lemma_addr_pk_plan(l: Links<Seq<u8>>, addr: Seq<u8>, pk: Seq<u8>)
    requires
        inverse(l),
    ensures
        ({
            let pre_addr = lookup(l.pk_addr, pk);
            let pre_pk = lookup(l.addr_pk, addr);
            let unchanged = pre_addr == Some(addr);
            let n = apply_plan(l, addr, pk, unchanged, pre_addr, pre_pk);
            &&& inverse(n)
            &&& lookup(n.pk_addr, pk) == Some(addr)
            &&& lookup(n.addr_pk, addr) == Some(pk)
        }),
{
    let pre_addr = lookup(l.pk_addr, pk);
    let pre_pk = lookup(l.addr_pk, addr);
    let unchanged = pre_addr == Some(addr);
    let n = apply_plan(l, addr, pk, unchanged, pre_addr, pre_pk);
    if unchanged {
        assert(lookup(l.addr_pk, addr) == Some(pk));
    } else {
        assert forall|p: Seq<u8>, a: Seq<u8>| lookup(n.pk_addr, p) == Some(a) <==> lookup(n.addr_pk, a) == Some(p) by {
            assert(lookup(l.pk_addr, p) == Some(a) <==> lookup(l.addr_pk, a) == Some(p));
            if pre_pk is Some {
                let q = pre_pk->0;
                assert(lookup(l.pk_addr, q) == Some(addr));
            }
            if pre_addr is Some {
                let b = pre_addr->0;
                assert(lookup(l.addr_pk, b) == Some(pk));
                assert(lookup(l.pk_addr, pk) == Some(b));
            }
        }
    }
}

} // verus!
