//! Routing-table entries and buckets. A bucket is a set of entries kept as a vector
//! in increasing order: by depth, then by address.
use vstd::prelude::*;

use crate::addr::ToAddr;
use crate::boxed::into_boxed;
use crate::bytes::append_bytes;

verus! {

/// An entry of the routing table: an address and the depth of the bucket it
/// belongs to (the number of leading bits its key shares with ours).
#[derive(Clone, Copy, Debug)]
pub struct Node<A> {
    pub depth: u8,
    pub addr: A,
}

impl<A: ToAddr> PartialEq for Node<A> {
    /// Two entries are equal when they name the same address, whatever their depth.
    fn eq(&self, other: &Self) -> (r: bool) {
        proof {
            A::lemma_rank_injective(self.addr, other.addr);
        }
        !self.addr.rank_lt(&other.addr) && !other.addr.rank_lt(&self.addr)
    }
}

impl<A: ToAddr> vstd::std_specs::cmp::PartialEqSpecImpl for Node<A> {
    open spec fn obeys_eq_spec() -> bool {
        true
    }

    open spec fn eq_spec(&self, other: &Self) -> bool {
        self.addr == other.addr
    }
}

/// `a` comes before `b` in a bucket: by depth, then by address.
pub open spec fn node_lt<A: ToAddr>(a: Node<A>, b: Node<A>) -> bool {
    a.depth < b.depth || (a.depth == b.depth && a.addr.rank() < b.addr.rank())
}

/// The entries of `s` are in strictly increasing order (so none occurs twice).
pub open spec fn sorted<A: ToAddr>(s: Seq<Node<A>>) -> bool {
    forall|i: int, j: int| 0 <= i < j < s.len() ==> node_lt(#[trigger] s[i], #[trigger] s[j])
}

/// Two entries are ordered one way or the other, or are the same entry.
pub proof fn lemma_trichotomy<A: ToAddr>(a: Node<A>, b: Node<A>)
    ensures
        node_lt(a, b) || node_lt(b, a) || a == b,
        !(node_lt(a, b) && node_lt(b, a)),
        !node_lt(a, a),
{
    A::lemma_rank_injective(a.addr, b.addr);
}

/// The bucket `s` with `n` added (what `BTreeSet::insert` leaves).
pub open spec fn bucket_insert<A: ToAddr>(s: Seq<Node<A>>, n: Node<A>) -> Seq<Node<A>>
    decreases s.len(),
{
    if s.len() == 0 {
        seq![n]
    } else if node_lt(n, s[0]) {
        seq![n] + s
    } else if node_lt(s[0], n) {
        seq![s[0]] + bucket_insert(s.drop_first(), n)
    } else {
        s
    }
}

/// The bucket `s` without `n` (what `BTreeSet::remove` leaves).
pub open spec fn bucket_remove<A>(s: Seq<Node<A>>, n: Node<A>) -> Seq<Node<A>>
    decreases s.len(),
{
    if s.len() == 0 {
        s
    } else if s[0] == n {
        bucket_remove(s.drop_first(), n)
    } else {
        seq![s[0]] + bucket_remove(s.drop_first(), n)
    }
}

/// The entries of `s` at depth at most `m`, in order.
pub open spec fn shallow<A>(s: Seq<Node<A>>, m: int) -> Seq<Node<A>>
    decreases s.len(),
{
    if s.len() == 0 {
        s
    } else if s[0].depth <= m {
        seq![s[0]] + shallow(s.drop_first(), m)
    } else {
        shallow(s.drop_first(), m)
    }
}

/// The entries of `s` deeper than `m`, in order.
pub open spec fn deep<A>(s: Seq<Node<A>>, m: int) -> Seq<Node<A>>
    decreases s.len(),
{
    if s.len() == 0 {
        s
    } else if s[0].depth > m {
        seq![s[0]] + deep(s.drop_first(), m)
    } else {
        deep(s.drop_first(), m)
    }
}

/// The bucket `a` with every entry of `b` added, first to last.
pub open spec fn bucket_union<A: ToAddr>(a: Seq<Node<A>>, b: Seq<Node<A>>) -> Seq<Node<A>>
    decreases b.len(),
{
    if b.len() == 0 {
        a
    } else {
        bucket_union(bucket_insert(a, b[0]), b.drop_first())
    }
}

/// The encodings of the addresses of a bucket, one after another.
pub open spec fn bin<A: ToAddr>(s: Seq<Node<A>>) -> Seq<u8>
    decreases s.len(),
{
    if s.len() == 0 {
        Seq::empty()
    } else {
        bin(s.drop_last()) + s.last().addr.encoding()
    }
}

/// Adding to a sorted bucket keeps it sorted, adds exactly `n`, and changes
/// nothing when `n` is there already.
pub proof fn lemma_bucket_insert<A: ToAddr>(s: Seq<Node<A>>, n: Node<A>)
    requires
        sorted(s),
    ensures
        sorted(bucket_insert(s, n)),
        forall|x: Node<A>| #[trigger] bucket_insert(s, n).contains(x) <==> (s.contains(x) || x == n),
        s.contains(n) ==> bucket_insert(s, n) == s,
        !s.contains(n) ==> bucket_insert(s, n).len() == s.len() + 1,
    decreases s.len(),
{
    let r = bucket_insert(s, n);
    if s.len() == 0 {
        assert forall|x: Node<A>| #[trigger] r.contains(x) <==> (s.contains(x) || x == n) by {
            if r.contains(x) {
                let k = choose|k: int| 0 <= k < r.len() && r[k] == x;
                assert(k == 0);
            }
            if x == n {
                assert(r[0] == n);
            }
        }
    } else {
        lemma_trichotomy(n, s[0]);
        if node_lt(n, s[0]) {
            assert forall|i: int, j: int| 0 <= i < j < r.len() implies node_lt(#[trigger] r[i], #[trigger] r[j]) by {
                if i == 0 {
                    if j > 1 {
                        lemma_node_lt_trans(n, s[0], s[j - 1]);
                    }
                } else {
                    assert(r[i] == s[i - 1] && r[j] == s[j - 1]);
                }
            }
            assert forall|x: Node<A>| #[trigger] r.contains(x) <==> (s.contains(x) || x == n) by {
                if r.contains(x) {
                    let k = choose|k: int| 0 <= k < r.len() && r[k] == x;
                    if k > 0 {
                        assert(s[k - 1] == x);
                    }
                }
                if s.contains(x) {
                    let k = choose|k: int| 0 <= k < s.len() && s[k] == x;
                    assert(r[k + 1] == x);
                }
                if x == n {
                    assert(r[0] == n);
                }
            }
            if s.contains(n) {
                let k = choose|k: int| 0 <= k < s.len() && s[k] == n;
                if k > 0 {
                    lemma_node_lt_trans(n, s[0], s[k]);
                }
                lemma_trichotomy(n, n);
            }
        } else if node_lt(s[0], n) {
            let t = s.drop_first();
            assert(sorted(t));
            lemma_bucket_insert(t, n);
            let rt = bucket_insert(t, n);
            assert(r == seq![s[0]] + rt);
            assert forall|i: int, j: int| 0 <= i < j < r.len() implies node_lt(#[trigger] r[i], #[trigger] r[j]) by {
                if i == 0 {
                    assert(r[j] == rt[j - 1]);
                    assert(rt.contains(rt[j - 1]));
                    if rt[j - 1] == n {
                    } else {
                        let k = choose|k: int| 0 <= k < t.len() && t[k] == rt[j - 1];
                        assert(s[k + 1] == t[k]);
                    }
                } else {
                    assert(r[i] == rt[i - 1] && r[j] == rt[j - 1]);
                }
            }
            assert forall|x: Node<A>| #[trigger] r.contains(x) <==> (s.contains(x) || x == n) by {
                if r.contains(x) {
                    let k = choose|k: int| 0 <= k < r.len() && r[k] == x;
                    if k > 0 {
                        assert(rt[k - 1] == x);
                        assert(rt.contains(x));
                        if t.contains(x) {
                            let m = choose|m: int| 0 <= m < t.len() && t[m] == x;
                            assert(s[m + 1] == x);
                        }
                    } else {
                        assert(s[0] == x);
                    }
                }
                if s.contains(x) {
                    let k = choose|k: int| 0 <= k < s.len() && s[k] == x;
                    if k > 0 {
                        assert(t[k - 1] == x);
                        assert(rt.contains(x));
                        let m = choose|m: int| 0 <= m < rt.len() && rt[m] == x;
                        assert(r[m + 1] == x);
                    } else {
                        assert(r[0] == x);
                    }
                }
                if x == n {
                    assert(rt.contains(n));
                    let m = choose|m: int| 0 <= m < rt.len() && rt[m] == n;
                    assert(r[m + 1] == n);
                }
            }
            if s.contains(n) {
                let k = choose|k: int| 0 <= k < s.len() && s[k] == n;
                if k == 0 {
                    lemma_trichotomy(n, n);
                }
                assert(t[k - 1] == n);
                assert(t.contains(n));
            } else {
                assert forall|k: int| 0 <= k < t.len() implies t[k] != n by {
                    assert(s[k + 1] == t[k]);
                }
                assert(!t.contains(n));
            }
        } else {
            assert(s[0] == n);
            assert(s.contains(n));
        }
    }
}

/// `<` on entries is transitive.
pub proof fn lemma_node_lt_trans<A: ToAddr>(a: Node<A>, b: Node<A>, c: Node<A>)
    requires
        node_lt(a, b),
        node_lt(b, c),
    ensures
        node_lt(a, c),
{
}

/// In a sorted bucket, adding `n` at the first position `i` whose entry does not
/// come before `n` is what `bucket_insert` does.
pub proof fn lemma_insert_at<A: ToAddr>(s: Seq<Node<A>>, n: Node<A>, i: int)
    requires
        sorted(s),
        0 <= i <= s.len(),
        forall|k: int| 0 <= k < i ==> node_lt(#[trigger] s[k], n),
        i < s.len() ==> !node_lt(s[i], n),
    ensures
        i < s.len() && !node_lt(n, s[i]) ==> bucket_insert(s, n) == s && s[i] == n,
        !(i < s.len() && !node_lt(n, s[i])) ==> bucket_insert(s, n) == s.insert(i, n),
    decreases i,
{
    if i < s.len() {
        lemma_trichotomy(n, s[i]);
    }
    if s.len() == 0 {
        assert(seq![n] =~= s.insert(0, n));
    } else if i == 0 {
        if node_lt(n, s[0]) {
            assert(seq![n] + s =~= s.insert(0, n));
        }
    } else {
        let t = s.drop_first();
        assert(node_lt(s[0], n));
        lemma_trichotomy(s[0], n);
        assert forall|k: int| 0 <= k < i - 1 implies node_lt(#[trigger] t[k], n) by {
            assert(t[k] == s[k + 1]);
        }
        lemma_insert_at(t, n, i - 1);
        if i < s.len() && !node_lt(n, s[i]) {
            assert(t[i - 1] == s[i]);
            assert(seq![s[0]] + t =~= s);
        } else {
            assert(seq![s[0]] + t.insert(i - 1, n) =~= s.insert(i, n));
        }
    }
}

/// Removing from a bucket that does not hold `n` changes nothing.
pub proof fn lemma_remove_absent<A>(s: Seq<Node<A>>, n: Node<A>)
    requires
        !s.contains(n),
    ensures
        bucket_remove(s, n) == s,
    decreases s.len(),
{
    if s.len() > 0 {
        assert(s[0] != n);
        let t = s.drop_first();
        assert(!t.contains(n)) by {
            if t.contains(n) {
                let k = choose|k: int| 0 <= k < t.len() && t[k] == n;
                assert(s[k + 1] == n);
            }
        }
        lemma_remove_absent(t, n);
        assert(seq![s[0]] + t =~= s);
    }
}

/// Removing from a bucket that holds `n` once, at `i`, drops position `i`.
pub proof fn lemma_remove_at<A>(s: Seq<Node<A>>, n: Node<A>, i: int)
    requires
        0 <= i < s.len(),
        s[i] == n,
        forall|k: int| 0 <= k < s.len() && k != i ==> s[k] != n,
    ensures
        bucket_remove(s, n) == s.remove(i),
    decreases i,
{
    let t = s.drop_first();
    if i == 0 {
        assert(!t.contains(n)) by {
            if t.contains(n) {
                let k = choose|k: int| 0 <= k < t.len() && t[k] == n;
                assert(s[k + 1] == n);
            }
        }
        lemma_remove_absent(t, n);
        assert(t =~= s.remove(0));
    } else {
        assert(s[0] != n);
        assert forall|k: int| 0 <= k < t.len() && k != i - 1 implies t[k] != n by {
            assert(t[k] == s[k + 1]);
        }
        lemma_remove_at(t, n, i - 1);
        assert(seq![s[0]] + t.remove(i - 1) =~= s.remove(i));
    }
}

/// A sorted bucket without one of its entries is still sorted.
pub proof fn lemma_remove_sorted<A: ToAddr>(s: Seq<Node<A>>, i: int)
    requires
        sorted(s),
        0 <= i < s.len(),
    ensures
        sorted(s.remove(i)),
{
    let r = s.remove(i);
    assert forall|a: int, b: int| 0 <= a < b < r.len() implies node_lt(#[trigger] r[a], #[trigger] r[b]) by {
        let a2 = if a < i { a } else { a + 1 };
        let b2 = if b < i { b } else { b + 1 };
        assert(r[a] == s[a2] && r[b] == s[b2]);
    }
}

/// In a sorted bucket whose first `k` entries are at depth at most `m` and whose
/// entry `k`, if any, is deeper, the shallow entries are the first `k` and the deep
/// ones the rest.
pub proof fn lemma_split_at<A: ToAddr>(s: Seq<Node<A>>, m: int, k: int)
    requires
        sorted(s),
        0 <= k <= s.len(),
        forall|j: int| 0 <= j < k ==> #[trigger] s[j].depth <= m,
        k < s.len() ==> s[k].depth > m,
    ensures
        shallow(s, m) == s.take(k),
        deep(s, m) == s.skip(k),
    decreases s.len(),
{
    if s.len() > 0 {
        let t = s.drop_first();
        assert(sorted(t));
        if k == 0 {
            assert forall|j: int| 0 <= j < t.len() implies #[trigger] t[j].depth > m by {
                assert(node_lt(s[0], s[j + 1]));
            }
            lemma_all_deep(t, m);
            assert(seq![s[0]] + t =~= s);
            assert(s.take(0) =~= Seq::<Node<A>>::empty());
            assert(s.skip(0) =~= s);
        } else {
            assert forall|j: int| 0 <= j < k - 1 implies #[trigger] t[j].depth <= m by {
                assert(t[j] == s[j + 1]);
            }
            if k < s.len() {
                assert(t[k - 1] == s[k]);
            }
            lemma_split_at(t, m, k - 1);
            assert(seq![s[0]] + t.take(k - 1) =~= s.take(k));
            assert(t.skip(k - 1) =~= s.skip(k));
        }
    } else {
        assert(s.take(k) =~= s);
        assert(s.skip(k) =~= s);
    }
}

/// When every entry is deeper than `m`, none is shallow and all are deep.
proof fn lemma_all_deep<A>(s: Seq<Node<A>>, m: int)
    requires
        forall|j: int| 0 <= j < s.len() ==> #[trigger] s[j].depth > m,
    ensures
        shallow(s, m) == Seq::<Node<A>>::empty(),
        deep(s, m) == s,
    decreases s.len(),
{
    if s.len() > 0 {
        let t = s.drop_first();
        assert forall|j: int| 0 <= j < t.len() implies #[trigger] t[j].depth > m by {
            assert(t[j] == s[j + 1]);
        }
        lemma_all_deep(t, m);
        assert(seq![s[0]] + t =~= s);
    }
}

/// A prefix and a suffix of a sorted bucket are sorted.
pub proof fn lemma_sorted_take_skip<A: ToAddr>(s: Seq<Node<A>>, k: int)
    requires
        sorted(s),
        0 <= k <= s.len(),
    ensures
        sorted(s.take(k)),
        sorted(s.skip(k)),
{
    let a = s.take(k);
    let b = s.skip(k);
    assert forall|i: int, j: int| 0 <= i < j < a.len() implies node_lt(#[trigger] a[i], #[trigger] a[j]) by {
        assert(a[i] == s[i] && a[j] == s[j]);
    }
    assert forall|i: int, j: int| 0 <= i < j < b.len() implies node_lt(#[trigger] b[i], #[trigger] b[j]) by {
        assert(b[i] == s[i + k] && b[j] == s[j + k]);
    }
}

/// Adding the entries of a bucket to a sorted bucket keeps it sorted, and the
/// result holds exactly the entries of both.
pub proof fn lemma_bucket_union<A: ToAddr>(a: Seq<Node<A>>, b: Seq<Node<A>>)
    requires
        sorted(a),
    ensures
        sorted(bucket_union(a, b)),
        forall|x: Node<A>| #[trigger] bucket_union(a, b).contains(x) <==> (a.contains(x) || b.contains(x)),
    decreases b.len(),
{
    if b.len() > 0 {
        lemma_bucket_insert(a, b[0]);
        let a2 = bucket_insert(a, b[0]);
        let t = b.drop_first();
        lemma_bucket_union(a2, t);
        assert forall|x: Node<A>| #[trigger] bucket_union(a, b).contains(x) <==> (a.contains(x) || b.contains(x)) by {
            assert(bucket_union(a, b) == bucket_union(a2, t));
            if t.contains(x) {
                let k = choose|k: int| 0 <= k < t.len() && t[k] == x;
                assert(b[k + 1] == x);
            }
            if b.contains(x) {
                let k = choose|k: int| 0 <= k < b.len() && b[k] == x;
                if k > 0 {
                    assert(t[k - 1] == x);
                }
            }
            assert(a2.contains(x) <==> (a.contains(x) || x == b[0]));
        }
    }
}

/// Removing, splitting and adding never make a bucket longer than the parts it is
/// made from.
pub proof fn lemma_bucket_lens<A: ToAddr>(s: Seq<Node<A>>, n: Node<A>, m: int)
    ensures
        bucket_remove(s, n).len() <= s.len(),
        shallow(s, m).len() <= s.len(),
        deep(s, m).len() <= s.len(),
        sorted(s) ==> bucket_insert(s, n).len() <= s.len() + 1,
    decreases s.len(),
{
    if s.len() > 0 {
        lemma_bucket_lens(s.drop_first(), n, m);
    }
    if sorted(s) {
        lemma_bucket_insert(s, n);
    }
}

/// Adding the entries of `b` to a sorted bucket `a` gives at most `a.len() + b.len()`
/// entries.
pub proof fn lemma_union_len<A: ToAddr>(a: Seq<Node<A>>, b: Seq<Node<A>>)
    requires
        sorted(a),
    ensures
        bucket_union(a, b).len() <= a.len() + b.len(),
    decreases b.len(),
{
    if b.len() > 0 {
        lemma_bucket_insert(a, b[0]);
        lemma_union_len(bucket_insert(a, b[0]), b.drop_first());
    }
}

/// Whether `a` comes before `b` in a bucket.
pub fn node_before<A: ToAddr>(a: &Node<A>, b: &Node<A>) -> (r: bool)
    ensures
        r == node_lt(*a, *b),
{
    if a.depth != b.depth {
        a.depth < b.depth
    } else {
        a.addr.rank_lt(&b.addr)
    }
}

/// The number of leading entries of a sorted bucket that come before `n`.
fn position<A: ToAddr>(b: &Vec<Node<A>>, n: &Node<A>) -> (i: usize)
    requires
        sorted(b@),
    ensures
        i <= b@.len(),
        forall|k: int| 0 <= k < i ==> node_lt(#[trigger] b@[k], *n),
        i < b@.len() ==> !node_lt(b@[i as int], *n),
{
    let mut i: usize = 0;
    while i < b.len()
        invariant
            i <= b@.len(),
            forall|k: int| 0 <= k < i ==> node_lt(#[trigger] b@[k], *n),
        decreases b@.len() - i,
    {
        if !node_before(&b[i], n) {
            return i;
        }
        i = i + 1;
    }
    i
}

/// Adds `n` to a sorted bucket; returns whether it was not there before
/// (`BTreeSet::insert`).
pub fn insert_node<A: ToAddr>(b: &mut Vec<Node<A>>, n: Node<A>) -> (r: bool)
    requires
        sorted(old(b)@),
    ensures
        final(b)@ == bucket_insert(old(b)@, n),
        r == !old(b)@.contains(n),
        sorted(final(b)@),
{
    let i = position(b, &n);
    proof {
        lemma_insert_at(b@, n, i as int);
        lemma_bucket_insert(b@, n);
    }
    if i < b.len() && !node_before(&n, &b[i]) {
        proof {
            assert(b@.contains(n));
        }
        false
    } else {
        b.insert(i, n);
        proof {
            assert(!old(b)@.contains(n)) by {
                if old(b)@.contains(n) {
                    assert(bucket_insert(old(b)@, n) == old(b)@);
                    assert(old(b)@.insert(i as int, n).len() == old(b)@.len() + 1);
                }
            }
        }
        true
    }
}

/// Removes `n` from a sorted bucket (`BTreeSet::remove`).
pub fn remove_node<A: ToAddr>(b: &mut Vec<Node<A>>, n: Node<A>)
    requires
        sorted(old(b)@),
    ensures
        final(b)@ == bucket_remove(old(b)@, n),
        sorted(final(b)@),
{
    let i = position(b, &n);
    proof {
        assert forall|k: int| 0 <= k < b@.len() && k != i && b@[k] == n implies false by {
            lemma_trichotomy(b@[k], n);
            if k > i {
                assert(node_lt(b@[i as int], b@[k]));
                lemma_trichotomy(b@[i as int], n);
            }
        }
    }
    if i < b.len() && !node_before(&n, &b[i]) {
        proof {
            lemma_trichotomy(n, b@[i as int]);
            lemma_remove_at(b@, n, i as int);
            lemma_remove_sorted(b@, i as int);
        }
        b.remove(i);
    } else {
        proof {
            if i < b@.len() {
                lemma_trichotomy(n, b@[i as int]);
            }
            assert(!b@.contains(n));
            lemma_remove_absent(b@, n);
        }
    }
}

/// Moves the entries of a sorted bucket that are deeper than `m` into a new bucket,
/// which is returned; the entries at depth at most `m` stay.
pub fn split_deep<A: ToAddr>(b: &mut Vec<Node<A>>, m: u8) -> (moved: Vec<Node<A>>)
    requires
        sorted(old(b)@),
    ensures
        final(b)@ == shallow(old(b)@, m as int),
        moved@ == deep(old(b)@, m as int),
        sorted(final(b)@),
        sorted(moved@),
{
    let mut k: usize = 0;
    while k < b.len() && b[k].depth <= m
        invariant
            k <= b@.len(),
            forall|j: int| 0 <= j < k ==> #[trigger] b@[j].depth <= m,
        decreases b@.len() - k,
    {
        k = k + 1;
    }
    proof {
        lemma_split_at(b@, m as int, k as int);
        lemma_sorted_take_skip(b@, k as int);
        assert(b@.subrange(0, k as int) =~= b@.take(k as int));
        assert(b@.subrange(k as int, b@.len() as int) =~= b@.skip(k as int));
    }
    b.split_off(k)
}

/// Adds every entry of `other` to the sorted bucket `b`, first to last.
pub fn union_into<A: ToAddr>(b: &mut Vec<Node<A>>, other: &Vec<Node<A>>)
    requires
        sorted(old(b)@),
    ensures
        final(b)@ == bucket_union(old(b)@, other@),
        sorted(final(b)@),
{
    let mut j: usize = 0;
    assert(other@.skip(0) =~= other@);
    while j < other.len()
        invariant
            j <= other@.len(),
            sorted(b@),
            bucket_union(b@, other@.skip(j as int)) == bucket_union(old(b)@, other@),
        decreases other@.len() - j,
    {
        proof {
            assert(other@.skip(j as int)[0] == other@[j as int]);
            assert(other@.skip(j as int).drop_first() =~= other@.skip(j as int + 1));
        }
        insert_node(b, other[j]);
        j = j + 1;
    }
    proof {
        assert(other@.skip(j as int) =~= Seq::<Node<A>>::empty());
    }
}

/// The encodings of the addresses of a bucket, one after another.
pub fn bucket_bin<A: ToAddr>(b: &Vec<Node<A>>) -> (r: Box<[u8]>)
    ensures
        r@ == bin(b@),
{
    let mut v: Vec<u8> = Vec::new();
    let mut i: usize = 0;
    while i < b.len()
        invariant
            i <= b@.len(),
            v@ == bin(b@.take(i as int)),
        decreases b@.len() - i,
    {
        let e = b[i].addr.to_bytes();
        append_bytes(&mut v, &e);
        proof {
            assert(b@.take(i as int + 1).drop_last() =~= b@.take(i as int));
        }
        i = i + 1;
    }
    proof {
        assert(b@.take(i as int) =~= b@);
    }
    into_boxed(v)
}

} // verus!
