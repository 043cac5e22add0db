//! What adding and compacting keep of a routing table.
use vstd::prelude::*;

use crate::addr::ToAddr;
use crate::kad::node::{
    bin, bucket_insert, bucket_remove, bucket_union, deep, lemma_bucket_insert,
    lemma_bucket_union, lemma_union_len, shallow, sorted, Node,
};
use crate::kad::distance::lz128;
use crate::kad::{depth_of, find_index, kad_add, kad_compact, view_wf, KadView, CAPACITY};

verus! {

/// Some bucket of `v` holds `x`.
pub open spec fn holds<A>(v: KadView<A>, x: Node<A>) -> bool {
    exists|i: int| 0 <= i < v.node.len() && (#[trigger] v.node[i]).contains(x)
}

/// Every cache entry is the encoding of its bucket.
pub open spec fn cache_consistent<A: ToAddr>(v: KadView<A>) -> bool {
    &&& v.cache.len() == v.node.len()
    &&& forall|i: int| 0 <= i < v.node.len() ==> #[trigger] v.cache[i] == bin(v.node[i])
}

/// A bucket without `n` holds the other entries of the bucket.
pub proof fn lemma_remove_contains<A>(s: Seq<Node<A>>, n: Node<A>, x: Node<A>)
    ensures
        bucket_remove(s, n).contains(x) <==> (s.contains(x) && x != n),
    decreases s.len(),
{
    if s.len() > 0 {
        let t = s.drop_first();
        lemma_remove_contains(t, n, x);
        lemma_contains_first(s, x);
        let r = bucket_remove(s, n);
        if s[0] != n {
            lemma_contains_first(r, x);
            assert(r.drop_first() =~= bucket_remove(t, n));
        }
    }
}

/// `s` holds `x` exactly when its first entry is `x` or the rest holds `x`.
proof fn lemma_contains_first<A>(s: Seq<Node<A>>, x: Node<A>)
    requires
        s.len() > 0,
    ensures
        s.contains(x) <==> (s[0] == x || s.drop_first().contains(x)),
{
    let t = s.drop_first();
    if s.contains(x) {
        let k = choose|k: int| 0 <= k < s.len() && s[k] == x;
        if k > 0 {
            assert(t[k - 1] == x);
        }
    }
    if t.contains(x) {
        let k = choose|k: int| 0 <= k < t.len() && t[k] == x;
        assert(s[k + 1] == x);
    }
}

/// The shallow and the deep entries of a bucket are its entries at depth at most
/// `m` and deeper than `m`.
pub proof fn lemma_split_contains<A>(s: Seq<Node<A>>, m: int, x: Node<A>)
    ensures
        shallow(s, m).contains(x) <==> (s.contains(x) && x.depth <= m),
        deep(s, m).contains(x) <==> (s.contains(x) && x.depth > m),
    decreases s.len(),
{
    if s.len() > 0 {
        let t = s.drop_first();
        lemma_split_contains(t, m, x);
        lemma_contains_first(s, x);
        if s[0].depth <= m {
            let r = shallow(s, m);
            lemma_contains_first(r, x);
            assert(r.drop_first() =~= shallow(t, m));
        } else {
            let r = deep(s, m);
            lemma_contains_first(r, x);
            assert(r.drop_first() =~= deep(t, m));
        }
    }
}

/// Adding a peer keeps every entry of the table that is for another address.
pub proof fn lemma_add_keeps_others<A: ToAddr>(v: KadView<A>, pk: u128, a: A, x: Node<A>)
    requires
        view_wf(v),
        holds(v, x),
        x.addr != a,
    ensures
        holds(kad_add(v, pk, a).0, x),
{
    let w = kad_add(v, pk, a).0;
    let depth = depth_of(v.key, pk);
    let n = Node { depth: depth as u8, addr: a };
    let max = v.node.len() - 1;
    let j = choose|j: int| 0 <= j < v.node.len() && (#[trigger] v.node[j]).contains(x);
    if v.addr.contains_key(a) && v.addr[a] == depth {
        assert(w.node[j].contains(x));
    } else {
        let node1 = if v.addr.contains_key(a) {
            let d = v.addr[a] as int;
            let b = if d < max {
                d
            } else {
                max
            };
            v.node.update(b, bucket_remove(v.node[b], Node { depth: v.addr[a], addr: a }))
        } else {
            v.node
        };
        if v.addr.contains_key(a) {
            lemma_remove_contains(v.node[j], Node { depth: v.addr[a], addr: a }, x);
        }
        assert(node1[j].contains(x));
        assert forall|i: int| 0 <= i < node1.len() implies sorted(#[trigger] node1[i]) by {
            if v.addr.contains_key(a) {
                lemma_sorted_remove(v.node[i], Node { depth: v.addr[a], addr: a });
            }
        }
        if depth >= max && node1[max].len() == CAPACITY {
            if j == max {
                lemma_split_contains(node1[max], max, x);
                if x.depth <= max {
                    assert(w.node[max].contains(x));
                } else {
                    lemma_sorted_deep(node1[max], max);
                    lemma_bucket_insert(deep(node1[max], max), n);
                    assert(w.node[max + 1].contains(x));
                }
            } else {
                assert(w.node[j].contains(x));
            }
        } else {
            let at = if depth >= max {
                max
            } else {
                depth
            };
            if node1[at].len() < CAPACITY && !node1[at].contains(n) {
                if j == at {
                    lemma_bucket_insert(node1[at], n);
                }
                assert(w.node[j].contains(x));
            } else {
                assert(w.node[j].contains(x));
            }
        }
    }
}

/// A peer that `add` reports as added is filed at its depth and held by a bucket.
pub proof fn lemma_add_files_peer<A: ToAddr>(v: KadView<A>, pk: u128, a: A)
    requires
        view_wf(v),
        kad_add(v, pk, a).1,
    ensures
        kad_add(v, pk, a).0.addr.contains_key(a),
        kad_add(v, pk, a).0.addr[a] == depth_of(v.key, pk),
        holds(kad_add(v, pk, a).0, Node { depth: depth_of(v.key, pk) as u8, addr: a }),
{
    let w = kad_add(v, pk, a).0;
    let depth = depth_of(v.key, pk);
    let n = Node { depth: depth as u8, addr: a };
    let max = v.node.len() - 1;
    crate::kad::distance::lemma_lz128_bound(v.key ^ pk);
    let node1 = if v.addr.contains_key(a) {
        let d = v.addr[a] as int;
        let b = if d < max {
            d
        } else {
            max
        };
        v.node.update(b, bucket_remove(v.node[b], Node { depth: v.addr[a], addr: a }))
    } else {
        v.node
    };
    assert forall|i: int| 0 <= i < node1.len() implies sorted(#[trigger] node1[i]) by {
        if v.addr.contains_key(a) {
            lemma_sorted_remove(v.node[i], Node { depth: v.addr[a], addr: a });
        }
    }
    if depth >= max && node1[max].len() == CAPACITY {
        lemma_sorted_deep(node1[max], max);
        lemma_bucket_insert(deep(node1[max], max), n);
        assert(w.node[max + 1].contains(n));
    } else {
        let at = if depth >= max {
            max
        } else {
            depth
        };
        lemma_bucket_insert(node1[at], n);
        assert(w.node[at].contains(n));
    }
}

/// The deep entries of a sorted bucket are in order.
pub proof fn lemma_sorted_deep<A: ToAddr>(s: Seq<Node<A>>, m: int)
    requires
        sorted(s),
    ensures
        sorted(deep(s, m)),
        sorted(shallow(s, m)),
    decreases s.len(),
{
    if s.len() > 0 {
        let t = s.drop_first();
        assert(sorted(t));
        lemma_sorted_deep(t, m);
        assert forall|x: Node<A>| t.contains(x) implies crate::kad::node::node_lt(s[0], x) by {
            let k = choose|k: int| 0 <= k < t.len() && t[k] == x;
            assert(s[k + 1] == x);
        }
        lemma_sorted_cons(s[0], deep(t, m));
        lemma_sorted_cons(s[0], shallow(t, m));
        assert forall|x: Node<A>| deep(t, m).contains(x) implies crate::kad::node::node_lt(s[0], x) by {
            lemma_split_contains(t, m, x);
        }
        assert forall|x: Node<A>| shallow(t, m).contains(x) implies crate::kad::node::node_lt(s[0], x) by {
            lemma_split_contains(t, m, x);
        }
    }
}

/// Putting an entry that comes before all entries of a sorted bucket in front of
/// it gives a sorted bucket.
proof fn lemma_sorted_cons<A: ToAddr>(h: Node<A>, t: Seq<Node<A>>)
    requires
        sorted(t),
    ensures
        (forall|x: Node<A>| t.contains(x) ==> crate::kad::node::node_lt(h, x)) ==> sorted(
            seq![h] + t,
        ),
{
    if forall|x: Node<A>| t.contains(x) ==> crate::kad::node::node_lt(h, x) {
        let r = seq![h] + t;
        assert forall|i: int, j: int| 0 <= i < j < r.len() implies crate::kad::node::node_lt(
            #[trigger] r[i],
            #[trigger] r[j],
        ) by {
            if i == 0 {
                assert(r[j] == t[j - 1]);
                assert(t.contains(t[j - 1]));
            } else {
                assert(r[i] == t[i - 1] && r[j] == t[j - 1]);
            }
        }
    }
}

/// A sorted bucket without one entry is sorted.
pub proof fn lemma_sorted_remove<A: ToAddr>(s: Seq<Node<A>>, n: Node<A>)
    requires
        sorted(s),
    ensures
        sorted(bucket_remove(s, n)),
    decreases s.len(),
{
    if s.len() > 0 {
        let t = s.drop_first();
        assert(sorted(t));
        lemma_sorted_remove(t, n);
        if s[0] != n {
            assert forall|x: Node<A>| bucket_remove(t, n).contains(x) implies crate::kad::node::node_lt(s[0], x) by {
                lemma_remove_contains(t, n, x);
                let k = choose|k: int| 0 <= k < t.len() && t[k] == x;
                assert(s[k + 1] == x);
            }
            lemma_sorted_cons(s[0], bucket_remove(t, n));
        }
    }
}

/// The bucket from which adding a peer with key `pk` and address `a` takes out the
/// entry that the table held for `a` at another depth, if it held one.
pub open spec fn removal_bucket<A: ToAddr>(v: KadView<A>, pk: u128, a: A) -> Option<int> {
    let max = v.node.len() - 1;
    if v.addr.contains_key(a) && v.addr[a] != depth_of(v.key, pk) {
        Some(if (v.addr[a] as int) < max { v.addr[a] as int } else { max })
    } else {
        None
    }
}

/// Adding a peer keeps every cache entry the encoding of its bucket, but for the
/// bucket from which an entry for the same address at another depth is taken out;
/// so when the table does not know the address, the whole cache stays consistent.
pub proof fn lemma_add_keeps_cache<A: ToAddr>(v: KadView<A>, pk: u128, a: A)
    requires
        view_wf(v),
        cache_consistent(v),
    ensures
        kad_add(v, pk, a).0.cache.len() == kad_add(v, pk, a).0.node.len(),
        forall|i: int|
            0 <= i < kad_add(v, pk, a).0.node.len() && removal_bucket(v, pk, a) != Some(i) ==> 
                #[trigger] kad_add(v, pk, a).0.cache[i] == bin(kad_add(v, pk, a).0.node[i]),
        !v.addr.contains_key(a) ==> cache_consistent(kad_add(v, pk, a).0),
{
    let w = kad_add(v, pk, a).0;
    let depth = depth_of(v.key, pk);
    let n = Node { depth: depth as u8, addr: a };
    let max = v.node.len() - 1;
    if v.addr.contains_key(a) && v.addr[a] == depth {
        assert(w == v);
    } else {
        let node1 = if v.addr.contains_key(a) {
            let d = v.addr[a] as int;
            let b = if d < max {
                d
            } else {
                max
            };
            v.node.update(b, bucket_remove(v.node[b], Node { depth: v.addr[a], addr: a }))
        } else {
            v.node
        };
        assert forall|i: int| 0 <= i < v.node.len() && removal_bucket(v, pk, a) != Some(i) implies
            #[trigger] node1[i] == v.node[i] by {}
        if depth >= max && node1[max].len() == CAPACITY {
            assert forall|i: int| 0 <= i < w.node.len() && removal_bucket(v, pk, a) != Some(i) implies
                #[trigger] w.cache[i] == bin(w.node[i]) by {
                if i < max {
                    assert(w.cache[i] == v.cache[i]);
                    assert(node1[i] == v.node[i]);
                }
            }
        } else {
            let at = if depth >= max {
                max
            } else {
                depth
            };
            assert forall|i: int| 0 <= i < w.node.len() && removal_bucket(v, pk, a) != Some(i) implies
                #[trigger] w.cache[i] == bin(w.node[i]) by {
                if node1[at].len() < CAPACITY && !node1[at].contains(n) {
                    if i != at {
                        assert(w.cache[i] == v.cache[i]);
                        assert(node1[i] == v.node[i]);
                    }
                } else {
                    assert(w.cache[i] == v.cache[i]);
                    assert(node1[i] == v.node[i]);
                }
            }
        }
    }
}

/// One merge of the last two buckets.
pub open spec fn merge_last<A: ToAddr>(v: KadView<A>) -> KadView<A> {
    let max = v.node.len() - 1;
    let merged = bucket_union(v.node[max - 1], v.node[max]);
    KadView {
        key: v.key,
        node: v.node.drop_last().update(max - 1, merged),
        cache: v.cache.drop_last().update(max - 1, bin(merged)),
        addr: v.addr,
    }
}

/// Compacting keeps exactly the entries of the table, keeps it well formed, and
/// keeps every cache entry the encoding of its bucket.
pub proof fn lemma_compact_keeps_entries<A: ToAddr>(v: KadView<A>, x: Node<A>)
    requires
        view_wf(v),
    ensures
        holds(kad_compact(v), x) <==> holds(v, x),
        view_wf(kad_compact(v)),
        cache_consistent(v) ==> cache_consistent(kad_compact(v)),
        kad_compact(v).addr == v.addr,
        kad_compact(v).key == v.key,
    decreases v.node.len(),
{
    if v.node.len() >= 2 && v.node[v.node.len() - 1].len() + v.node[v.node.len() - 2].len()
        <= CAPACITY {
        let max = v.node.len() - 1;
        let u = merge_last(v);
        let merged = bucket_union(v.node[max - 1], v.node[max]);
        assert(kad_compact(v) == kad_compact(u));
        lemma_bucket_union(v.node[max - 1], v.node[max]);
        lemma_union_len(v.node[max - 1], v.node[max]);
        assert(view_wf(u)) by {
            assert forall|i: int| 0 <= i < u.node.len() implies sorted(#[trigger] u.node[i]) by {
                if i != max - 1 {
                    assert(u.node[i] == v.node[i]);
                }
            }
            assert forall|i: int| 0 <= i < u.node.len() implies (#[trigger] u.node[i]).len() <= CAPACITY + 1 by {
                if i != max - 1 {
                    assert(u.node[i] == v.node[i]);
                }
            }
        }
        assert(holds(u, x) <==> holds(v, x)) by {
            if holds(v, x) {
                let j = choose|j: int| 0 <= j < v.node.len() && (#[trigger] v.node[j]).contains(x);
                if j >= max - 1 {
                    assert(u.node[max - 1].contains(x));
                } else {
                    assert(u.node[j].contains(x));
                }
            }
            if holds(u, x) {
                let j = choose|j: int| 0 <= j < u.node.len() && (#[trigger] u.node[j]).contains(x);
                if j == max - 1 {
                    if v.node[max - 1].contains(x) {
                        assert(v.node[max - 1].contains(x));
                    } else {
                        assert(v.node[max].contains(x));
                    }
                } else {
                    assert(v.node[j].contains(x));
                }
            }
        }
        if cache_consistent(v) {
            assert forall|i: int| 0 <= i < u.node.len() implies #[trigger] u.cache[i] == bin(u.node[i]) by {
                if i != max - 1 {
                    assert(u.cache[i] == v.cache[i]);
                }
            }
        }
        lemma_compact_keeps_entries(u, x);
    }
}

/// The last two buckets of `v` together fit in one bucket, so compacting merges
/// them.
pub open spec fn can_merge<A: ToAddr>(v: KadView<A>) -> bool {
    v.node.len() >= 2 && v.node[v.node.len() - 1].len() + v.node[v.node.len() - 2].len() <= CAPACITY
}

/// After compacting, the last two buckets no longer fit in one.
proof fn lemma_compact_done<A: ToAddr>(v: KadView<A>)
    ensures
        !can_merge(kad_compact(v)),
    decreases v.node.len(),
{
    if can_merge(v) {
        lemma_compact_done(merge_last(v));
        assert(kad_compact(v) == kad_compact(merge_last(v)));
    }
}

/// Compacting a second time changes nothing.
pub proof fn lemma_compact_twice<A: ToAddr>(v: KadView<A>)
    ensures
        kad_compact(kad_compact(v)) == kad_compact(v),
{
    lemma_compact_done(v);
}

/// The address map files exactly the entries the buckets hold: every entry is
/// filed at its depth, and every filed address has its entry in some bucket.
pub open spec fn agree<A: ToAddr>(v: KadView<A>) -> bool {
    &&& forall|i: int, x: Node<A>|
        0 <= i < v.node.len() && #[trigger] v.node[i].contains(x) ==> v.addr.contains_key(x.addr)
            && v.addr[x.addr] == x.depth
    &&& forall|b: A| #[trigger] v.addr.contains_key(b) ==> holds(v, Node { depth: v.addr[b], addr: b })
}

/// Adding a peer whose address the table does not know keeps the address map and
/// the buckets in agreement; it adds the peer, filed at its depth, exactly when
/// the address ends up filed, and otherwise changes nothing.
pub proof fn lemma_add_keeps_agreement<A: ToAddr>(v: KadView<A>, pk: u128, a: A)
    requires
        view_wf(v),
        agree(v),
        !v.addr.contains_key(a),
    ensures
        agree(kad_add(v, pk, a).0),
        kad_add(v, pk, a).0.key == v.key,
        kad_add(v, pk, a).1 == kad_add(v, pk, a).0.addr.contains_key(a),
        kad_add(v, pk, a).1 ==> kad_add(v, pk, a).0.addr[a] == depth_of(v.key, pk),
        !kad_add(v, pk, a).1 ==> kad_add(v, pk, a).0 == v,
{
    let w = kad_add(v, pk, a).0;
    let depth = depth_of(v.key, pk);
    let n = Node { depth: depth as u8, addr: a };
    let max = v.node.len() - 1;
    crate::kad::distance::lemma_lz128_bound(v.key ^ pk);
    assert forall|i: int| 0 <= i < v.node.len() implies !(#[trigger] v.node[i]).contains(n) by {
        if v.node[i].contains(n) {
            assert(v.addr.contains_key(n.addr));
        }
    }
    if depth >= max && v.node[max].len() == CAPACITY {
        let keep = shallow(v.node[max], max);
        let dp = deep(v.node[max], max);
        let fresh = bucket_insert(dp, n);
        lemma_split_contains(v.node[max], max, n);
        lemma_sorted_deep(v.node[max], max);
        lemma_bucket_insert(dp, n);
        assert(w.node == v.node.update(max, keep).push(fresh));
        assert(w.addr == v.addr.insert(a, depth as u8));
        assert forall|i: int, x: Node<A>| 0 <= i < w.node.len() && #[trigger] w.node[i].contains(x) implies
            w.addr.contains_key(x.addr) && w.addr[x.addr] == x.depth by {
            if i < max {
                assert(w.node[i] == v.node[i]);
                assert(v.node[i].contains(x));
            } else if i == max {
                lemma_split_contains(v.node[max], max, x);
                assert(v.node[max].contains(x));
            } else {
                assert(fresh.contains(x));
                if x != n {
                    lemma_split_contains(v.node[max], max, x);
                    assert(v.node[max].contains(x));
                }
            }
        }
        assert forall|b: A| #[trigger] w.addr.contains_key(b) implies holds(w, Node { depth: w.addr[b], addr: b }) by {
            if b == a {
                assert(w.node[max + 1].contains(n));
            } else {
                let y = Node { depth: v.addr[b], addr: b };
                assert(v.addr.contains_key(b));
                assert(holds(v, y));
                let j = choose|j: int| 0 <= j < v.node.len() && (#[trigger] v.node[j]).contains(y);
                if j < max {
                    assert(w.node[j] == v.node[j]);
                    assert(w.node[j].contains(y));
                } else {
                    lemma_split_contains(v.node[max], max, y);
                    if y.depth <= max {
                        assert(w.node[max].contains(y));
                    } else {
                        assert(fresh.contains(y));
                        assert(w.node[max + 1].contains(y));
                    }
                }
            }
        }
    } else {
        let at = if depth >= max {
            max
        } else {
            depth
        };
        if v.node[at].len() < CAPACITY {
            let bi = bucket_insert(v.node[at], n);
            lemma_bucket_insert(v.node[at], n);
            assert(w.node == v.node.update(at, bi));
            assert(w.addr == v.addr.insert(a, depth as u8));
            assert forall|i: int, x: Node<A>| 0 <= i < w.node.len() && #[trigger] w.node[i].contains(x) implies
                w.addr.contains_key(x.addr) && w.addr[x.addr] == x.depth by {
                if i != at {
                    assert(w.node[i] == v.node[i]);
                    assert(v.node[i].contains(x));
                } else if x != n {
                    assert(v.node[at].contains(x));
                }
            }
            assert forall|b: A| #[trigger] w.addr.contains_key(b) implies holds(w, Node { depth: w.addr[b], addr: b }) by {
                if b == a {
                    assert(w.node[at].contains(n));
                } else {
                    let y = Node { depth: v.addr[b], addr: b };
                    assert(v.addr.contains_key(b));
                    assert(holds(v, y));
                    let j = choose|j: int| 0 <= j < v.node.len() && (#[trigger] v.node[j]).contains(y);
                    assert(w.node[j].contains(y));
                }
            }
        } else {
            assert(w == v);
        }
    }
}

/// Adding the peer splits the last bucket without adding it: the peer's entry is
/// already among the deep entries of the full last bucket, while the address map
/// does not file the address at that depth.
pub open spec fn splits_without_adding<A: ToAddr>(v: KadView<A>, pk: u128, a: A) -> bool {
    kad_add(v, pk, a).0.node.len() > v.node.len() && !kad_add(v, pk, a).1
}

/// Adding a peer a second time, with the same key and address, changes nothing and
/// reports that nothing was added; this holds unless the first call split the last
/// bucket without adding the peer (then a second call splits again whenever the
/// entries moved into the new bucket fill it).
pub proof fn lemma_add_twice<A: ToAddr>(v: KadView<A>, pk: u128, a: A)
    requires
        view_wf(v),
        !splits_without_adding(v, pk, a),
    ensures
        kad_add(kad_add(v, pk, a).0, pk, a) == (kad_add(v, pk, a).0, false),
{
    let w = kad_add(v, pk, a).0;
    let depth = depth_of(v.key, pk);
    let n = Node { depth: depth as u8, addr: a };
    let max = v.node.len() - 1;
    crate::kad::distance::lemma_lz128_bound(v.key ^ pk);
    if v.addr.contains_key(a) && v.addr[a] == depth {
        assert(w == v);
    } else if kad_add(v, pk, a).1 {
        lemma_add_files_peer(v, pk, a);
    } else {
        let x = Node { depth: v.addr[a], addr: a };
        let bx = if (v.addr[a] as int) < max {
            v.addr[a] as int
        } else {
            max
        };
        let node1 = if v.addr.contains_key(a) {
            v.node.update(bx, bucket_remove(v.node[bx], x))
        } else {
            v.node
        };
        if depth >= max && node1[max].len() == CAPACITY {
            assert(w.node.len() == v.node.len() + 1);
            assert(false);
        } else {
            assert(w == (KadView { key: v.key, node: node1, cache: v.cache, addr: v.addr }));
            if v.addr.contains_key(a) {
                lemma_remove_contains(v.node[bx], x, x);
                crate::kad::node::lemma_remove_absent(node1[bx], x);
                assert(node1.update(bx, bucket_remove(node1[bx], x)) =~= node1);
            }
        }
    }
}

/// A peer that `add` reports as added is filed, in the address map and in a
/// bucket, at its distance from us: the number of leading zero bits of our key
/// XOR its key.
pub proof fn lemma_add_files_at_xor_depth<A: ToAddr>(v: KadView<A>, pk: u128, a: A)
    requires
        view_wf(v),
        kad_add(v, pk, a).1,
    ensures
        kad_add(v, pk, a).0.addr.contains_key(a),
        kad_add(v, pk, a).0.addr[a] == lz128(v.key ^ pk),
        holds(kad_add(v, pk, a).0, Node { depth: lz128(v.key ^ pk) as u8, addr: a }),
{
    lemma_add_files_peer(v, pk, a);
}

/// After compacting, one bucket is left or the last two buckets together hold more
/// than `CAPACITY` entries: compacting merges for as long as the last two fit in one.
pub proof fn lemma_compact_result<A: ToAddr>(v: KadView<A>)
    requires
        view_wf(v),
    ensures
        kad_compact(v).node.len() >= 1,
        kad_compact(v).node.len() == 1 || kad_compact(v).node[kad_compact(v).node.len() - 1].len()
            + kad_compact(v).node[kad_compact(v).node.len() - 2].len() > CAPACITY,
{
    lemma_compact_done(v);
    lemma_compact_keeps_entries(v, arbitrary());
}

/// The bucket that `find` reads for key `k` is the key masked with ours, taken as a
/// bucket index, and capped at the last bucket: an index at or past the last bucket
/// reads the last bucket.
pub proof fn lemma_find_index<A>(v: KadView<A>, k: u128)
    requires
        v.node.len() >= 1,
    ensures
        0 <= find_index(v, k) < v.node.len(),
        ((k & v.key) as usize as int) < v.node.len() - 1 ==> find_index(v, k) == (k & v.key) as usize as int,
        ((k & v.key) as usize as int) >= v.node.len() - 1 ==> find_index(v, k) == v.node.len() - 1,
{
}

/// Moving a known address to a new depth leaves every entry the table holds for it
/// at the new depth: the old entry is gone from every bucket. This holds when each
/// entry for the address sits at the depth the map files and in the bucket that
/// depth selects (the depth, or the last bucket for depths at or past it).
pub proof fn lemma_add_moves_peer<A: ToAddr>(v: KadView<A>, pk: u128, a: A)
    requires
        view_wf(v),
        v.addr.contains_key(a),
        forall|i: int, x: Node<A>|
            0 <= i < v.node.len() && #[trigger] v.node[i].contains(x) && x.addr == a ==> x.depth == v.addr[a]
                && i == (if (x.depth as int) < v.node.len() - 1 { x.depth as int } else { v.node.len() - 1 }),
    ensures
        forall|i: int, x: Node<A>|
            0 <= i < kad_add(v, pk, a).0.node.len() && #[trigger] kad_add(v, pk, a).0.node[i].contains(x)
                && x.addr == a ==> x.depth == lz128(v.key ^ pk),
{
    let w = kad_add(v, pk, a).0;
    let depth = depth_of(v.key, pk);
    let n = Node { depth: depth as u8, addr: a };
    let max = v.node.len() - 1;
    crate::kad::distance::lemma_lz128_bound(v.key ^ pk);
    if v.addr[a] == depth {
        assert(w == v);
    } else {
        let old = Node { depth: v.addr[a], addr: a };
        let b = if (v.addr[a] as int) < max {
            v.addr[a] as int
        } else {
            max
        };
        let node1 = v.node.update(b, bucket_remove(v.node[b], old));
        assert forall|i: int, x: Node<A>| 0 <= i < node1.len() && #[trigger] node1[i].contains(x) implies x.addr != a by {
            if i == b {
                lemma_remove_contains(v.node[b], old, x);
                if x.addr == a {
                    assert(v.node[b].contains(x));
                }
            } else if x.addr == a {
                assert(v.node[i].contains(x));
            }
        }
        assert forall|i: int, x: Node<A>|
            0 <= i < w.node.len() && #[trigger] w.node[i].contains(x) && x.addr == a implies x.depth == lz128(v.key ^ pk) by {
            if depth >= max && node1[max].len() == CAPACITY {
                if i < max {
                    assert(w.node[i] == node1[i]);
                    assert(node1[i].contains(x));
                } else if i == max {
                    lemma_split_contains(node1[max], max, x);
                    assert(node1[max].contains(x));
                } else {
                    lemma_sorted_remove(v.node[b], old);
                    assert(sorted(node1[max]));
                    lemma_sorted_deep(node1[max], max);
                    lemma_bucket_insert(deep(node1[max], max), n);
                    if x != n {
                        lemma_split_contains(node1[max], max, x);
                        assert(node1[max].contains(x));
                    }
                }
            } else {
                let at = if depth >= max {
                    max
                } else {
                    depth
                };
                if node1[at].len() < CAPACITY && !node1[at].contains(n) && i == at {
                    lemma_sorted_remove(v.node[b], old);
                    assert(sorted(node1[at]));
                    lemma_bucket_insert(node1[at], n);
                    if x != n {
                        assert(node1[at].contains(x));
                    }
                } else {
                    assert(w.node[i] == node1[i]);
                    assert(node1[i].contains(x));
                }
            }
        }
    }
}

} // verus!
