//! A Kademlia routing table. Peers are filed in buckets by depth: the number of
//! leading bits that their key shares with ours. Bucket `i` holds the peers at
//! depth `i`, except the last bucket, which holds every peer at its index or
//! deeper; when it is full it is split. A cache keeps, for each bucket, the
//! encodings of its addresses one after another.
use vstd::prelude::*;
use core::ops::RangeInclusive;

use crate::addr::ToAddr;
use crate::boxed::clone_boxed;
use crate::bytes::{be_value, u128_from_be_prefix};

pub mod distance;
pub mod laws;
pub mod node;
pub mod table;

use distance::{key_ranges, leading_zeros_u128, lz128, range_end, range_start};
use node::{
    bin, bucket_bin, bucket_insert, bucket_remove, bucket_union, deep, insert_node, remove_node,
    shallow, sorted, split_deep, union_into, Node,
};
use table::{distinct_keys, get_depth, pairs_map, set_depth};

verus! {

/// The number of key ranges, one per bit of a key.
pub const LEN: usize = 128;

/// The number of entries a bucket takes before it is full.
pub const CAPACITY: usize = 32;

/// A routing table for peers with addresses of type `A`.
pub struct Kad<A: ToAddr> {
    /// For each bucket, the encodings of its addresses one after another.
    pub cache: Vec<Box<[u8]>>,
    /// Our own key.
    pub key: u128,
    /// The buckets.
    pub node: Vec<Vec<Node<A>>>,
    /// The depth at which each known address was filed.
    pub addr: Vec<(A, u8)>,
}

/// What a routing table holds.
#[verifier::reject_recursive_types(A)]
pub struct KadView<A> {
    pub key: u128,
    pub node: Seq<Seq<Node<A>>>,
    pub cache: Seq<Seq<u8>>,
    pub addr: Map<A, u8>,
}

impl<A: ToAddr> View for Kad<A> {
    type V = KadView<A>;

    open spec fn view(&self) -> KadView<A> {
        KadView {
            key: self.key,
            node: self.node@.map_values(|b: Vec<Node<A>>| b@),
            cache: self.cache@.map_values(|c: Box<[u8]>| c@),
            addr: pairs_map(self.addr@),
        }
    }
}

/// A table's buckets: between 1 and 130 of them, one cache entry for each, each
/// bucket in order and holding at most one entry more than `CAPACITY`.
pub open spec fn view_wf<A: ToAddr>(v: KadView<A>) -> bool {
    &&& 1 <= v.node.len() <= 130
    &&& v.cache.len() == v.node.len()
    &&& forall|i: int| 0 <= i < v.node.len() ==> sorted(#[trigger] v.node[i])
    &&& forall|i: int| 0 <= i < v.node.len() ==> (#[trigger] v.node[i]).len() <= CAPACITY + 1
}

/// The depth at which a table with key `key` files a peer with key `pk`.
pub open spec fn depth_of(key: u128, pk: u128) -> int {
    lz128(key ^ pk)
}

/// The key that the first 16 bytes of a public key denote.
pub open spec fn key_of(pk: Seq<u8>) -> u128 {
    be_value(pk.take(16)) as u128
}

/// The table `v` after a peer with key `pk` and address `a` is added, and whether
/// it was added.
pub open spec fn kad_add<A: ToAddr>(v: KadView<A>, pk: u128, a: A) -> (KadView<A>, bool) {
    let depth = depth_of(v.key, pk);
    let n = Node { depth: depth as u8, addr: a };
    let max = v.node.len() - 1;
    if v.addr.contains_key(a) && v.addr[a] == depth {
        (v, false)
    } else {
        let node1 = if v.addr.contains_key(a) {
            let d = v.addr[a] as int;
            let b = if d < max {
                d
            } else {
                max
            };
            v.node.update(b, bucket_remove(v.node[b], Node { depth: v.addr[a], addr: a }))
        } else {
            v.node
        };
        if depth >= max && node1[max].len() == CAPACITY {
            let keep = shallow(node1[max], max);
            let fresh = bucket_insert(deep(node1[max], max), n);
            let added = !deep(node1[max], max).contains(n);
            (
                KadView {
                    key: v.key,
                    node: node1.update(max, keep).push(fresh),
                    cache: v.cache.update(max, bin(keep)).push(bin(fresh)),
                    addr: if added {
                        v.addr.insert(a, depth as u8)
                    } else {
                        v.addr
                    },
                },
                added,
            )
        } else {
            let at = if depth >= max {
                max
            } else {
                depth
            };
            if node1[at].len() < CAPACITY && !node1[at].contains(n) {
                let b = bucket_insert(node1[at], n);
                (
                    KadView {
                        key: v.key,
                        node: node1.update(at, b),
                        cache: v.cache.update(at, bin(b)),
                        addr: v.addr.insert(a, depth as u8),
                    },
                    true,
                )
            } else {
                (KadView { key: v.key, node: node1, cache: v.cache, addr: v.addr }, false)
            }
        }
    }
}

/// The table `v` after its last buckets are merged while the last two together
/// hold at most `CAPACITY` entries.
pub open spec fn kad_compact<A: ToAddr>(v: KadView<A>) -> KadView<A>
    decreases v.node.len(),
{
    if v.node.len() >= 2 && v.node[v.node.len() - 1].len() + v.node[v.node.len() - 2].len()
        <= CAPACITY {
        let max = v.node.len() - 1;
        let merged = bucket_union(v.node[max - 1], v.node[max]);
        kad_compact(
            KadView {
                key: v.key,
                node: v.node.drop_last().update(max - 1, merged),
                cache: v.cache.drop_last().update(max - 1, bin(merged)),
                addr: v.addr,
            },
        )
    } else {
        v
    }
}

impl<A: ToAddr> Kad<A> {
    /// The table is well formed: its buckets are as `view_wf` says and no address
    /// is filed twice.
    pub open spec fn wf(&self) -> bool {
        &&& view_wf(self@)
        &&& distinct_keys(self.addr@)
    }

    /// An empty table whose key is the first 16 bytes of `key`.
    pub fn new(key: &[u8]) -> (r: Self)
        requires
            key@.len() >= 16,
        ensures
            r.wf(),
            r@.key == key_of(key@),
            r@.node == seq![Seq::<Node<A>>::empty()],
            r@.cache == seq![Seq::<u8>::empty()],
            r@.addr == Map::<A, u8>::empty(),
    {
        let k = u128_from_be_prefix(key);
        let mut node: Vec<Vec<Node<A>>> = Vec::new();
        node.push(Vec::new());
        let mut cache: Vec<Box<[u8]>> = Vec::new();
        cache.push(crate::boxed::into_boxed(Vec::new()));
        let r = Kad { cache, key: k, node, addr: Vec::new() };
        assert(r@.node =~= seq![Seq::<Node<A>>::empty()]);
        assert(r@.cache =~= seq![Seq::<u8>::empty()]);
        assert(r@.addr =~= Map::<A, u8>::empty());
        r
    }

    /// The cached encodings of the bucket that `key` selects: its first 16 bytes,
    /// masked with our key, taken as a bucket index and capped at the last bucket.
    pub fn find(&self, key: &[u8]) -> (r: Box<[u8]>)
        requires
            self.wf(),
            key@.len() >= 16,
        ensures
            r@ == self@.cache[find_index(self@, key_of(key@))],
            ((key_of(key@) & self@.key) as usize as int) < self@.node.len() - 1 ==> r@
                == self@.cache[(key_of(key@) & self@.key) as usize as int],
            ((key_of(key@) & self@.key) as usize as int) >= self@.node.len() - 1 ==> r@
                == self@.cache[self@.node.len() - 1],
    {
        let k = u128_from_be_prefix(key);
        let depth = (k & self.key) as usize;
        let last = self.node.len() - 1;
        let i = if depth < last {
            depth
        } else {
            last
        };
        clone_boxed(&self.cache[i])
    }

    /// Whether the table holds no peer in its only bucket.
    pub fn is_empty(&self) -> (r: bool)
        requires
            self.wf(),
        ensures
            r == (self@.node.len() == 1 && self@.node[0].len() == 0),
    {
        self.node.len() == 1 && self.node[0].len() == 0
    }

    /// Adds a peer with public key `pk` and address `addr`; returns whether it was
    /// added.
    pub fn add(&mut self, pk: &[u8], addr: A) -> (r: bool)
        requires
            old(self).wf(),
            pk@.len() >= 16,
        ensures
            final(self).wf(),
            (final(self)@, r) == kad_add(old(self)@, key_of(pk@), addr),
            r ==> final(self)@.addr.contains_key(addr) && final(self)@.addr[addr] == lz128(
                old(self)@.key ^ key_of(pk@),
            ),
    {
        let ghost v = self@;
        let pkv = u128_from_be_prefix(pk);
        let lz = leading_zeros_u128(self.key ^ pkv);
        let depth = lz as u8;
        let max = self.node.len() - 1;
        let n = Node { depth, addr };
        proof {
            assert(v.node.len() == self.node@.len());
        }
        match get_depth(&self.addr, &addr) {
            Some(d) => {
                if d == depth {
                    return false;
                }
                let b = if (d as usize) < max {
                    d as usize
                } else {
                    max
                };
                proof {
                    assert(self@.node[b as int] == self.node@[b as int]@);
                    assert(sorted(self.node@[b as int]@));
                    node::lemma_bucket_lens(self.node@[b as int]@, Node { depth: d, addr }, 0);
                }
                remove_node(&mut self.node[b], Node { depth: d, addr });
                proof {
                    assert(self@.node =~= v.node.update(
                        b as int,
                        bucket_remove(v.node[b as int], Node { depth: d, addr }),
                    ));
                }
            },
            None => {},
        }
        let ghost node1 = self@.node;
        proof {
            assert(forall|i: int| 0 <= i < node1.len() ==> sorted(#[trigger] node1[i]));
            assert(forall|i: int| 0 <= i < node1.len() ==> (#[trigger] node1[i]).len() <= CAPACITY + 1);
        }
        let max_u8 = max as u8;
        proof {
            assert(self@.node[max as int] == self.node@[max as int]@);
        }
        let at: usize;
        if depth >= max_u8 {
            if self.node[max].len() == CAPACITY {
                let mut fresh = split_deep(&mut self.node[max], max_u8);
                let c = bucket_bin(&self.node[max]);
                self.cache.set(max, c);
                proof {
                    node::lemma_bucket_lens(node1[max as int], n, max as int);
                    node::lemma_bucket_lens(deep(node1[max as int], max as int), n, max as int);
                }
                let added = insert_node(&mut fresh, n);
                if added {
                    set_depth(&mut self.addr, addr, depth);
                }
                let cf = bucket_bin(&fresh);
                self.cache.push(cf);
                self.node.push(fresh);
                proof {
                    let keep = shallow(node1[max as int], max as int);
                    let fr = bucket_insert(deep(node1[max as int], max as int), n);
                    assert(self@.node =~= node1.update(max as int, keep).push(fr));
                    assert(self@.cache =~= v.cache.update(max as int, bin(keep)).push(bin(fr)));
                    if added {
                        assert(self@.addr == v.addr.insert(addr, depth));
                    }
                }
                return added;
            }
            at = max;
        } else {
            at = depth as usize;
        }
        if self.node[at].len() < CAPACITY {
            proof {
                assert(self@.node[at as int] == self.node@[at as int]@);
                node::lemma_bucket_lens(node1[at as int], n, 0);
            }
            if insert_node(&mut self.node[at], n) {
                let c = bucket_bin(&self.node[at]);
                self.cache.set(at, c);
                set_depth(&mut self.addr, addr, depth);
                proof {
                    let b = bucket_insert(node1[at as int], n);
                    assert(self@.node =~= node1.update(at as int, b));
                    assert(self@.cache =~= v.cache.update(at as int, bin(b)));
                }
                return true;
            }
            proof {
                node::lemma_bucket_insert(node1[at as int], n);
                assert(self@.node =~= node1);
            }
        }
        false
    }

    /// Merges the last buckets while the last two together hold at most `CAPACITY`
    /// entries.
    pub fn compact(&mut self)
        requires
            old(self).wf(),
        ensures
            final(self).wf(),
            final(self)@ == kad_compact(old(self)@),
            final(self)@.node.len() == 1 || final(self)@.node[final(self)@.node.len() - 1].len()
                + final(self)@.node[final(self)@.node.len() - 2].len() > CAPACITY,
    {
        let mut max = self.node.len() - 1;
        while max > 0 && self.node[max].len() + self.node[max - 1].len() <= CAPACITY
            invariant
                self.wf(),
                max == self.node@.len() - 1,
                kad_compact(self@) == kad_compact(old(self)@),
            decreases max,
        {
            let ghost v = self@;
            proof {
                assert(v.node[max as int] == self.node@[max as int]@);
                assert(v.node[max - 1] == self.node@[max - 1]@);
            }
            let last = self.node.pop().unwrap();
            max = max - 1;
            proof {
                node::lemma_union_len(self.node@[max as int]@, last@);
                node::lemma_bucket_lens(self.node@[max as int]@, last@[0], 0);
            }
            union_into(&mut self.node[max], &last);
            self.cache.pop();
            let c = bucket_bin(&self.node[max]);
            self.cache.set(max, c);
            proof {
                let merged = bucket_union(v.node[max as int], v.node[max as int + 1]);
                assert(self@.node =~= v.node.drop_last().update(max as int, merged));
                assert(self@.cache =~= v.cache.drop_last().update(max as int, bin(merged)));
            }
        }
    }

    /// The key ranges of the buckets: range `i` holds the keys at depth `i` from
    /// ours.
    pub fn range(&self) -> (r: Vec<RangeInclusive<u128>>)
        ensures
            r@.len() == LEN,
            forall|i: int|
                0 <= i < LEN ==> {
                    &&& (#[trigger] r@[i])@.start == range_start(self.key, i)
                    &&& r@[i]@.end == range_end(self.key, i)
                    &&& !r@[i]@.exhausted
                },
    {
        key_ranges(self.key)
    }
}

/// The bucket that `find` reads for key `k`.
pub open spec fn find_index<A>(v: KadView<A>, k: u128) -> int {
    let depth = (k & v.key) as usize as int;
    if depth < v.node.len() - 1 {
        depth
    } else {
        v.node.len() - 1
    }
}

} // verus!
