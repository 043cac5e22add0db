//! The depth at which each known address is filed, kept as a vector of pairs with
//! distinct addresses and read as a map.
use vstd::prelude::*;

use crate::addr::ToAddr;

verus! {

/// No address occurs twice among the pairs.
pub open spec fn distinct_keys<A>(s: Seq<(A, u8)>) -> bool {
    forall|i: int, j: int| 0 <= i < j < s.len() ==> (#[trigger] s[i]).0 != (#[trigger] s[j]).0
}

/// The map that a list of pairs denotes.
pub open spec fn pairs_map<A>(s: Seq<(A, u8)>) -> Map<A, u8>
    decreases s.len(),
{
    if s.len() == 0 {
        Map::empty()
    } else {
        pairs_map(s.drop_last()).insert(s.last().0, s.last().1)
    }
}

/// The map holds exactly the addresses of the pairs.
pub proof fn lemma_pairs_map_dom<A>(s: Seq<(A, u8)>, k: A)
    ensures
        pairs_map(s).contains_key(k) <==> exists|i: int| 0 <= i < s.len() && (#[trigger] s[i]).0 == k,
    decreases s.len(),
{
    if s.len() > 0 {
        let t = s.drop_last();
        lemma_pairs_map_dom(t, k);
        if pairs_map(s).contains_key(k) {
            if s.last().0 != k {
                let i = choose|i: int| 0 <= i < t.len() && (#[trigger] t[i]).0 == k;
                assert(s[i] == t[i]);
            } else {
                assert(s[s.len() - 1].0 == k);
            }
        }
        if exists|i: int| 0 <= i < s.len() && (#[trigger] s[i]).0 == k {
            let i = choose|i: int| 0 <= i < s.len() && (#[trigger] s[i]).0 == k;
            if i < s.len() - 1 {
                assert(t[i] == s[i]);
            }
        }
    }
}

/// With distinct addresses, the map gives each address the depth of its pair.
pub proof fn lemma_pairs_map_index<A>(s: Seq<(A, u8)>, i: int)
    requires
        distinct_keys(s),
        0 <= i < s.len(),
    ensures
        pairs_map(s).contains_key(s[i].0),
        pairs_map(s)[s[i].0] == s[i].1,
    decreases s.len(),
{
    let t = s.drop_last();
    if i < s.len() - 1 {
        assert(distinct_keys(t));
        assert(t[i] == s[i]);
        lemma_pairs_map_index(t, i);
        assert(s[i].0 != s.last().0);
    }
}

/// Changing the depth of the pair at `i` changes the map at that address only.
pub proof fn lemma_pairs_map_update<A>(s: Seq<(A, u8)>, i: int, d: u8)
    requires
        distinct_keys(s),
        0 <= i < s.len(),
    ensures
        distinct_keys(s.update(i, (s[i].0, d))),
        pairs_map(s.update(i, (s[i].0, d))) == pairs_map(s).insert(s[i].0, d),
{
    let u = s.update(i, (s[i].0, d));
    assert(distinct_keys(u)) by {
        assert forall|a: int, b: int| 0 <= a < b < u.len() implies (#[trigger] u[a]).0 != (#[trigger] u[b]).0 by {
            assert(u[a].0 == s[a].0 && u[b].0 == s[b].0);
        }
    }
    let m1 = pairs_map(u);
    let m2 = pairs_map(s).insert(s[i].0, d);
    assert forall|k: A| #[trigger] m1.contains_key(k) <==> m2.contains_key(k) by {
        lemma_pairs_map_dom(u, k);
        lemma_pairs_map_dom(s, k);
        if exists|j: int| 0 <= j < s.len() && (#[trigger] s[j]).0 == k {
            let j = choose|j: int| 0 <= j < s.len() && (#[trigger] s[j]).0 == k;
            assert(u[j].0 == k);
        }
        if exists|j: int| 0 <= j < u.len() && (#[trigger] u[j]).0 == k {
            let j = choose|j: int| 0 <= j < u.len() && (#[trigger] u[j]).0 == k;
            assert(s[j].0 == k);
        }
    }
    assert forall|k: A| m1.contains_key(k) implies #[trigger] m1[k] == m2[k] by {
        lemma_pairs_map_dom(u, k);
        let j = choose|j: int| 0 <= j < u.len() && (#[trigger] u[j]).0 == k;
        lemma_pairs_map_index(u, j);
        if j != i {
            lemma_pairs_map_index(s, j);
        }
    }
    assert(m1 =~= m2);
}

/// Adding a pair for a new address keeps the addresses distinct.
pub proof fn lemma_pairs_push<A>(s: Seq<(A, u8)>, a: A, d: u8)
    requires
        distinct_keys(s),
        forall|j: int| 0 <= j < s.len() ==> (#[trigger] s[j]).0 != a,
    ensures
        distinct_keys(s.push((a, d))),
        pairs_map(s.push((a, d))) == pairs_map(s).insert(a, d),
{
    let u = s.push((a, d));
    assert(u.drop_last() =~= s);
    assert forall|x: int, y: int| 0 <= x < y < u.len() implies (#[trigger] u[x]).0 != (#[trigger] u[y]).0 by {
        assert(u[x] == s[x]);
        if y < s.len() {
            assert(u[y] == s[y]);
        }
    }
}

/// The position of the pair for `a`, if there is one.
pub fn find_pair<A: ToAddr>(t: &Vec<(A, u8)>, a: &A) -> (r: Option<usize>)
    ensures
        match r {
            Some(i) => i < t@.len() && t@[i as int].0 == *a,
            None => forall|j: int| 0 <= j < t@.len() ==> (#[trigger] t@[j]).0 != *a,
        },
{
    let mut i: usize = 0;
    while i < t.len()
        invariant
            i <= t@.len(),
            forall|j: int| 0 <= j < i ==> (#[trigger] t@[j]).0 != *a,
        decreases t@.len() - i,
    {
        let k = t[i].0;
        proof {
            A::lemma_rank_injective(k, *a);
        }
        if !k.rank_lt(a) && !a.rank_lt(&k) {
            return Some(i);
        }
        i = i + 1;
    }
    None
}

/// The depth filed for `a`, if any (`BTreeMap::get`).
pub fn get_depth<A: ToAddr>(t: &Vec<(A, u8)>, a: &A) -> (r: Option<u8>)
    requires
        distinct_keys(t@),
    ensures
        r == (if pairs_map(t@).contains_key(*a) { Some(pairs_map(t@)[*a]) } else { None::<u8> }),
{
    match find_pair(t, a) {
        Some(i) => {
            proof {
                lemma_pairs_map_index(t@, i as int);
            }
            Some(t[i].1)
        },
        None => {
            proof {
                lemma_pairs_map_dom(t@, *a);
            }
            None
        },
    }
}

/// Files `a` at depth `d` (`BTreeMap::insert`).
pub fn set_depth<A: ToAddr>(t: &mut Vec<(A, u8)>, a: A, d: u8)
    requires
        distinct_keys(old(t)@),
    ensures
        distinct_keys(final(t)@),
        pairs_map(final(t)@) == pairs_map(old(t)@).insert(a, d),
{
    match find_pair(t, &a) {
        Some(i) => {
            proof {
                lemma_pairs_map_update(t@, i as int, d);
            }
            t.set(i, (a, d));
        },
        None => {
            proof {
                lemma_pairs_push(t@, a, d);
            }
            t.push((a, d));
        },
    }
}

} // verus!
