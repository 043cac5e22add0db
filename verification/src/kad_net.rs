//! The decisions of the routing-table upkeep loop. Each round the caller reads,
//! for every key range of the table, the peers that the store holds in it; the
//! round then pings all of them, or the boot peers when the store holds none. After
//! a short pause the loop waits, longer when the table has peers.
use vstd::prelude::*;

verus! {

/// The seconds the loop pauses after a round before it looks at the table.
pub const SETTLE_SECS: u64 = 3;

/// What a round of the upkeep loop does.
pub enum Round<A> {
    /// Ping these peers, in this order.
    Ping(Vec<A>),
    /// The store holds no peer: ping the boot peers.
    Boot,
}

/// The lists of `found`, each by its view.
pub open spec fn lists<A>(found: Seq<Vec<A>>) -> Seq<Seq<A>> {
    found.map_values(|v: Vec<A>| v@)
}

/// Decides a round from `found`, the peers read for each key range in turn: ping
/// them all, in order, or the boot peers when every list is empty.
pub fn kad_round<A: Copy>(found: &Vec<Vec<A>>) -> (r: Round<A>)
    ensures
        (forall|i: int| 0 <= i < found@.len() ==> (#[trigger] found@[i])@.len() == 0) <==> r is Boot,
        r matches Round::Ping(v) ==> v@ == lists(found@).flatten(),
{
    let mut v: Vec<A> = Vec::new();
    let mut empty = true;
    let mut i: usize = 0;
    while i < found.len()
        invariant
            i <= found@.len(),
            v@ == lists(found@.take(i as int)).flatten_alt(),
            empty == (forall|k: int| 0 <= k < i ==> (#[trigger] found@[k])@.len() == 0),
        decreases found@.len() - i,
    {
        let li = &found[i];
        let ghost base = v@;
        let mut j: usize = 0;
        while j < li.len()
            invariant
                j <= li@.len(),
                li == found@[i as int],
                v@ == base + li@.take(j as int),
            decreases li@.len() - j,
        {
            v.push(li[j]);
            j = j + 1;
            assert(v@ =~= base + li@.take(j as int));
        }
        if li.len() > 0 {
            empty = false;
        }
        proof {
            assert(li@.take(j as int) =~= li@);
            let t = lists(found@.take(i as int + 1));
            assert(t.drop_last() =~= lists(found@.take(i as int)));
            assert(t.last() == li@);
        }
        i = i + 1;
    }
    proof {
        assert(found@.take(i as int) =~= found@);
        lists(found@).lemma_flatten_and_flatten_alt_are_equivalent();
    }
    if empty {
        Round::Boot
    } else {
        Round::Ping(v)
    }
}

/// The seconds the loop waits after its pause: 30 while the table is empty, else 60.
pub fn kad_wait(table_empty: bool) -> (s: u64)
    ensures
        s == if table_empty { 30u64 } else { 60u64 },
{
    if table_empty {
        30
    } else {
        60
    }
}

} // verus!
