//! The sweep of a map whose entries expire: each tick looks at a few entries after
//! a cursor, removes those that have expired, and looks further the more it finds.
use vstd::prelude::*;
use vstd::wrapping::u64_specs::wrapping_sub;

verus! {

/// The number of entries a sweep looks at when none has expired.
pub const SIMPLE: usize = 2;

/// How many more entries a sweep looks at for each expired entry it finds.
pub const SWEEP_STEP: usize = 16;

/// An entry set at second `t` has expired at second `now` (counting with wrap-around).
pub open spec fn expired(now: u64, t: u64, timeout: u64) -> bool {
    wrapping_sub(now, t) > timeout
}

/// The number of expired entries among `e`.
pub open spec fn n_expired<K>(e: Seq<(K, u64)>, now: u64, timeout: u64) -> nat
    decreases e.len(),
{
    if e.len() == 0 {
        0
    } else {
        n_expired(e.drop_last(), now, timeout) + if expired(now, e.last().1, timeout) {
            1nat
        } else {
            0nat
        }
    }
}

/// The keys of the expired entries among `e`, in order.
pub open spec fn expired_keys<K>(e: Seq<(K, u64)>, now: u64, timeout: u64) -> Seq<K>
    decreases e.len(),
{
    if e.len() == 0 {
        Seq::empty()
    } else if expired(now, e.last().1, timeout) {
        expired_keys(e.drop_last(), now, timeout).push(e.last().0)
    } else {
        expired_keys(e.drop_last(), now, timeout)
    }
}

/// A sweep stops after the entry at `j`: it has looked at as many entries as
/// `SIMPLE` plus `SWEEP_STEP` for each expired one among them.
pub open spec fn stops_at<K>(e: Seq<(K, u64)>, now: u64, timeout: u64, j: int) -> bool {
    j + 1 >= SIMPLE + SWEEP_STEP * n_expired(e.take(j + 1), now, timeout)
}

/// `remove` and `next` are what a sweep of `e` decides: when it stops after no
/// entry, the keys of all expired entries and the old cursor (or none, for fewer
/// than `SIMPLE` entries); else, for the first entry `j` after which it stops, the
/// keys of the expired entries up to `j` and the key of entry `j`.
pub open spec fn swept<K>(
    e: Seq<(K, u64)>,
    now: u64,
    timeout: u64,
    cursor: Option<K>,
    remove: Seq<K>,
    next: Option<K>,
) -> bool {
    &&& (forall|j: int| 0 <= j < e.len() ==> !#[trigger] stops_at(e, now, timeout, j)) ==> {
        &&& remove == expired_keys(e, now, timeout)
        &&& next == (if e.len() < SIMPLE {
            None
        } else {
            cursor
        })
    }
    &&& forall|j: int|
        0 <= j < e.len() && #[trigger] stops_at(e, now, timeout, j) && (forall|i: int|
            0 <= i < j ==> !stops_at(e, now, timeout, i)) ==> {
            &&& remove == expired_keys(e.take(j + 1), now, timeout)
            &&& next == Some(e[j].0)
        }
}

/// `k` is the key of an expired entry of `e`.
pub open spec fn key_expired<K>(e: Seq<(K, u64)>, now: u64, timeout: u64, k: K) -> bool {
    exists|j: int| 0 <= j < e.len() && #[trigger] e[j] == (k, e[j].1) && expired(now, e[j].1, timeout)
}

/// The expired keys of `e` are exactly the keys of its expired entries: each comes
/// from an expired entry, and each expired entry gives its key.
pub proof fn lemma_expired_keys<K>(e: Seq<(K, u64)>, now: u64, timeout: u64)
    ensures
        forall|i: int| 0 <= i < expired_keys(e, now, timeout).len() ==> key_expired(
            e,
            now,
            timeout,
            #[trigger] expired_keys(e, now, timeout)[i],
        ),
        forall|j: int| 0 <= j < e.len() && expired(now, #[trigger] e[j].1, timeout) ==> expired_keys(e, now, timeout).contains(e[j].0),
    decreases e.len(),
{
    if e.len() > 0 {
        let t = e.drop_last();
        lemma_expired_keys(t, now, timeout);
        let x = expired_keys(e, now, timeout);
        let y = expired_keys(t, now, timeout);
        assert forall|i: int| 0 <= i < x.len() implies key_expired(e, now, timeout, #[trigger] x[i]) by {
            if i < y.len() {
                assert(x[i] == y[i]);
                assert(key_expired(t, now, timeout, y[i]));
                let j = choose|j: int| 0 <= j < t.len() && #[trigger] t[j] == (y[i], t[j].1) && expired(now, t[j].1, timeout);
                assert(e[j] == t[j]);
            } else {
                let j = e.len() - 1;
                assert(e[j] == (x[i], e[j].1));
            }
        }
        assert forall|j: int| 0 <= j < e.len() && expired(now, #[trigger] e[j].1, timeout) implies x.contains(e[j].0) by {
            if j < e.len() - 1 {
                assert(e[j] == t[j]);
                assert(y.contains(t[j].0));
                let k = choose|k: int| 0 <= k < y.len() && y[k] == t[j].0;
                assert(x[k] == y[k]);
            } else {
                assert(x[x.len() - 1] == e[j].0);
            }
        }
    }
}

/// A sweep removes only keys of entries that have expired.
pub proof fn lemma_sweep_removes_expired<K>(
    e: Seq<(K, u64)>,
    now: u64,
    timeout: u64,
    cursor: Option<K>,
    remove: Seq<K>,
    next: Option<K>,
)
    requires
        swept(e, now, timeout, cursor, remove, next),
    ensures
        forall|i: int| 0 <= i < remove.len() ==> key_expired(e, now, timeout, #[trigger] remove[i]),
{
    if forall|j: int| 0 <= j < e.len() ==> !#[trigger] stops_at(e, now, timeout, j) {
        lemma_expired_keys(e, now, timeout);
    } else {
        let j0 = choose|j: int| 0 <= j < e.len() && #[trigger] stops_at(e, now, timeout, j);
        let j = first_stop(e, now, timeout, j0);
        let p = e.take(j + 1);
        lemma_expired_keys(p, now, timeout);
        assert forall|i: int| 0 <= i < remove.len() implies key_expired(e, now, timeout, #[trigger] remove[i]) by {
            assert(key_expired(p, now, timeout, remove[i]));
            let k = choose|k: int| 0 <= k < p.len() && #[trigger] p[k] == (remove[i], p[k].1) && expired(now, p[k].1, timeout);
            assert(e[k] == p[k]);
        }
    }
}

/// The first entry, at or before `j`, after which a sweep stops.
proof fn first_stop<K>(e: Seq<(K, u64)>, now: u64, timeout: u64, j: int) -> (f: int)
    requires
        0 <= j < e.len(),
        stops_at(e, now, timeout, j),
    ensures
        0 <= f <= j,
        stops_at(e, now, timeout, f),
        forall|i: int| 0 <= i < f ==> !stops_at(e, now, timeout, i),
    decreases j,
{
    if exists|i: int| 0 <= i < j && stops_at(e, now, timeout, i) {
        let i = choose|i: int| 0 <= i < j && stops_at(e, now, timeout, i);
        first_stop(e, now, timeout, i)
    } else {
        j
    }
}

/// What a sweep decides: the keys to remove and where the next sweep starts.
pub struct Sweep<K> {
    pub remove: Vec<K>,
    pub cursor: Option<K>,
}

/// Sweeps `e`, the entries after the cursor `cursor` up to the last key, in key
/// order, each with the second it was set at. The sweep stops after the first entry
/// at which `stops_at` holds, and the next sweep starts after that entry; when it
/// runs through all the entries, the cursor stays, unless there were fewer than
/// `SIMPLE` entries, in which case the next sweep starts from the first key.
pub fn sweep<K: Copy>(e: &Vec<(K, u64)>, now: u64, timeout: u64, cursor: Option<K>) -> (r: Sweep<K>)
    ensures
        swept(e@, now, timeout, cursor, r.remove@, r.cursor),
{
    let mut remove: Vec<K> = Vec::new();
    let mut stop: u128 = SIMPLE as u128;
    let mut n: usize = 0;
    while n < e.len()
        invariant
            n <= e@.len(),
            stop == SIMPLE + SWEEP_STEP * n_expired(e@.take(n as int), now, timeout),
            n_expired(e@.take(n as int), now, timeout) <= n,
            remove@ == expired_keys(e@.take(n as int), now, timeout),
            forall|i: int| 0 <= i < n ==> !#[trigger] stops_at(e@, now, timeout, i),
        decreases e@.len() - n,
    {
        let (k, t) = e[n];
        proof {
            assert(e@.take(n as int + 1).drop_last() =~= e@.take(n as int));
            assert(e@.take(n as int + 1).last() == e@[n as int]);
            assert(n_expired(e@.take(n as int + 1), now, timeout) == n_expired(e@.take(n as int), now, timeout)
                + if expired(now, t, timeout) { 1nat } else { 0nat });
            assert(expired_keys(e@.take(n as int + 1), now, timeout) == if expired(now, t, timeout) {
                expired_keys(e@.take(n as int), now, timeout).push(k)
            } else {
                expired_keys(e@.take(n as int), now, timeout)
            });
        }
        if now.wrapping_sub(t) > timeout {
            remove.push(k);
            stop = stop + SWEEP_STEP as u128;
        }
        n = n + 1;
        if n as u128 >= stop {
            proof {
                assert(stops_at(e@, now, timeout, n - 1));
            }
            return Sweep { remove, cursor: Some(k) };
        }
    }
    proof {
        assert(e@.take(n as int) =~= e@);
    }
    if n < SIMPLE {
        Sweep { remove, cursor: None }
    } else {
        Sweep { remove, cursor }
    }
}

/// How a sweep ends, stated by the count of expired entries itself: it stops after
/// the first entry `j` at which it has looked at `SIMPLE` entries plus `SWEEP_STEP`
/// more for every expired entry among the first `j + 1`, removing the expired keys
/// up to there and moving the cursor to entry `j`; when there is no such entry it
/// removes every expired key and keeps the cursor (none, for fewer than `SIMPLE`
/// entries).
pub proof fn lemma_sweep_stop_rule<K>(
    e: Seq<(K, u64)>,
    now: u64,
    timeout: u64,
    cursor: Option<K>,
    remove: Seq<K>,
    next: Option<K>,
)
    requires
        swept(e, now, timeout, cursor, remove, next),
    ensures
        (forall|j: int| 0 <= j < e.len() ==> j + 1 < SIMPLE + SWEEP_STEP * #[trigger] n_expired(e.take(j + 1), now, timeout))
            ==> remove == expired_keys(e, now, timeout) && next == (if e.len() < SIMPLE {
            None
        } else {
            cursor
        }),
        forall|j: int|
            0 <= j < e.len() && j + 1 >= SIMPLE + SWEEP_STEP * #[trigger] n_expired(e.take(j + 1), now, timeout)
                && (forall|i: int| 0 <= i < j ==> i + 1 < SIMPLE + SWEEP_STEP * #[trigger] n_expired(e.take(i + 1), now, timeout))
                ==> remove == expired_keys(e.take(j + 1), now, timeout) && next == Some(e[j].0),
{
    if forall|j: int| 0 <= j < e.len() ==> j + 1 < SIMPLE + SWEEP_STEP * #[trigger] n_expired(e.take(j + 1), now, timeout) {
        assert forall|j: int| 0 <= j < e.len() implies !#[trigger] stops_at(e, now, timeout, j) by {
            assert(j + 1 < SIMPLE + SWEEP_STEP * n_expired(e.take(j + 1), now, timeout));
        }
    }
    assert forall|j: int|
        0 <= j < e.len() && j + 1 >= SIMPLE + SWEEP_STEP * #[trigger] n_expired(e.take(j + 1), now, timeout)
            && (forall|i: int| 0 <= i < j ==> i + 1 < SIMPLE + SWEEP_STEP * #[trigger] n_expired(e.take(i + 1), now, timeout))
        implies remove == expired_keys(e.take(j + 1), now, timeout) && next == Some(e[j].0) by {
        assert(stops_at(e, now, timeout, j));
        assert forall|i: int| 0 <= i < j implies !stops_at(e, now, timeout, i) by {
            assert(i + 1 < SIMPLE + SWEEP_STEP * n_expired(e.take(i + 1), now, timeout));
        }
    }
}

/// When every entry is expired, the count of expired entries is the number of
/// entries, and the expired keys are all the keys, in order.
proof fn lemma_all_expired<K>(e: Seq<(K, u64)>, now: u64, timeout: u64)
    requires
        forall|j: int| 0 <= j < e.len() ==> expired(now, #[trigger] e[j].1, timeout),
    ensures
        n_expired(e, now, timeout) == e.len(),
        expired_keys(e, now, timeout) == e.map_values(|p: (K, u64)| p.0),
    decreases e.len(),
{
    if e.len() > 0 {
        let t = e.drop_last();
        assert forall|j: int| 0 <= j < t.len() implies expired(now, #[trigger] t[j].1, timeout) by {
            assert(t[j] == e[j]);
        }
        lemma_all_expired(t, now, timeout);
        assert(expired(now, e[e.len() - 1].1, timeout));
        assert(e.map_values(|p: (K, u64)| p.0) =~= t.map_values(|p: (K, u64)| p.0).push(e.last().0));
    }
}

/// A sweep over entries that have all expired looks at them all: it removes every
/// key, in order, and keeps the cursor (none, for fewer than `SIMPLE` entries).
pub proof fn lemma_sweep_all_expired<K>(
    e: Seq<(K, u64)>,
    now: u64,
    timeout: u64,
    cursor: Option<K>,
    remove: Seq<K>,
    next: Option<K>,
)
    requires
        swept(e, now, timeout, cursor, remove, next),
        forall|j: int| 0 <= j < e.len() ==> expired(now, #[trigger] e[j].1, timeout),
    ensures
        remove == e.map_values(|p: (K, u64)| p.0),
        next == (if e.len() < SIMPLE {
            None
        } else {
            cursor
        }),
{
    lemma_sweep_stop_rule(e, now, timeout, cursor, remove, next);
    assert forall|j: int| 0 <= j < e.len() implies j + 1 < SIMPLE + SWEEP_STEP * #[trigger] n_expired(
        e.take(j + 1),
        now,
        timeout,
    ) by {
        let p = e.take(j + 1);
        assert forall|k: int| 0 <= k < p.len() implies expired(now, #[trigger] p[k].1, timeout) by {
            assert(p[k] == e[k]);
        }
        lemma_all_expired(p, now, timeout);
    }
    lemma_all_expired(e, now, timeout);
}

/// The seconds between two ticks of the expiry timer: one more than the timeout.
pub fn tick_secs(timeout: u64) -> (r: u64)
    requires
        timeout < u64::MAX,
    ensures
        r == timeout + 1,
{
    1 + timeout
}

/// What the expiry timer does at a tick.
pub enum TimerStep<K> {
    /// The map is empty: wait for the next tick, keeping the cursor.
    Wait,
    /// Remove these keys, report each as expired, and wait for the next tick with
    /// the new cursor.
    Expire(Sweep<K>),
    /// The sweep found nothing expired: the timer stops.
    Stop,
}

/// Decides a tick of the expiry timer. `entries` is `None` when the map is empty,
/// else the entries after the cursor up to the last key, in key order, each with
/// the second it was set at.
pub fn timer_step<K: Copy>(entries: Option<&Vec<(K, u64)>>, now: u64, timeout: u64, cursor: Option<K>) -> (r: TimerStep<K>)
    ensures
        entries is None <==> r is Wait,
        entries matches Some(e) ==> match r {
            TimerStep::Expire(s) => s.remove@.len() > 0 && swept(e@, now, timeout, cursor, s.remove@, s.cursor),
            TimerStep::Stop => exists|next: Option<K>| swept(e@, now, timeout, cursor, Seq::empty(), next),
            TimerStep::Wait => false,
        },
{
    match entries {
        None => TimerStep::Wait,
        Some(e) => {
            let r = sweep(e, now, timeout, cursor);
            if r.remove.len() == 0 {
                proof {
                    assert(r.remove@ =~= Seq::<K>::empty());
                }
                TimerStep::Stop
            } else {
                TimerStep::Expire(r)
            }
        },
    }
}

} // verus!
