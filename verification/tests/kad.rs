use rmw::addr::{AddrV4, ToBytes};
use rmw::kad::distance::{leading_zeros_u128, midpoint};
use rmw::kad::node::Node;
use rmw::kad::{Kad, CAPACITY, LEN};

fn pk_at_depth(d: u32, low: u128) -> Vec<u8> {
    // Key 0 is ours; a key whose top set bit is bit 127 - d is at depth d.
    let k: u128 = (1u128 << (127 - d)) | low;
    k.to_be_bytes().to_vec()
}

fn addr(i: u8, j: u8) -> AddrV4 {
    AddrV4 { ip: [10, 0, i, j], port: 4000 + i as u16 }
}

#[test]
fn new_table_is_empty() {
    let kad: Kad<AddrV4> = Kad::new(&[0u8; 16]);
    assert!(kad.is_empty());
    assert_eq!(kad.node.len(), 1);
    assert_eq!(kad.cache.len(), 1);
    assert_eq!(kad.key, 0);
}

#[test]
fn add_files_peer_and_caches() {
    let mut kad: Kad<AddrV4> = Kad::new(&[0u8; 16]);
    let a = addr(1, 1);
    assert!(kad.add(&pk_at_depth(3, 0), a));
    assert!(!kad.is_empty());
    assert_eq!(kad.node[0].len(), 1);
    assert_eq!(kad.node[0][0].depth, 3);
    assert_eq!(&kad.cache[0][..], &a.to_bytes()[..]);
    // The same peer at the same depth is not added again.
    assert!(!kad.add(&pk_at_depth(3, 5), a));
}

#[test]
fn bucket_is_sorted_by_depth_then_address() {
    let mut kad: Kad<AddrV4> = Kad::new(&[0u8; 16]);
    let a = addr(2, 2);
    let b = addr(1, 1);
    let c = addr(3, 3);
    assert!(kad.add(&pk_at_depth(5, 0), a));
    assert!(kad.add(&pk_at_depth(5, 1), b));
    assert!(kad.add(&pk_at_depth(2, 0), c));
    let got: Vec<(u8, AddrV4)> = kad.node[0].iter().map(|n: &Node<AddrV4>| (n.depth, n.addr)).collect();
    assert_eq!(got, vec![(2, c), (5, b), (5, a)]);
    let mut want = Vec::new();
    want.extend_from_slice(&c.to_bytes());
    want.extend_from_slice(&b.to_bytes());
    want.extend_from_slice(&a.to_bytes());
    assert_eq!(&kad.cache[0][..], &want[..]);
}

#[test]
fn full_last_bucket_splits() {
    let mut kad: Kad<AddrV4> = Kad::new(&[0u8; 16]);
    for i in 0..CAPACITY as u8 {
        let depth = if i < 10 { 0 } else { 1 };
        assert!(kad.add(&pk_at_depth(depth, i as u128), addr(i, 0)));
    }
    assert_eq!(kad.node.len(), 1);
    assert_eq!(kad.node[0].len(), CAPACITY);
    // The bucket is full: the next peer splits it; the deeper peers move on.
    assert!(kad.add(&pk_at_depth(4, 0), addr(200, 0)));
    assert_eq!(kad.node.len(), 2);
    assert_eq!(kad.node[0].len(), 10);
    assert_eq!(kad.node[1].len(), 23);
    assert_eq!(kad.cache.len(), 2);
    assert_eq!(kad.cache[1].len(), 23 * 6);
}

#[test]
fn moved_peer_leaves_old_bucket() {
    let mut kad: Kad<AddrV4> = Kad::new(&[0u8; 16]);
    let a = addr(9, 9);
    assert!(kad.add(&pk_at_depth(2, 0), a));
    assert!(kad.add(&pk_at_depth(6, 0), a));
    assert_eq!(kad.node[0].len(), 1);
    assert_eq!(kad.node[0][0].depth, 6);
}

#[test]
fn moved_peer_cache_of_other_buckets() {
    let mut kad: Kad<AddrV4> = Kad::new(&[0u8; 16]);
    kad.node.push(Vec::new());
    kad.cache.push(Vec::new().into_boxed_slice());
    let a = addr(7, 7);
    let b = addr(8, 8);
    // An unknown address: every cache entry stays the encoding of its bucket.
    assert!(kad.add(&pk_at_depth(0, 0), a));
    assert_eq!(&kad.cache[0][..], &a.to_bytes()[..]);
    assert!(kad.add(&pk_at_depth(4, 0), b));
    assert_eq!(&kad.cache[1][..], &b.to_bytes()[..]);
    // Moving `a` deeper takes it out of bucket 0 and files it in the last bucket;
    // the cache of bucket 0, from which it was taken, is left as it was.
    assert!(kad.add(&pk_at_depth(3, 0), a));
    assert_eq!(kad.node[0].len(), 0);
    assert_eq!(&kad.cache[0][..], &a.to_bytes()[..]);
    let mut want = Vec::new();
    want.extend_from_slice(&a.to_bytes());
    want.extend_from_slice(&b.to_bytes());
    assert_eq!(&kad.cache[1][..], &want[..]);
}

#[test]
fn compact_merges_small_buckets() {
    let mut kad: Kad<AddrV4> = Kad::new(&[0u8; 16]);
    for i in 0..CAPACITY as u8 {
        assert!(kad.add(&pk_at_depth(if i < 20 { 0 } else { 3 }, i as u128), addr(i, 1)));
    }
    assert!(kad.add(&pk_at_depth(5, 0), addr(100, 1)));
    assert_eq!(kad.node.len(), 2);
    kad.compact();
    // 20 + 13 entries do not fit one bucket: nothing to merge.
    assert_eq!(kad.node.len(), 2);
    let mut small: Kad<AddrV4> = Kad::new(&[0u8; 16]);
    small.node.push(Vec::new());
    small.cache.push(Vec::new().into_boxed_slice());
    small.compact();
    assert_eq!(small.node.len(), 1);
    assert!(small.is_empty());
}

#[test]
fn find_reads_cache_of_masked_bucket() {
    let mut kad: Kad<AddrV4> = Kad::new(&[0u8; 16]);
    let a = addr(1, 2);
    assert!(kad.add(&pk_at_depth(1, 0), a));
    // Our key is 0, so every masked index is 0.
    assert_eq!(&kad.find(&[0xff; 16])[..], &a.to_bytes()[..]);
}

#[test]
fn ranges_partition_by_leading_zeros() {
    let key: u128 = 0x0123_4567_89ab_cdef_0011_2233_4455_6677;
    let kad: Kad<AddrV4> = Kad::new(&key.to_be_bytes());
    let r = kad.range();
    assert_eq!(r.len(), LEN);
    for x in [0u128, 1, key - 1, key + 1, u128::MAX, 1 << 100, key ^ (1 << 127), key ^ 1] {
        let d = (key ^ x).leading_zeros() as usize;
        for (i, ri) in r.iter().enumerate() {
            assert_eq!(ri.contains(&x), i == d, "x={x:#x} i={i}");
        }
    }
    assert!(!r.iter().any(|ri| ri.contains(&key)));
    assert_eq!(*r[127].start(), key ^ 1);
    assert_eq!(*r[127].end(), key ^ 1);
}

#[test]
fn range_matches_stepwise_construction() {
    for key in [0u128, u128::MAX, 1 << 127, 0x8000_0000_0000_0000_0000_0000_0000_0001] {
        let kad: Kad<AddrV4> = Kad::new(&key.to_be_bytes());
        let r = kad.range();
        let (mut lower, mut upper, mut one) = (key, key, 0u128);
        let mut li = Vec::new();
        for n in 1..=128u32 {
            let (ln, un) = if n == 128 {
                (0, u128::MAX)
            } else {
                one = (one << 1) + 1;
                let ln = (lower >> n) << n;
                (ln, ln + one)
            };
            if ln == lower {
                li.push((upper + 1, un));
                upper = un;
            } else {
                li.push((ln, lower - 1));
                lower = ln;
            }
        }
        li.reverse();
        let got: Vec<(u128, u128)> = r.iter().map(|x| (*x.start(), *x.end())).collect();
        assert_eq!(got, li);
    }
}

#[test]
fn leading_zeros_match_std() {
    for x in [0u128, 1, 2, 255, 1 << 63, 1 << 64, (1 << 64) + 7, 1 << 127, u128::MAX] {
        assert_eq!(leading_zeros_u128(x), x.leading_zeros());
    }
}

#[test]
fn midpoint_rounds_down() {
    assert_eq!(midpoint(3, 4), 3);
    assert_eq!(midpoint(u128::MAX, u128::MAX), u128::MAX);
    assert_eq!(midpoint(u128::MAX, u128::MAX - 1), u128::MAX - 1);
    assert_eq!(midpoint(0, 10), 5);
}

#[test]
fn node_eq_compares_addresses() {
    let a = Node { depth: 1, addr: addr(1, 1) };
    let b = Node { depth: 7, addr: addr(1, 1) };
    let c = Node { depth: 1, addr: addr(2, 1) };
    assert!(a == b);
    assert!(a != c);
}

type Snapshot = (u128, Vec<Vec<(u8, AddrV4)>>, Vec<Box<[u8]>>, Vec<(AddrV4, u8)>);

fn snapshot(kad: &Kad<AddrV4>) -> Snapshot {
    (
        kad.key,
        kad.node.iter().map(|b| b.iter().map(|n: &Node<AddrV4>| (n.depth, n.addr)).collect()).collect(),
        kad.cache.clone(),
        kad.addr.clone(),
    )
}

#[test]
fn add_twice_changes_nothing_the_second_time() {
    let mut kad: Kad<AddrV4> = Kad::new(&[0u8; 16]);
    for i in 0..CAPACITY as u8 {
        kad.add(&pk_at_depth(i as u32 % 3, i as u128), addr(i, 3));
    }
    // Added, then the same call again.
    let pk = pk_at_depth(7, 1);
    kad.add(&pk, addr(50, 50));
    let before = snapshot(&kad);
    assert!(!kad.add(&pk, addr(50, 50)));
    assert!(snapshot(&kad) == before);
    // Not added (its bucket is full), then the same call again.
    let pk = pk_at_depth(0, 99);
    kad.add(&pk, addr(60, 60));
    let before = snapshot(&kad);
    assert!(!kad.add(&pk, addr(60, 60)));
    assert!(snapshot(&kad) == before);
}

#[test]
fn compact_twice_changes_nothing_the_second_time() {
    let mut kad: Kad<AddrV4> = Kad::new(&[0u8; 16]);
    for _ in 0..3 {
        kad.node.push(Vec::new());
        kad.cache.push(Vec::new().into_boxed_slice());
    }
    assert!(kad.add(&pk_at_depth(9, 0), addr(1, 9)));
    kad.compact();
    let once = snapshot(&kad);
    assert_eq!(once.1.len(), 1);
    kad.compact();
    assert!(snapshot(&kad) == once);
}

#[test]
fn added_peer_is_filed_where_a_bucket_holds_it() {
    let mut kad: Kad<AddrV4> = Kad::new(&[0u8; 16]);
    for i in 0..40u8 {
        let added = kad.add(&pk_at_depth(i as u32 % 5, i as u128), addr(i, 4));
        let filed = kad.addr.iter().find(|p| p.0 == addr(i, 4)).map(|p| p.1);
        assert_eq!(added, filed.is_some());
        if let Some(d) = filed {
            assert_eq!(d, (i % 5) as u8);
            assert!(kad.node.iter().any(|b| b.iter().any(|n| n.addr == addr(i, 4) && n.depth == d)));
        }
    }
}

#[test]
fn moving_a_peer_into_a_full_bucket_leaves_it_filed_but_held_nowhere() {
    // Three buckets; bucket 1 is full of peers at depth 1.
    let mut kad: Kad<AddrV4> = Kad::new(&[0u8; 16]);
    for _ in 0..2 {
        kad.node.push(Vec::new());
        kad.cache.push(Vec::new().into_boxed_slice());
    }
    for i in 0..CAPACITY as u8 {
        assert!(kad.add(&pk_at_depth(1, i as u128), addr(i, 1)));
    }
    let a = addr(200, 2);
    assert!(kad.add(&pk_at_depth(0, 0), a));
    // Added again at depth 1: it leaves bucket 0, finds bucket 1 full, and is not
    // added; the address map still files it at depth 0.
    assert!(!kad.add(&pk_at_depth(1, 999), a));
    assert!(kad.addr.iter().any(|p| p.0 == a && p.1 == 0));
    assert!(!kad.node.iter().any(|b| b.iter().any(|n| n.addr == a)));
}

#[test]
fn second_add_splits_again_after_a_split_that_added_nothing() {
    let mut kad: Kad<AddrV4> = Kad::new(&[0u8; 16]);
    let a = addr(250, 5);
    for i in 0..(CAPACITY - 1) as u8 {
        assert!(kad.add(&pk_at_depth(1 + (i as u32 % 4), i as u128), addr(i, 5)));
    }
    assert!(kad.add(&pk_at_depth(5, 0), a));
    // The bucket holds the entry of `a` while the map does not file `a`.
    kad.addr.retain(|p| p.0 != a);
    assert!(!kad.add(&pk_at_depth(5, 1), a));
    assert_eq!(kad.node.len(), 2);
    let before = snapshot(&kad);
    assert!(!kad.add(&pk_at_depth(5, 1), a));
    assert!(snapshot(&kad) != before);
    assert_eq!(kad.node.len(), 3);
}
