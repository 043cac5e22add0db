use rmw::addr::{AddrV4, ToBytes};
use rmw::cmd::Cmd;
use rmw::doh::{boot_from_txt, txt_of_addr};
use rmw::expire::{sweep, tick_secs, timer_step, TimerStep};
use rmw::kv::{addr_pk_plan, addr_range_push, bytes_eq, PkAddr};

#[test]
fn txt_roundtrip() {
    let a = AddrV4 { ip: [54, 177, 127, 37], port: 4910 };
    let t = txt_of_addr(&a);
    assert_eq!(t.len(), 10);
    assert_eq!(t, z85::encode(a.to_bytes()));
    assert_eq!(boot_from_txt(t.as_bytes()).unwrap(), a.to_bytes().to_vec());
}

#[test]
fn txt_rejects_bad_input() {
    assert!(boot_from_txt(b"").is_none());
    assert!(boot_from_txt(b"abcd").is_none());
    assert!(boot_from_txt(b"\"\"\"\"\"").is_none());
}

#[test]
fn cmd_bytes() {
    assert_eq!(Cmd::from_u8(0), Some(Cmd::Ping));
    assert_eq!(Cmd::from_u8(1), Some(Cmd::FindNode));
    assert_eq!(Cmd::from_u8(2), Some(Cmd::FindedNode));
    assert_eq!(Cmd::from_u8(3), None);
    for c in [Cmd::Ping, Cmd::FindNode, Cmd::FindedNode] {
        assert_eq!(Cmd::from_u8(c.to_u8()), Some(c));
    }
}

#[test]
fn sweep_stops_early_without_expired() {
    let e: Vec<(u32, u64)> = vec![(1, 100), (2, 100), (3, 100), (4, 100)];
    let r = sweep(&e, 105, 10, Some(9));
    assert!(r.remove.is_empty());
    assert_eq!(r.cursor, Some(2));
}

#[test]
fn sweep_looks_further_per_expired() {
    let mut e: Vec<(u32, u64)> = vec![(1, 0)];
    for k in 2..30 {
        e.push((k, 100));
    }
    let r = sweep(&e, 105, 10, None);
    assert_eq!(r.remove, vec![1]);
    assert_eq!(r.cursor, Some(18));
}

#[test]
fn sweep_short_resets_cursor() {
    let e: Vec<(u32, u64)> = vec![(1, 100)];
    let r = sweep(&e, 100, 10, Some(7));
    assert!(r.remove.is_empty());
    assert_eq!(r.cursor, None);
    let e2: Vec<(u32, u64)> = vec![(1, 0), (2, 0), (3, 0)];
    let r2 = sweep(&e2, 100, 10, Some(7));
    assert_eq!(r2.remove, vec![1, 2, 3]);
    assert_eq!(r2.cursor, Some(7));
}

#[test]
fn sweep_wraps_time() {
    let e: Vec<(u32, u64)> = vec![(1, 5), (2, 5)];
    // `now` before the entry's time counts as long ago.
    let r = sweep(&e, 4, 10, None);
    assert_eq!(r.remove, vec![1, 2]);
}

#[test]
fn range_push_stops_past_end() {
    let mut li: Vec<PkAddr<AddrV4>> = Vec::new();
    let a = AddrV4 { ip: [1, 1, 1, 1], port: 1 };
    let pk: Box<[u8]> = 5u128.to_be_bytes().to_vec().into_boxed_slice();
    assert!(addr_range_push(&mut li, pk, &a.to_bytes(), 10));
    assert_eq!(li.len(), 1);
    assert_eq!(li[0].addr, a);
    let pk2: Box<[u8]> = 11u128.to_be_bytes().to_vec().into_boxed_slice();
    assert!(!addr_range_push(&mut li, pk2, &a.to_bytes(), 10));
    assert_eq!(li.len(), 1);
}

#[test]
fn range_push_stops_when_full() {
    let mut li: Vec<PkAddr<AddrV4>> = Vec::new();
    let a = AddrV4 { ip: [1, 1, 1, 1], port: 1 };
    for i in 0..32u128 {
        let pk: Box<[u8]> = i.to_be_bytes().to_vec().into_boxed_slice();
        let more = addr_range_push(&mut li, pk, &a.to_bytes(), u128::MAX);
        assert_eq!(more, i < 31);
    }
}

#[test]
fn pk_addr_plans() {
    let p = addr_pk_plan(b"addr", Some(b"addr"), Some(b"pk"));
    assert!(p.unchanged);
    let p = addr_pk_plan(b"addr", Some(b"old"), Some(b"pk2"));
    assert!(!p.unchanged);
    assert_eq!(p.del_addr_pk, Some(b"old".to_vec()));
    assert_eq!(p.del_pk_addr, Some(b"pk2".to_vec()));
    let p = addr_pk_plan(b"addr", None, None);
    assert!(!p.unchanged && p.del_addr_pk.is_none() && p.del_pk_addr.is_none());
    assert!(bytes_eq(b"ab", b"ab") && !bytes_eq(b"ab", b"abc") && !bytes_eq(b"ab", b"ac"));
}

#[test]
fn sweep_removes_only_expired_keys() {
    let e: Vec<(u32, u64)> = vec![(1, 100), (2, 0), (3, 100), (4, 1), (5, 100)];
    let r = sweep(&e, 105, 10, None);
    for k in &r.remove {
        assert!(e.iter().any(|(key, t)| key == k && 105u64.wrapping_sub(*t) > 10));
    }
    assert_eq!(r.remove, vec![2, 4]);
}

#[test]
fn timer_ticks_and_steps() {
    assert_eq!(tick_secs(7), 8);
    assert!(matches!(timer_step::<u32>(None, 100, 10, Some(3)), TimerStep::Wait));
    let fresh: Vec<(u32, u64)> = vec![(1, 100), (2, 100), (3, 100)];
    assert!(matches!(timer_step(Some(&fresh), 105, 10, None), TimerStep::Stop));
    let old: Vec<(u32, u64)> = vec![(1, 0), (2, 100), (3, 100)];
    match timer_step(Some(&old), 105, 10, None) {
        TimerStep::Expire(s) => {
            assert_eq!(s.remove, vec![1]);
            assert_eq!(s.cursor, None);
        }
        _ => panic!("expected expired keys"),
    }
}
