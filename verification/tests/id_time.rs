use rmw::id::Id;
use rmw::time::{millis_of, ms, now, sec, sec_to_bytes};

#[test]
fn id_default() {
    let id = Id::default();
    assert_eq!(id.time, 0);
    assert_eq!(id.id, 255);
}

#[test]
fn id_counts_within_a_tick() {
    let mut id = Id { time: 0x100, id: 0 };
    assert_eq!(id.next_at(5), (0x101u64).to_be_bytes());
    assert_eq!(id.next_at(5), (0x102u64).to_be_bytes());
    assert_eq!(id.id, 2);
}

#[test]
fn id_restarts_with_new_time() {
    let mut id = Id::default();
    assert_eq!(id.next_at(1000), (1000u64 << 8).to_be_bytes());
    assert_eq!((id.time, id.id), (1000 << 8, 0));
    let mut same = Id { time: 77, id: 255 };
    assert_eq!(same.next_at(77), (77u64 + 256).to_be_bytes());
}

#[test]
fn id_get_uses_clock() {
    let mut id = Id::default();
    let before = ms().unwrap() as u64;
    let a = u64::from_be_bytes(id.get().unwrap());
    let after = ms().unwrap() as u64;
    assert!(a >= before << 8 && a <= after << 8);
    let b = u64::from_be_bytes(id.get().unwrap());
    assert_eq!(b, a + 1);
}

#[test]
fn id_grows_after_clock_advance() {
    // A spent counter at time 5 << 8; the clock has moved on to 6.
    let mut id = Id { time: 5 << 8, id: 255 };
    let old = (5u64 << 8) + 255;
    let a = u64::from_be_bytes(id.next_at(6));
    assert_eq!(a, 6 << 8);
    assert!(a > old);
}

#[test]
fn clock_reads_agree() {
    let s = sec().unwrap();
    let b = u64::from_le_bytes(sec_to_bytes().unwrap());
    assert!(b >= s && b - s <= 2);
    assert!(now().unwrap().as_secs() >= s);
    let m = ms().unwrap();
    assert!(m / 1000 >= s as u128);
    assert!(m / 1000 - s as u128 <= 2);
}

#[test]
fn millis_of_counts_whole_milliseconds() {
    assert_eq!(millis_of(3, 999_999_999), 3999);
    assert_eq!(millis_of(0, 1_500_000), 1);
    assert_eq!(millis_of(u64::MAX, 0), u64::MAX as u128 * 1000);
    let d = std::time::Duration::new(12, 345_678_901);
    assert_eq!(millis_of(d.as_secs(), d.subsec_nanos()), d.as_millis());
}

#[test]
fn get_at_cases() {
    // Counter not spent: the reading is not needed.
    let mut id = Id { time: 0x500, id: 3 };
    assert_eq!(id.get_at(None), Some((0x504u64).to_be_bytes()));
    assert_eq!((id.time, id.id), (0x500, 4));
    // Counter spent, no reading: nothing, state kept.
    let mut spent = Id { time: 0x500, id: 255 };
    assert_eq!(spent.get_at(None), None);
    assert_eq!((spent.time, spent.id), (0x500, 255));
    // Counter spent, a new reading: a new tick.
    assert_eq!(spent.get_at(Some(9)), Some((9u64 << 8).to_be_bytes()));
    assert_eq!((spent.time, spent.id), (9 << 8, 0));
    // Counter spent at an unchanged reading: the time moves on by 256.
    let mut same = Id { time: 40, id: 255 };
    assert_eq!(same.get_at(Some(40)), Some((40u64 + 256).to_be_bytes()));
    // ... unless that would overflow.
    let top = u64::MAX - 100;
    let mut full = Id { time: top, id: 255 };
    assert_eq!(full.get_at(Some(top)), None);
    assert_eq!((full.time, full.id), (top, 255));
}
