use rmw::leading_zero::{find, vec_incr};

fn incr(v: &[u8]) -> Vec<u8> {
    let mut v = v.to_vec();
    vec_incr(&mut v);
    v
}

#[test]
fn vec_incr_cases() {
    assert_eq!(incr(&[]), vec![1]);
    assert_eq!(incr(&[0]), vec![1]);
    assert_eq!(incr(&[254]), vec![255]);
    assert_eq!(incr(&[255]), vec![1, 0]);
    assert_eq!(incr(&[1, 255]), vec![2, 0]);
    assert_eq!(incr(&[255, 255]), vec![1, 0, 0]);
    assert_eq!(incr(&[0, 255]), vec![1, 0]);
}

#[test]
fn vec_incr_counts() {
    let mut v = vec![];
    for _ in 0..300 {
        vec_incr(&mut v);
    }
    assert_eq!(v, vec![1, 44]);
}

#[test]
fn find_zero_bits_is_empty_token() {
    let t = find(0, b"abc", |s: &[u8]| s.len() as u64);
    assert!(t.is_empty());
}

#[test]
fn find_first_passing_token() {
    // The hash has 64 leading zero bits only when the last byte is 7.
    let hash = |s: &[u8]| if s.last() == Some(&7) { 0u64 } else { u64::MAX };
    let t = find(64, b"msg", hash);
    assert_eq!(t, vec![7]);
    let hash2 = |s: &[u8]| if s.len() == 5 { 1u64 } else { u64::MAX };
    assert_eq!(find(63, b"abc", hash2), vec![1, 0]);
}

#[test]
fn find_with_xxh3() {
    let v = b"time hash";
    let t = find(8, v, |s: &[u8]| twox_hash::xxh3::hash64(s));
    let mut txt = v.to_vec();
    txt.extend(&t);
    assert!(twox_hash::xxh3::hash64(&txt).leading_zeros() >= 8);
}
