use rmw::bytes::{u128_from_be_prefix, u128_to_le, u16_from_le, u16_to_le, u64_to_be, u64_to_le};

#[test]
fn u128_prefix_matches_std() {
    let b: Vec<u8> = (1..=20).collect();
    let want = u128::from_be_bytes(b[..16].try_into().unwrap());
    assert_eq!(u128_from_be_prefix(&b), want);
}

#[test]
fn fixed_width_bytes_match_std() {
    let x: u64 = 0x0123_4567_89ab_cdef;
    assert_eq!(u64_to_le(x), x.to_le_bytes());
    assert_eq!(u64_to_be(x), x.to_be_bytes());
    let y: u128 = 0x0011_2233_4455_6677_8899_aabb_ccdd_eeff;
    assert_eq!(u128_to_le(y), y.to_le_bytes());
    assert_eq!(u16_to_le(0x1234), [0x34, 0x12]);
    assert_eq!(u16_from_le(0x34, 0x12), 0x1234);
}
