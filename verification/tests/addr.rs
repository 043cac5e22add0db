use rmw::addr::{v4, AddrV4, AddrV6, FromBytes, ToAddr, ToBytes, VecFromBytes};

#[test]
fn v4_roundtrip() {
    let a = AddrV4 { ip: [54, 177, 127, 37], port: 4910 };
    let b = a.to_bytes();
    assert_eq!(&b[..], &[54, 177, 127, 37, 0x2e, 0x13]);
    assert_eq!(AddrV4::from_bytes(&b), a);
}

#[test]
fn v6_roundtrip() {
    let ip: [u8; 16] = [0x26, 0x00, 0x1f, 0x1c, 0x06, 0x26, 0x92, 0x00, 0x7b, 0x9a, 0x44, 0x20, 0x87, 0x6a, 0x45, 0x50];
    let a = AddrV6 { ip, port: 4910, flowinfo: 0, scope_id: 0 };
    let b = a.to_bytes();
    assert_eq!(b.len(), 18);
    assert_eq!(&b[..16], &ip);
    assert_eq!(&b[16..], &4910u16.to_le_bytes());
    assert_eq!(AddrV6::from_bytes(&b), a);
}

#[test]
fn v6_encoding_drops_flow_and_scope() {
    let a = AddrV6 { ip: [7; 16], port: 1, flowinfo: 9, scope_id: 3 };
    let back = AddrV6::from_bytes(&a.to_bytes());
    assert_eq!(back, AddrV6 { ip: [7; 16], port: 1, flowinfo: 0, scope_id: 0 });
}

#[test]
fn bytes_roundtrip_v4() {
    let bytes = [10u8, 0, 0, 1, 0xff, 0x01];
    assert_eq!(&AddrV4::from_bytes(&bytes).to_bytes()[..], &bytes[..]);
}

#[test]
fn v4_from_array() {
    let a = v4([192, 168, 1, 2, 0x50, 0x00]);
    assert_eq!(a, AddrV4 { ip: [192, 168, 1, 2], port: 80 });
}

#[test]
fn vec_from_bytes_v4_ignores_tail() {
    let a = AddrV4 { ip: [1, 2, 3, 4], port: 5 };
    let b = AddrV4 { ip: [6, 7, 8, 9], port: 0xffff };
    let mut li = Vec::new();
    li.extend_from_slice(&a.to_bytes());
    li.extend_from_slice(&b.to_bytes());
    li.extend_from_slice(&[1, 2, 3]);
    assert_eq!(AddrV4::vec_from_bytes(&li), vec![a, b]);
    assert_eq!(AddrV4::vec_from_bytes(&li[..5]), Vec::<AddrV4>::new());
}

#[test]
fn vec_from_bytes_v6() {
    let a = AddrV6 { ip: [1; 16], port: 2, flowinfo: 0, scope_id: 0 };
    let b = AddrV6 { ip: [3; 16], port: 4, flowinfo: 0, scope_id: 0 };
    let mut li = Vec::new();
    li.extend_from_slice(&a.to_bytes());
    li.extend_from_slice(&b.to_bytes());
    assert_eq!(AddrV6::vec_from_bytes(&li), vec![a, b]);
    assert_eq!(AddrV6::vec_from_bytes(&li[..35]), vec![a]);
}

#[test]
fn v4_order_is_ip_then_port() {
    let xs = [
        AddrV4 { ip: [1, 2, 3, 4], port: 5 },
        AddrV4 { ip: [1, 2, 3, 4], port: 6 },
        AddrV4 { ip: [1, 2, 3, 5], port: 0 },
        AddrV4 { ip: [200, 0, 0, 0], port: 1 },
        AddrV4 { ip: [0, 0, 0, 0], port: 65535 },
    ];
    for a in &xs {
        for b in &xs {
            let sa = (u32::from_be_bytes(a.ip), a.port);
            let sb = (u32::from_be_bytes(b.ip), b.port);
            assert_eq!(a.rank_lt(b), sa < sb);
        }
    }
}

#[test]
fn v6_order_is_ip_port_flow_scope() {
    let xs = [
        AddrV6 { ip: [0; 16], port: 5, flowinfo: 0, scope_id: 0 },
        AddrV6 { ip: [0; 16], port: 5, flowinfo: 1, scope_id: 0 },
        AddrV6 { ip: [0; 16], port: 5, flowinfo: 1, scope_id: 2 },
        AddrV6 { ip: [1; 16], port: 0, flowinfo: 0, scope_id: 0 },
        AddrV6 { ip: [255; 16], port: 1, flowinfo: 0, scope_id: 0 },
    ];
    for a in &xs {
        for b in &xs {
            let sa = (u128::from_be_bytes(a.ip), a.port, a.flowinfo, a.scope_id);
            let sb = (u128::from_be_bytes(b.ip), b.port, b.flowinfo, b.scope_id);
            assert_eq!(a.rank_lt(b), sa < sb);
        }
    }
}
