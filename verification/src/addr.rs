//! Socket addresses and their compact byte encoding: the IP octets followed by
//! the port, least significant byte first (6 bytes for IPv4, 18 for IPv6).
use vstd::prelude::*;

use crate::boxed::into_boxed;
use crate::bytes::{be_value, u128_from_be_prefix, lemma_be_value_injective, u16_from_le, u16_le_bytes, u16_to_le};

verus! {

/// An IPv4 socket address: what `std::net::SocketAddrV4` holds.
#[derive(Clone, Copy, Debug, PartialEq, Eq, PartialOrd, Ord, Hash)]
pub struct AddrV4 {
    pub ip: [u8; 4],
    pub port: u16,
}

/// An IPv6 socket address: what `std::net::SocketAddrV6` holds.
#[derive(Clone, Copy, Debug, PartialEq, Eq, PartialOrd, Ord, Hash)]
pub struct AddrV6 {
    pub ip: [u8; 16],
    pub port: u16,
    pub flowinfo: u32,
    pub scope_id: u32,
}

/// Length of the encoding of an IPv4 address.
pub const V4_LEN: usize = 6;

/// Length of the encoding of an IPv6 address.
pub const V6_LEN: usize = 18;

/// Values that have a byte encoding.
pub trait ToBytes {
    /// The bytes that `to_bytes` gives.
    spec fn encoding(&self) -> Seq<u8>;

    /// Encodes the value.
    fn to_bytes(&self) -> (r: Box<[u8]>)
        ensures
            r@ == self.encoding(),
    ;
}

/// Values of type `T` that can be read from the front of a byte string.
pub trait FromBytes<T> {
    /// The number of bytes that a value takes.
    spec fn encoded_len() -> nat;

    /// `value` is what the first `encoded_len()` bytes of `bytes` denote.
    spec fn decodes_to(bytes: Seq<u8>, value: T) -> bool;

    /// Reads a value from the front of `bytes`.
    fn from_bytes(bytes: &[u8]) -> (r: T)
        requires
            bytes@.len() >= Self::encoded_len(),
        ensures
            Self::decodes_to(bytes@, r),
    ;
}

/// Values of type `T` that can be read, one after another, from a byte string.
pub trait VecFromBytes<T> {
    /// `values` is what `bytes` denotes, read as consecutive encodings.
    spec fn decodes_all_to(bytes: Seq<u8>, values: Seq<T>) -> bool;

    /// Reads as many whole values as `li` holds; trailing bytes that do not make
    /// up a whole value are ignored.
    fn vec_from_bytes(li: &[u8]) -> (r: Vec<T>)
        ensures
            Self::decodes_all_to(li@, r@),
    ;
}

/// The port that two bytes denote, least significant first.
pub open spec fn le_port(lo: u8, hi: u8) -> u16 {
    (lo + 256 * hi) as u16
}

/// The encoding of an IPv4 address.
pub open spec fn v4_encoding(a: AddrV4) -> Seq<u8> {
    a.ip@ + u16_le_bytes(a.port)
}

/// The encoding of an IPv6 address; flow information and scope are not encoded.
pub open spec fn v6_encoding(a: AddrV6) -> Seq<u8> {
    a.ip@ + u16_le_bytes(a.port)
}

/// `a` is the IPv4 address that the first 6 bytes of `b` denote.
pub open spec fn v4_decodes_to(b: Seq<u8>, a: AddrV4) -> bool {
    &&& a.ip@ == b.take(4)
    &&& a.port == le_port(b[4], b[5])
}

/// `a` is the IPv6 address that the first 18 bytes of `b` denote, with flow
/// information and scope 0.
pub open spec fn v6_decodes_to(b: Seq<u8>, a: AddrV6) -> bool {
    &&& a.ip@ == b.take(16)
    &&& a.port == le_port(b[16], b[17])
    &&& a.flowinfo == 0
    &&& a.scope_id == 0
}

/// `values` are the IPv4 addresses encoded one after another at the front of
/// `bytes`, as many as fit whole.
pub open spec fn v4_decodes_all_to(bytes: Seq<u8>, values: Seq<AddrV4>) -> bool {
    &&& values.len() == bytes.len() / 6
    &&& forall|k: int|
        0 <= k < values.len() ==> v4_decodes_to(#[trigger] bytes.skip(6 * k), values[k])
}

/// `values` are the IPv6 addresses encoded one after another at the front of
/// `bytes`, as many as fit whole.
pub open spec fn v6_decodes_all_to(bytes: Seq<u8>, values: Seq<AddrV6>) -> bool {
    &&& values.len() == bytes.len() / 18
    &&& forall|k: int|
        0 <= k < values.len() ==> v6_decodes_to(#[trigger] bytes.skip(18 * k), values[k])
}

impl ToBytes for AddrV4 {
    open spec fn encoding(&self) -> Seq<u8> {
        v4_encoding(*self)
    }

    fn to_bytes(&self) -> (r: Box<[u8]>) {
        let o = self.ip;
        let p = u16_to_le(self.port);
        let mut v: Vec<u8> = Vec::new();
        v.push(o[0]);
        v.push(o[1]);
        v.push(o[2]);
        v.push(o[3]);
        v.push(p[0]);
        v.push(p[1]);
        assert(v@ =~= v4_encoding(*self));
        into_boxed(v)
    }
}

impl ToBytes for AddrV6 {
    open spec fn encoding(&self) -> Seq<u8> {
        v6_encoding(*self)
    }

    fn to_bytes(&self) -> (r: Box<[u8]>) {
        let o = self.ip;
        let p = u16_to_le(self.port);
        let mut v: Vec<u8> = Vec::new();
        let mut i: usize = 0;
        while i < 16
            invariant
                i <= 16,
                o == self.ip,
                v@ == o@.take(i as int),
            decreases 16 - i,
        {
            v.push(o[i]);
            i = i + 1;
            assert(v@ =~= o@.take(i as int));
        }
        v.push(p[0]);
        v.push(p[1]);
        assert(o@.take(16) =~= o@);
        assert(v@ =~= v6_encoding(*self));
        into_boxed(v)
    }
}

/// Reads an IPv4 address from the 4 octets and the port at `b[at..at + 6]`.
fn read_v4(b: &[u8], at: usize) -> (r: AddrV4)
    requires
        at + 6 <= b@.len(),
    ensures
        v4_decodes_to(b@.skip(at as int), r),
{
    let r = AddrV4 {
        ip: [b[at], b[at + 1], b[at + 2], b[at + 3]],
        port: u16_from_le(b[at + 4], b[at + 5]),
    };
    assert(r.ip@ =~= b@.skip(at as int).take(4));
    r
}

/// Reads an IPv6 address from the 16 octets and the port at `b[at..at + 18]`.
fn read_v6(b: &[u8], at: usize) -> (r: AddrV6)
    requires
        at + 18 <= b@.len(),
    ensures
        v6_decodes_to(b@.skip(at as int), r),
{
    let r = AddrV6 {
        ip: [
            b[at],
            b[at + 1],
            b[at + 2],
            b[at + 3],
            b[at + 4],
            b[at + 5],
            b[at + 6],
            b[at + 7],
            b[at + 8],
            b[at + 9],
            b[at + 10],
            b[at + 11],
            b[at + 12],
            b[at + 13],
            b[at + 14],
            b[at + 15],
        ],
        port: u16_from_le(b[at + 16], b[at + 17]),
        flowinfo: 0,
        scope_id: 0,
    };
    assert(r.ip@ =~= b@.skip(at as int).take(16));
    r
}

impl FromBytes<AddrV4> for AddrV4 {
    open spec fn encoded_len() -> nat {
        6
    }

    open spec fn decodes_to(bytes: Seq<u8>, value: AddrV4) -> bool {
        v4_decodes_to(bytes, value)
    }

    fn from_bytes(bytes: &[u8]) -> (r: AddrV4) {
        let r = read_v4(bytes, 0);
        assert(bytes@.skip(0) =~= bytes@);
        r
    }
}

impl FromBytes<AddrV6> for AddrV6 {
    open spec fn encoded_len() -> nat {
        18
    }

    open spec fn decodes_to(bytes: Seq<u8>, value: AddrV6) -> bool {
        v6_decodes_to(bytes, value)
    }

    fn from_bytes(bytes: &[u8]) -> (r: AddrV6) {
        let r = read_v6(bytes, 0);
        assert(bytes@.skip(0) =~= bytes@);
        r
    }
}

impl VecFromBytes<AddrV4> for AddrV4 {
    open spec fn decodes_all_to(bytes: Seq<u8>, values: Seq<AddrV4>) -> bool {
        v4_decodes_all_to(bytes, values)
    }

    fn vec_from_bytes(li: &[u8]) -> (r: Vec<AddrV4>) {
        let mut r: Vec<AddrV4> = Vec::new();
        let len = li.len();
        let mut n: usize = 0;
        while n <= len && len - n >= 6
            invariant
                len == li@.len(),
                n <= len,
                n == 6 * r@.len(),
                forall|k: int|
                    0 <= k < r@.len() ==> v4_decodes_to(#[trigger] li@.skip(6 * k), r@[k]),
            decreases len - n,
        {
            let a = read_v4(li, n);
            r.push(a);
            n = n + 6;
        }
        assert(r@.len() == li@.len() / 6);
        r
    }
}

impl VecFromBytes<AddrV6> for AddrV6 {
    open spec fn decodes_all_to(bytes: Seq<u8>, values: Seq<AddrV6>) -> bool {
        v6_decodes_all_to(bytes, values)
    }

    fn vec_from_bytes(li: &[u8]) -> (r: Vec<AddrV6>) {
        let mut r: Vec<AddrV6> = Vec::new();
        let len = li.len();
        let mut n: usize = 0;
        while n <= len && len - n >= 18
            invariant
                len == li@.len(),
                n <= len,
                n == 18 * r@.len(),
                forall|k: int|
                    0 <= k < r@.len() ==> v6_decodes_to(#[trigger] li@.skip(18 * k), r@[k]),
            decreases len - n,
        {
            let a = read_v6(li, n);
            r.push(a);
            n = n + 18;
        }
        assert(r@.len() == li@.len() / 18);
        r
    }
}

/// The IPv4 address that a 6-byte array denotes.
pub fn v4(bytes: [u8; 6]) -> (r: AddrV4)
    ensures
        v4_decodes_to(bytes@, r),
{
    let r = AddrV4 { ip: [bytes[0], bytes[1], bytes[2], bytes[3]], port: u16_from_le(bytes[4], bytes[5]) };
    assert(r.ip@ =~= bytes@.take(4));
    r
}

/// Reading back the encoding of an IPv4 address gives that address.
pub proof fn lemma_v4_roundtrip(a: AddrV4, b: AddrV4)
    requires
        v4_decodes_to(v4_encoding(a), b),
    ensures
        b == a,
{
    let e = v4_encoding(a);
    assert(e.take(4) =~= a.ip@);
    assert(b.ip@ =~= a.ip@);
    assert(b.ip == a.ip);
    let p = a.port;
    assert(((p as u8) + 256 * ((p >> 8) as u8)) as u16 == p) by (bit_vector);
}

/// Reading back the encoding of an IPv6 address with flow information and scope 0
/// gives that address.
pub proof fn lemma_v6_roundtrip(a: AddrV6, b: AddrV6)
    requires
        a.flowinfo == 0,
        a.scope_id == 0,
        v6_decodes_to(v6_encoding(a), b),
    ensures
        b == a,
{
    let e = v6_encoding(a);
    assert(e.take(16) =~= a.ip@);
    assert(b.ip@ =~= a.ip@);
    assert(b.ip == a.ip);
    let p = a.port;
    assert(((p as u8) + 256 * ((p >> 8) as u8)) as u16 == p) by (bit_vector);
}

/// Encoding the address that 6 bytes denote gives back those bytes.
pub proof fn lemma_v4_bytes_roundtrip(bytes: Seq<u8>, a: AddrV4)
    requires
        bytes.len() == 6,
        v4_decodes_to(bytes, a),
    ensures
        v4_encoding(a) == bytes,
{
    let lo = bytes[4];
    let hi = bytes[5];
    assert((((lo + 256 * hi) as u16) as u8) == lo && ((((lo + 256 * hi) as u16) >> 8) as u8) == hi)
        by (bit_vector);
    assert(v4_encoding(a) =~= bytes);
}

/// Encoding the address that 18 bytes denote gives back those bytes.
pub proof fn lemma_v6_bytes_roundtrip(bytes: Seq<u8>, a: AddrV6)
    requires
        bytes.len() == 18,
        v6_decodes_to(bytes, a),
    ensures
        v6_encoding(a) == bytes,
{
    let lo = bytes[16];
    let hi = bytes[17];
    assert((((lo + 256 * hi) as u16) as u8) == lo && ((((lo + 256 * hi) as u16) >> 8) as u8) == hi)
        by (bit_vector);
    assert(v6_encoding(a) =~= bytes);
}

/// The encodings of a list of IPv4 addresses, one after another.
pub open spec fn v4_encode_all(s: Seq<AddrV4>) -> Seq<u8>
    decreases s.len(),
{
    if s.len() == 0 {
        Seq::empty()
    } else {
        v4_encode_all(s.drop_last()) + v4_encoding(s.last())
    }
}

/// The encodings of a list of IPv4 addresses, one after another, have 6 bytes each,
/// and the `k`-th encoding starts at byte `6 * k`.
pub proof fn lemma_v4_encode_all_layout(s: Seq<AddrV4>, k: int)
    requires
        0 <= k < s.len(),
    ensures
        v4_encode_all(s).len() == 6 * s.len(),
        v4_encode_all(s).skip(6 * k).take(6) == v4_encoding(s[k]),
    decreases s.len(),
{
    lemma_v4_encode_all_len(s);
    let p = v4_encode_all(s.drop_last());
    lemma_v4_encode_all_len(s.drop_last());
    if k < s.len() - 1 {
        lemma_v4_encode_all_layout(s.drop_last(), k);
        assert(v4_encode_all(s).skip(6 * k).take(6) =~= p.skip(6 * k).take(6));
    } else {
        assert(v4_encode_all(s).skip(6 * k).take(6) =~= v4_encoding(s.last()));
    }
}

/// The encodings of `n` IPv4 addresses take `6 * n` bytes.
pub proof fn lemma_v4_encode_all_len(s: Seq<AddrV4>)
    ensures
        v4_encode_all(s).len() == 6 * s.len(),
    decreases s.len(),
{
    if s.len() > 0 {
        lemma_v4_encode_all_len(s.drop_last());
    }
}

/// Reading a list back from the encodings of IPv4 addresses, one after another,
/// gives that list.
pub proof fn lemma_v4_list_roundtrip(s: Seq<AddrV4>, r: Seq<AddrV4>)
    requires
        v4_decodes_all_to(v4_encode_all(s), r),
    ensures
        r == s,
{
    let e = v4_encode_all(s);
    lemma_v4_encode_all_len(s);
    assert(r.len() == s.len());
    assert forall|k: int| 0 <= k < s.len() implies r[k] == s[k] by {
        lemma_v4_encode_all_layout(s, k);
        let chunk = e.skip(6 * k);
        assert(v4_decodes_to(chunk, r[k]));
        assert(v4_decodes_to(chunk.take(6), r[k])) by {
            assert(chunk.take(6).take(4) =~= chunk.take(4));
        }
        lemma_v4_roundtrip(s[k], r[k]);
    }
    assert(r =~= s);
}


/// The encodings of a list of IPv6 addresses, one after another.
pub open spec fn v6_encode_all(s: Seq<AddrV6>) -> Seq<u8>
    decreases s.len(),
{
    if s.len() == 0 {
        Seq::empty()
    } else {
        v6_encode_all(s.drop_last()) + v6_encoding(s.last())
    }
}

/// The encodings of a list of IPv6 addresses, one after another, have 18 bytes each,
/// and the `k`-th encoding starts at byte `18 * k`.
pub proof fn lemma_v6_encode_all_layout(s: Seq<AddrV6>, k: int)
    requires
        0 <= k < s.len(),
    ensures
        v6_encode_all(s).len() == 18 * s.len(),
        v6_encode_all(s).skip(18 * k).take(18) == v6_encoding(s[k]),
    decreases s.len(),
{
    lemma_v6_encode_all_len(s);
    let p = v6_encode_all(s.drop_last());
    lemma_v6_encode_all_len(s.drop_last());
    if k < s.len() - 1 {
        lemma_v6_encode_all_layout(s.drop_last(), k);
        assert(v6_encode_all(s).skip(18 * k).take(18) =~= p.skip(18 * k).take(18));
    } else {
        assert(v6_encode_all(s).skip(18 * k).take(18) =~= v6_encoding(s.last()));
    }
}

/// The encodings of `n` IPv6 addresses take `18 * n` bytes.
pub proof fn lemma_v6_encode_all_len(s: Seq<AddrV6>)
    ensures
        v6_encode_all(s).len() == 18 * s.len(),
    decreases s.len(),
{
    if s.len() > 0 {
        lemma_v6_encode_all_len(s.drop_last());
    }
}

/// Reading a list back from the encodings of IPv6 addresses, one after another,
/// gives that list.
pub proof fn lemma_v6_list_roundtrip(s: Seq<AddrV6>, r: Seq<AddrV6>)
    requires
        forall|k: int| 0 <= k < s.len() ==> (#[trigger] s[k]).flowinfo == 0 && s[k].scope_id == 0,
        v6_decodes_all_to(v6_encode_all(s), r),
    ensures
        r == s,
{
    let e = v6_encode_all(s);
    lemma_v6_encode_all_len(s);
    assert(r.len() == s.len());
    assert forall|k: int| 0 <= k < s.len() implies r[k] == s[k] by {
        lemma_v6_encode_all_layout(s, k);
        let chunk = e.skip(18 * k);
        assert(v6_decodes_to(chunk, r[k]));
        assert(v6_decodes_to(chunk.take(18), r[k])) by {
            assert(chunk.take(18).take(16) =~= chunk.take(16));
            assert(chunk.take(18)[16] == chunk[16]);
            assert(chunk.take(18)[17] == chunk[17]);
        }
        lemma_v6_roundtrip(s[k], r[k]);
    }
    assert(r =~= s);
}


/// Addresses that a routing table can hold: they have a byte encoding and a total
/// order, given by their rank (`Ord` of the std socket address types orders by
/// IP, then port, then, for IPv6, flow information and scope).
pub trait ToAddr: ToBytes + Copy + Sized {
    /// The position of the address in the order.
    spec fn rank(&self) -> int;

    /// Distinct addresses have distinct ranks.
    proof fn lemma_rank_injective(a: Self, b: Self)
        ensures
            a.rank() == b.rank() ==> a == b,
    ;

    /// Whether `self` comes before `other`.
    fn rank_lt(&self, other: &Self) -> (r: bool)
        ensures
            r == (self.rank() < other.rank()),
    ;
}

/// The number that four bytes denote, most significant first.
proof fn lemma_be_value_4(s: Seq<u8>)
    requires
        s.len() == 4,
    ensures
        be_value(s) == ((s[0] * 256 + s[1]) * 256 + s[2]) * 256 + s[3],
{
    assert(s.drop_last().drop_last().drop_last().drop_last() =~= Seq::<u8>::empty());
    reveal_with_fuel(be_value, 5);
}

/// Ordering by `x * b + y` with `0 <= y < b` is ordering by `x`, then by `y`.
proof fn lemma_lex(x1: int, y1: int, x2: int, y2: int, b: int)
    requires
        b > 0,
        0 <= y1 < b,
        0 <= y2 < b,
    ensures
        (x1 * b + y1 < x2 * b + y2) == (x1 < x2 || (x1 == x2 && y1 < y2)),
        (x1 * b + y1 == x2 * b + y2) == (x1 == x2 && y1 == y2),
{
    assert((x1 * b + y1 < x2 * b + y2) == (x1 < x2 || (x1 == x2 && y1 < y2))) by (nonlinear_arith)
        requires
            b > 0,
            0 <= y1 < b,
            0 <= y2 < b,
    ;
    assert((x1 * b + y1 == x2 * b + y2) == (x1 == x2 && y1 == y2)) by (nonlinear_arith)
        requires
            b > 0,
            0 <= y1 < b,
            0 <= y2 < b,
    ;
}

impl ToAddr for AddrV4 {
    open spec fn rank(&self) -> int {
        be_value(self.ip@) * 0x1_0000 + self.port
    }

    proof fn lemma_rank_injective(a: Self, b: Self) {
        if a.rank() == b.rank() {
            crate::bytes::lemma_be_value_bound(a.ip@);
            lemma_lex(be_value(a.ip@) as int, a.port as int, be_value(b.ip@) as int, b.port as int, 0x1_0000);
            lemma_be_value_injective(a.ip@, b.ip@);
            assert(a.ip == b.ip);
        }
    }

    fn rank_lt(&self, other: &Self) -> (r: bool) {
        let a = self.ip;
        let b = other.ip;
        let x: u64 = ((a[0] as u64 * 256 + a[1] as u64) * 256 + a[2] as u64) * 256 + a[3] as u64;
        let y: u64 = ((b[0] as u64 * 256 + b[1] as u64) * 256 + b[2] as u64) * 256 + b[3] as u64;
        proof {
            lemma_be_value_4(a@);
            lemma_be_value_4(b@);
        }
        let ka: u64 = x * 0x1_0000 + self.port as u64;
        let kb: u64 = y * 0x1_0000 + other.port as u64;
        ka < kb
    }
}

/// The rank of an IPv6 address, from its parts.
pub open spec fn v6_rank(ip: int, port: int, flowinfo: int, scope_id: int) -> int {
    ((ip * 0x1_0000 + port) * 0x1_0000_0000 + flowinfo) * 0x1_0000_0000 + scope_id
}

impl ToAddr for AddrV6 {
    open spec fn rank(&self) -> int {
        v6_rank(be_value(self.ip@) as int, self.port as int, self.flowinfo as int, self.scope_id as int)
    }

    proof fn lemma_rank_injective(a: Self, b: Self) {
        if a.rank() == b.rank() {
            let r1a = be_value(a.ip@) * 0x1_0000 + a.port;
            let r1b = be_value(b.ip@) * 0x1_0000 + b.port;
            let r2a = r1a * 0x1_0000_0000 + a.flowinfo;
            let r2b = r1b * 0x1_0000_0000 + b.flowinfo;
            lemma_lex(r2a, a.scope_id as int, r2b, b.scope_id as int, 0x1_0000_0000);
            lemma_lex(r1a, a.flowinfo as int, r1b, b.flowinfo as int, 0x1_0000_0000);
            lemma_lex(be_value(a.ip@) as int, a.port as int, be_value(b.ip@) as int, b.port as int, 0x1_0000);
            lemma_be_value_injective(a.ip@, b.ip@);
            assert(a.ip == b.ip);
        }
    }

    fn rank_lt(&self, other: &Self) -> (r: bool) {
        let sa: &[u8] = &self.ip;
        let sb: &[u8] = &other.ip;
        let x = u128_from_be_prefix(sa);
        let y = u128_from_be_prefix(sb);
        proof {
            assert(self.ip@.take(16) =~= self.ip@);
            assert(other.ip@.take(16) =~= other.ip@);
            let r1a = be_value(self.ip@) * 0x1_0000 + self.port;
            let r1b = be_value(other.ip@) * 0x1_0000 + other.port;
            let r2a = r1a * 0x1_0000_0000 + self.flowinfo;
            let r2b = r1b * 0x1_0000_0000 + other.flowinfo;
            lemma_lex(r2a, self.scope_id as int, r2b, other.scope_id as int, 0x1_0000_0000);
            lemma_lex(r1a, self.flowinfo as int, r1b, other.flowinfo as int, 0x1_0000_0000);
            lemma_lex(be_value(self.ip@) as int, self.port as int, be_value(other.ip@) as int, other.port as int, 0x1_0000);
        }
        if x != y {
            x < y
        } else if self.port != other.port {
            self.port < other.port
        } else if self.flowinfo != other.flowinfo {
            self.flowinfo < other.flowinfo
        } else {
            self.scope_id < other.scope_id
        }
    }
}

} // verus!
