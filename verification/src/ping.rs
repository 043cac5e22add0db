//! The ping handshake. A message opens with a command byte; a ping (command 0)
//! is answered by its length:
//! - an empty datagram is a heartbeat: a peer we know is answered with our public
//!   key and the time;
//! - `[0]` alone is answered with an empty datagram;
//! - `[0] ++ pk (30) ++ time (8)` is answered with a proof (16) that we saw this
//!   peer at this time, and the time;
//! - `[0] ++ proof (16) ++ time (8)` from a peer we know asks us to solve a
//!   proof-of-work puzzle over those 24 bytes and to sign them.
use vstd::prelude::*;

use crate::addr::ToBytes;
use crate::bytes::{append_bytes, u128_le_bytes};
use crate::key::{ed25519_public, ed25519_signature, node_pk, sign_with_seed, sk_hash, xxh3_128, xxh3_64, xxh3_hash64};
use crate::leading_zero::{find, hash_ok, token_of};

verus! {

/// The length of a public key in a ping.
pub const PK_LEN: usize = 30;

/// What to do about a received datagram.
pub enum Reply {
    /// Nothing.
    Nothing,
    /// Send these bytes back to the sender.
    Send(Vec<u8>),
    /// Solve the proof-of-work puzzle over these 24 bytes, sign them, and send back
    /// the answer (see `ping_answer`).
    Solve(Vec<u8>),
}

/// Whether answering the datagram depends on whether its sender is known, that is,
/// whether the caller must first refresh the sender's entry and pass on whether
/// there was one.
pub fn needs_renew(msg: &[u8]) -> (r: bool)
    ensures
        r == (msg@.len() == 0 || (msg@[0] == 0 && msg@.len() == 25)),
{
    msg.len() == 0 || (msg[0] == 0 && msg.len() == 25)
}

/// The proof that we saw the peer with key `pk` at `addr` at time `now`.
pub open spec fn seen_proof(secret_hash: Seq<u8>, now: Seq<u8>, addr: Seq<u8>, pk: Seq<u8>) -> Seq<u8> {
    u128_le_bytes(xxh3_128(secret_hash + now + addr + pk))
}

/// A copy of `s[from..to]`.
fn sub_bytes(s: &[u8], from: usize, to: usize) -> (r: Vec<u8>)
    requires
        from <= to <= s@.len(),
    ensures
        r@ == s@.subrange(from as int, to as int),
{
    let mut v: Vec<u8> = Vec::new();
    let mut i = from;
    while i < to
        invariant
            from <= i <= to <= s@.len(),
            v@ == s@.subrange(from as int, i as int),
        decreases to - i,
    {
        v.push(s[i]);
        i = i + 1;
        assert(v@ =~= s@.subrange(from as int, i as int));
    }
    v
}

/// Decides how to answer the datagram `msg` from `addr`, given whether its sender is
/// known (`renewed`, as `needs_renew` asks), our public key, the hash of our secret
/// key and the time in seconds, least significant byte first.
pub fn on_recv<A: ToBytes>(
    msg: &[u8],
    renewed: bool,
    own_pk: &[u8; 30],
    secret_hash: &[u8; 16],
    now: &[u8; 8],
    addr: &A,
) -> (r: Reply)
    ensures
        msg@.len() == 0 ==> if renewed {
            r matches Reply::Send(v) && v@ == seq![0u8] + own_pk@ + now@
        } else {
            r is Nothing
        },
        msg@.len() > 0 && msg@[0] != 0 ==> r is Nothing,
        msg@.len() == 1 && msg@[0] == 0 ==> (r matches Reply::Send(v) && v@.len() == 0),
        msg@.len() == 39 && msg@[0] == 0 ==> if msg@.subrange(1, 31) == own_pk@ {
            r is Nothing
        } else {
            r matches Reply::Send(v) && v@ == seq![0u8] + seen_proof(
                secret_hash@,
                now@,
                addr.encoding(),
                msg@.subrange(1, 31),
            ) + now@
        },
        msg@.len() == 25 && msg@[0] == 0 ==> if renewed {
            r matches Reply::Solve(v) && v@ == msg@.subrange(1, 25)
        } else {
            r is Nothing
        },
        msg@.len() > 0 && msg@[0] == 0 && msg@.len() != 1 && msg@.len() != 39 && msg@.len() != 25
            ==> r is Nothing,
{
    let msg_len = msg.len();
    if msg_len == 0 {
        if renewed {
            let mut v: Vec<u8> = Vec::new();
            v.push(0u8);
            let pk: &[u8] = own_pk;
            append_bytes(&mut v, pk);
            let t: &[u8] = now;
            append_bytes(&mut v, t);
            proof {
                assert(v@ =~= seq![0u8] + own_pk@ + now@);
            }
            return Reply::Send(v);
        }
        return Reply::Nothing;
    }
    if msg[0] != 0 {
        return Reply::Nothing;
    }
    if msg_len == 1 {
        Reply::Send(Vec::new())
    } else if msg_len == 39 {
        let pk = sub_bytes(msg, 1, 31);
        let own: &[u8] = own_pk;
        if crate::kv::bytes_eq(pk.as_slice(), own) {
            Reply::Nothing
        } else {
            let t: &[u8] = now;
            let h = sk_hash(secret_hash, t, addr, pk.as_slice());
            let mut v: Vec<u8> = Vec::new();
            v.push(0u8);
            let hs: &[u8] = &h;
            append_bytes(&mut v, hs);
            append_bytes(&mut v, t);
            proof {
                assert(v@ =~= seq![0u8] + seen_proof(secret_hash@, now@, addr.encoding(), msg@.subrange(1, 31)) + now@);
            }
            Reply::Send(v)
        }
    } else if msg_len == 25 {
        if renewed {
            Reply::Solve(sub_bytes(msg, 1, 25))
        } else {
            Reply::Nothing
        }
    } else {
        Reply::Nothing
    }
}

/// The answer to a puzzle: `[0] ++ the 24 puzzle bytes ++ our public key ++ our
/// signature of the puzzle bytes ++ the proof-of-work token`.
pub fn ping_answer(time_hash: &[u8], own_pk: &[u8; 30], sig: &[u8], token: &[u8]) -> (r: Vec<u8>)
    ensures
        r@ == seq![0u8] + time_hash@ + own_pk@ + sig@ + token@,
{
    let mut v: Vec<u8> = Vec::new();
    v.push(0u8);
    append_bytes(&mut v, time_hash);
    let pk: &[u8] = own_pk;
    append_bytes(&mut v, pk);
    append_bytes(&mut v, sig);
    append_bytes(&mut v, token);
    assert(v@ =~= seq![0u8] + time_hash@ + own_pk@ + sig@ + token@);
    v
}

/// The version of the protocol.
pub const VERSION: u16 = 1;

/// The task number of the ping task, as it opens a framed message.
pub const PING: [u8; 4] = [0, 0, 0, 0];

/// The task number that opens a framed message (its first 4 bytes, least
/// significant first), when it has one.
pub fn task_id(msg: &[u8]) -> (r: Option<u32>)
    ensures
        msg@.len() < 4 ==> r is None,
        msg@.len() >= 4 ==> r == Some((msg@[0] + 256 * msg@[1] + 65536 * msg@[2] + 16777216 * msg@[3]) as u32),
{
    if msg.len() < 4 {
        None
    } else {
        Some(msg[0] as u32 + 256 * msg[1] as u32 + 65536 * msg[2] as u32 + 16777216 * msg[3] as u32)
    }
}

/// Where a framed message goes.
pub enum Route {
    /// An empty message: a heartbeat, answered by the ping task.
    Heartbeat,
    /// A message of the ping task (task number 0); its body starts at byte 4.
    Ping,
    /// A message of another task, by its number.
    Task(u32),
    /// A message of 1 to 3 bytes, too short to hold a task number: dropped.
    Short,
}

/// Routes a framed message by its length and its task number.
pub fn route(msg: &[u8]) -> (r: Route)
    ensures
        msg@.len() == 0 ==> r is Heartbeat,
        0 < msg@.len() < 4 ==> r is Short,
        msg@.len() >= 4 ==> {
            let t = msg@[0] + 256 * msg@[1] + 65536 * msg@[2] + 16777216 * msg@[3];
            &&& t == 0 ==> r is Ping
            &&& t != 0 ==> (r matches Route::Task(n) && n == t)
        },
{
    if msg.len() == 0 {
        return Route::Heartbeat;
    }
    match task_id(msg) {
        None => Route::Short,
        Some(t) => {
            if t == 0 {
                Route::Ping
            } else {
                Route::Task(t)
            }
        },
    }
}

/// The opening of a handshake that we start with the peer at `addr`:
/// `[0] ++ proof (16) ++ time (8) ++ our public key (30)`.
pub fn ping_syn<A: ToBytes>(secret_hash: &[u8; 16], addr: &A, own_pk: &[u8; 30], now: &[u8; 8]) -> (r: Vec<u8>)
    ensures
        r@ == seq![0u8] + seen_proof(secret_hash@, now@, addr.encoding(), own_pk@) + now@ + own_pk@,
{
    let t: &[u8] = now;
    let pk: &[u8] = own_pk;
    let h = sk_hash(secret_hash, t, addr, pk);
    let mut v: Vec<u8> = Vec::new();
    v.push(0u8);
    let hs: &[u8] = &h;
    append_bytes(&mut v, hs);
    append_bytes(&mut v, t);
    append_bytes(&mut v, pk);
    assert(v@ =~= seq![0u8] + seen_proof(secret_hash@, now@, addr.encoding(), own_pk@) + now@ + own_pk@);
    v
}

/// The answer to a 55-byte handshake message `msg` from `addr`:
/// `[0] ++ time (8) ++ proof over the peer's key (16) ++ msg[1..25]`.
pub fn ping_ack<A: ToBytes>(secret_hash: &[u8; 16], addr: &A, msg: &[u8], now: &[u8; 8]) -> (r: Vec<u8>)
    requires
        msg@.len() >= 25,
    ensures
        r@ == seq![0u8] + now@ + seen_proof(secret_hash@, now@, addr.encoding(), msg@.subrange(25, msg@.len() as int))
            + msg@.subrange(1, 25),
{
    let t: &[u8] = now;
    let rest = sub_bytes(msg, 25, msg.len());
    let h = sk_hash(secret_hash, t, addr, rest.as_slice());
    let mut v: Vec<u8> = Vec::new();
    v.push(0u8);
    append_bytes(&mut v, t);
    let hs: &[u8] = &h;
    append_bytes(&mut v, hs);
    let head = sub_bytes(msg, 1, 25);
    append_bytes(&mut v, head.as_slice());
    assert(v@ =~= seq![0u8] + now@ + seen_proof(secret_hash@, now@, addr.encoding(), msg@.subrange(25, msg@.len() as int))
        + msg@.subrange(1, 25));
    v
}

/// Decides how the sending side of a handshake answers the datagram `msg` from
/// `addr`: a heartbeat from a known peer opens a handshake, `[0]` alone is answered
/// with an empty datagram, and a 55-byte ping is acknowledged.
pub fn on_send<A: ToBytes>(
    msg: &[u8],
    renewed: bool,
    own_pk: &[u8; 30],
    secret_hash: &[u8; 16],
    now: &[u8; 8],
    addr: &A,
) -> (r: Reply)
    ensures
        msg@.len() == 0 ==> if renewed {
            r matches Reply::Send(v) && v@ == seq![0u8] + seen_proof(secret_hash@, now@, addr.encoding(), own_pk@) + now@ + own_pk@
        } else {
            r is Nothing
        },
        msg@.len() > 0 && msg@[0] != 0 ==> r is Nothing,
        msg@.len() == 1 && msg@[0] == 0 ==> (r matches Reply::Send(v) && v@.len() == 0),
        msg@.len() == 55 && msg@[0] == 0 ==> (r matches Reply::Send(v) && v@ == seq![0u8] + now@ + seen_proof(
            secret_hash@,
            now@,
            addr.encoding(),
            msg@.subrange(25, 55),
        ) + msg@.subrange(1, 25)),
        msg@.len() > 0 && msg@[0] == 0 && msg@.len() != 1 && msg@.len() != 55 ==> r is Nothing,
{
    let msg_len = msg.len();
    if msg_len == 0 {
        if renewed {
            return Reply::Send(ping_syn(secret_hash, addr, own_pk, now));
        }
        return Reply::Nothing;
    }
    if msg[0] != 0 {
        return Reply::Nothing;
    }
    if msg_len == 1 {
        Reply::Send(Vec::new())
    } else if msg_len == 55 {
        Reply::Send(ping_ack(secret_hash, addr, msg, now))
    } else {
        Reply::Nothing
    }
}

/// The proof-of-work token for a puzzle: the first token, in counting order, that
/// makes the XXH3-64 hash of the puzzle bytes followed by the token start with 8
/// zero bits.
pub fn puzzle_token(time_hash: &[u8]) -> (r: Vec<u8>)
    ensures
        r@ == token_of(crate::bytes::be_value(r@)),
        hash_ok(xxh3_64(time_hash@ + r@), 8),
        forall|k: nat|
            k < crate::bytes::be_value(r@) ==> !hash_ok(xxh3_64(time_hash@ + #[trigger] token_of(k)), 8),
{
    let hash = |s: &[u8]| -> (h: u64)
        ensures
            h == xxh3_64(s@),
        { xxh3_hash64(s) };
    let r = find(8, time_hash, hash);
    proof {
        assert forall|k: nat| k < crate::bytes::be_value(r@) implies !hash_ok(
            xxh3_64(time_hash@ + #[trigger] token_of(k)),
            8,
        ) by {
            assert(crate::leading_zero::tried(hash, time_hash@, token_of(k), 8, false));
        }
    }
    r
}

/// The token that `puzzle_token` finds for a puzzle: the first, in counting order,
/// that makes the XXH3-64 hash of the puzzle bytes followed by it start with 8 zero
/// bits.
pub open spec fn is_puzzle_token(time_hash: Seq<u8>, t: Seq<u8>) -> bool {
    &&& t == token_of(crate::bytes::be_value(t))
    &&& hash_ok(xxh3_64(time_hash + t), 8)
    &&& forall|k: nat| k < crate::bytes::be_value(t) ==> !hash_ok(xxh3_64(time_hash + #[trigger] token_of(k)), 8)
}

/// Our answer to a puzzle: `[0]`, the puzzle bytes, the first 30 bytes of our public
/// key, our signature of the puzzle bytes (64 bytes), and the proof-of-work token
/// for the puzzle (see `puzzle_token`); for 24 puzzle bytes, at least 119 bytes.
pub fn answer_puzzle(seed: &[u8], time_hash: &[u8]) -> (r: Vec<u8>)
    requires
        seed@.len() == 32,
    ensures
        r@.len() >= 95 + time_hash@.len(),
        r@.subrange(0, 95 + time_hash@.len() as int) == seq![0u8] + time_hash@ + ed25519_public(seed@).take(30)
            + ed25519_signature(seed@, time_hash@),
        is_puzzle_token(time_hash@, r@.subrange(95 + time_hash@.len() as int, r@.len() as int)),
{
    let pk = node_pk(seed);
    let sig = sign_with_seed(seed, time_hash);
    let s: &[u8] = &sig;
    let token = puzzle_token(time_hash);
    let r = ping_answer(time_hash, &pk, s, token.as_slice());
    proof {
        let head = seq![0u8] + time_hash@ + pk@ + sig@;
        assert(head.len() == 95 + time_hash@.len());
        assert(r@ =~= head + token@);
        assert(r@.subrange(0, 95 + time_hash@.len() as int) =~= head);
        assert(r@.subrange(95 + time_hash@.len() as int, r@.len() as int) =~= token@);
    }
    r
}

} // verus!
