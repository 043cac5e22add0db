use rmw::addr::{AddrV4, ToBytes};
use rmw::key::{hash128_bytes, node_pk};
use rmw::ping::{answer_puzzle, needs_renew, on_recv, on_send, ping_answer, puzzle_token, route, task_id, Reply, Route};

fn sent(r: Reply) -> Vec<u8> {
    match r {
        Reply::Send(v) => v,
        _ => panic!("expected a reply"),
    }
}

const PK: [u8; 30] = [9; 30];
const SH: [u8; 16] = [4; 16];
const NOW: [u8; 8] = [1, 2, 3, 4, 5, 6, 7, 8];

fn peer() -> AddrV4 {
    AddrV4 { ip: [127, 0, 0, 1], port: 7 }
}

#[test]
fn heartbeat() {
    assert!(needs_renew(&[]));
    let v = sent(on_recv(&[], true, &PK, &SH, &NOW, &peer()));
    let mut want = vec![0u8];
    want.extend_from_slice(&PK);
    want.extend_from_slice(&NOW);
    assert_eq!(v, want);
    assert!(matches!(on_recv(&[], false, &PK, &SH, &NOW, &peer()), Reply::Nothing));
}

#[test]
fn bare_ping_gets_empty_reply() {
    assert!(sent(on_recv(&[0], false, &PK, &SH, &NOW, &peer())).is_empty());
    assert!(matches!(on_recv(&[1], true, &PK, &SH, &NOW, &peer()), Reply::Nothing));
}

#[test]
fn hello_gets_proof() {
    let mut msg = vec![0u8];
    msg.extend_from_slice(&[3u8; 30]);
    msg.extend_from_slice(&[0u8; 8]);
    let v = sent(on_recv(&msg, false, &PK, &SH, &NOW, &peer()));
    let mut all = Vec::new();
    all.extend_from_slice(&SH);
    all.extend_from_slice(&NOW);
    all.extend_from_slice(&peer().to_bytes());
    all.extend_from_slice(&[3u8; 30]);
    let mut want = vec![0u8];
    want.extend_from_slice(&hash128_bytes(&all));
    want.extend_from_slice(&NOW);
    assert_eq!(v, want);
    // A hello with our own key is ignored.
    let mut own = vec![0u8];
    own.extend_from_slice(&PK);
    own.extend_from_slice(&[0u8; 8]);
    assert!(matches!(on_recv(&own, false, &PK, &SH, &NOW, &peer()), Reply::Nothing));
}

#[test]
fn puzzle_from_known_peer() {
    let msg: Vec<u8> = (0..25u8).collect();
    assert!(needs_renew(&msg));
    match on_recv(&msg, true, &PK, &SH, &NOW, &peer()) {
        Reply::Solve(v) => assert_eq!(v, (1..25u8).collect::<Vec<u8>>()),
        _ => panic!("expected a puzzle"),
    }
    assert!(matches!(on_recv(&msg, false, &PK, &SH, &NOW, &peer()), Reply::Nothing));
}

#[test]
fn other_lengths_ignored() {
    assert!(matches!(on_recv(&[0u8; 47], true, &PK, &SH, &NOW, &peer()), Reply::Nothing));
    assert!(matches!(on_recv(&[0u8; 120], true, &PK, &SH, &NOW, &peer()), Reply::Nothing));
}

#[test]
fn puzzle_token_has_eight_zero_bits() {
    let th = [7u8; 24];
    let t = puzzle_token(&th);
    let mut all = th.to_vec();
    all.extend_from_slice(&t);
    assert!(twox_hash::xxh3::hash64(&all).leading_zeros() >= 8);
}

#[test]
fn puzzle_answer_is_signed() {
    let seed = [2u8; 32];
    let th = [5u8; 24];
    let a = answer_puzzle(&seed, &th);
    let token = puzzle_token(&th);
    assert_eq!(a.len(), 1 + 24 + 30 + 64 + token.len());
    assert!(a.len() >= 119);
    assert_eq!(&a[..55], &ping_answer(&th, &node_pk(&seed), &[], &[])[..]);
    assert_eq!(&a[119..], &token[..]);
    let mut all = th.to_vec();
    all.extend_from_slice(&a[119..]);
    assert!(twox_hash::xxh3::hash64(&all).leading_zeros() >= 8);
}

#[test]
fn puzzle_answer_carries_a_nonempty_token() {
    // Puzzle bytes whose hash alone does not start with 8 zero bits need a token.
    let mut th = [0u8; 24];
    let mut i: u8 = 0;
    while twox_hash::xxh3::hash64(&th).leading_zeros() >= 8 {
        i += 1;
        th[0] = i;
    }
    let a = answer_puzzle(&[3u8; 32], &th);
    assert!(a.len() > 119);
}

#[test]
fn send_side_handshake() {
    let v = sent(on_send(&[], true, &PK, &SH, &NOW, &peer()));
    assert_eq!(v.len(), 55);
    assert_eq!(&v[17..25], &NOW);
    assert_eq!(&v[25..], &PK);
    let msg: Vec<u8> = (0..55u8).collect();
    let ack = sent(on_send(&msg, false, &PK, &SH, &NOW, &peer()));
    assert_eq!(ack.len(), 49);
    assert_eq!(&ack[1..9], &NOW);
    assert_eq!(&ack[25..], &msg[1..25]);
    assert!(matches!(on_send(&[0u8; 39], true, &PK, &SH, &NOW, &peer()), Reply::Nothing));
}

#[test]
fn task_ids() {
    assert_eq!(task_id(&[1, 0, 0, 0, 9]), Some(1));
    assert_eq!(task_id(&[0, 0, 0, 1]), Some(1 << 24));
    assert_eq!(task_id(&[0, 0]), None);
}

#[test]
fn framed_messages_are_routed() {
    assert!(matches!(route(&[]), Route::Heartbeat));
    assert!(matches!(route(&[0, 0]), Route::Short));
    assert!(matches!(route(&[0, 0, 0, 0, 9]), Route::Ping));
    assert!(matches!(route(&[1, 2, 0, 0]), Route::Task(513)));
}
