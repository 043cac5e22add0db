//! Hashes of keys and messages.
use vstd::prelude::*;

use crate::addr::ToBytes;
use ed25519_dalek_blake3::Signer;
use crate::bytes::{append_bytes, u128_le_bytes, u128_to_le};

verus! {

/// The 128-bit XXH3 hash of a byte string (with seed 0).
pub uninterp spec fn xxh3_128(data: Seq<u8>) -> u128;

/// `twox_hash::xxh3::hash128`. Trusted: its result is the XXH3-128 hash of the
/// bytes, a function of them alone, named `xxh3_128`.
#[verifier::external_body]
fn xxh3_hash128(data: &[u8]) -> (r: u128)
    ensures
        r == xxh3_128(data@),
{
    twox_hash::xxh3::hash128(data)
}

/// The XXH3-128 hash of `data`, as 16 bytes, least significant first.
pub fn hash128_bytes(data: &[u8]) -> (r: [u8; 16])
    ensures
        r@ == u128_le_bytes(xxh3_128(data@)),
{
    u128_to_le(xxh3_hash128(data))
}

/// The proof that we answered a ping from `addr`: the hash of our secret-key hash,
/// the time, the encoded address and the message, one after another.
pub fn sk_hash<A: ToBytes>(secret_hash: &[u8; 16], now: &[u8], addr: &A, msg: &[u8]) -> (r: [u8; 16])
    ensures
        r@ == u128_le_bytes(xxh3_128(secret_hash@ + now@ + addr.encoding() + msg@)),
{
    let mut v: Vec<u8> = Vec::new();
    let s: &[u8] = secret_hash;
    append_bytes(&mut v, s);
    append_bytes(&mut v, now);
    let a = addr.to_bytes();
    append_bytes(&mut v, &a);
    append_bytes(&mut v, msg);
    hash128_bytes(v.as_slice())
}

/// The 64-bit XXH3 hash of a byte string (with seed 0).
pub uninterp spec fn xxh3_64(data: Seq<u8>) -> u64;

/// `twox_hash::xxh3::hash64`. Trusted: its result is the XXH3-64 hash of the bytes,
/// a function of them alone, named `xxh3_64`.
#[verifier::external_body]
pub(crate) fn xxh3_hash64(data: &[u8]) -> (r: u64)
    ensures
        r == xxh3_64(data@),
{
    twox_hash::xxh3::hash64(data)
}

/// The Ed25519 (BLAKE3 variant) public key of a 32-byte secret seed.
pub uninterp spec fn ed25519_public(seed: Seq<u8>) -> Seq<u8>;

/// The Ed25519 (BLAKE3 variant) signature of a message under a 32-byte secret seed.
pub uninterp spec fn ed25519_signature(seed: Seq<u8>, msg: Seq<u8>) -> Seq<u8>;

/// The public key of the key pair made from `seed` (`SecretKey::from_bytes`, then
/// `PublicKey::from`). Trusted: the result is a function of the seed, named
/// `ed25519_public`. `SecretKey::from_bytes` fails, and the unwrap panics, unless
/// the seed is 32 bytes long, which `requires` asks.
#[verifier::external_body]
pub(crate) fn public_of_seed(seed: &[u8]) -> (r: [u8; 32])
    requires
        seed@.len() == 32,
    ensures
        r@ == ed25519_public(seed@),
{
    let secret = ed25519_dalek_blake3::SecretKey::from_bytes(seed).unwrap();
    ed25519_dalek_blake3::PublicKey::from(&secret).to_bytes()
}

/// The signature of `msg` by the key pair made from `seed` (`Signer::sign` of a
/// `Keypair`). Trusted: Ed25519 signing is deterministic, so the result is a
/// function of the seed and the message, named `ed25519_signature`. The seed must
/// be 32 bytes long, as for `public_of_seed`.
#[verifier::external_body]
pub(crate) fn sign_with_seed(seed: &[u8], msg: &[u8]) -> (r: [u8; 64])
    requires
        seed@.len() == 32,
    ensures
        r@ == ed25519_signature(seed@, msg@),
{
    let secret = ed25519_dalek_blake3::SecretKey::from_bytes(seed).unwrap();
    let public = ed25519_dalek_blake3::PublicKey::from(&secret);
    let pair = ed25519_dalek_blake3::Keypair { public, secret };
    Signer::sign(&pair, msg).to_bytes()
}

/// The public key that a node shows: the first 30 bytes of its Ed25519 public key.
pub fn node_pk(seed: &[u8]) -> (r: [u8; 30])
    requires
        seed@.len() == 32,
    ensures
        r@ == ed25519_public(seed@).take(30),
{
    let p = public_of_seed(seed);
    let r = [
        p[0], p[1], p[2], p[3], p[4], p[5], p[6], p[7], p[8], p[9], p[10], p[11], p[12], p[13],
        p[14], p[15], p[16], p[17], p[18], p[19], p[20], p[21], p[22], p[23], p[24], p[25], p[26],
        p[27], p[28], p[29],
    ];
    assert(r@ =~= p@.take(30));
    r
}

} // verus!
