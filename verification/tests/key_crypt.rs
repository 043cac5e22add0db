use ed25519_dalek_blake3::{Keypair, PublicKey, SecretKey, Signer};
use rmw::addr::{AddrV4, ToBytes};
use rmw::crypt::{sk_decrypt, sk_decrypt_encrypt, sk_encrypt};
use rmw::key::{hash128_bytes, node_pk, sk_hash};
use rmw::ping::answer_puzzle;

#[test]
fn hash128_bytes_is_le_xxh3() {
    let d = b"hello rmw";
    assert_eq!(hash128_bytes(d), twox_hash::xxh3::hash128(d).to_le_bytes());
    assert_ne!(&hash128_bytes(d)[..9], &d[..]);
}


#[test]
fn sk_hash_hashes_concatenation() {
    let secret = [7u8; 16];
    let now = 1234u64.to_le_bytes();
    let a = AddrV4 { ip: [1, 2, 3, 4], port: 9 };
    let msg = [9u8; 30];
    let mut all = Vec::new();
    all.extend_from_slice(&secret);
    all.extend_from_slice(&now);
    all.extend_from_slice(&a.to_bytes());
    all.extend_from_slice(&msg);
    assert_eq!(sk_hash(&secret, &now, &a, &msg), hash128_bytes(&all));
}

#[test]
fn node_key_and_signature() {
    let seed = [3u8; 32];
    let secret = SecretKey::from_bytes(&seed).unwrap();
    let public = PublicKey::from(&secret);
    let pk = public.to_bytes();
    assert_ne!(pk, seed);
    assert_eq!(&node_pk(&seed)[..], &pk[..30]);
    let pair = Keypair { public, secret };
    let th = [6u8; 24];
    let a = answer_puzzle(&seed, &th);
    assert_eq!(&a[55..119], &pair.sign(&th).to_bytes()[..]);
    assert_eq!(a, answer_puzzle(&seed, &th));
}

#[test]
fn encrypt_then_decrypt_gives_message() {
    let sk = [5u8; 32];
    let iv = [1u8, 2, 3];
    let msg = b"a message";
    let c = sk_encrypt(Some(&sk), &iv, msg).unwrap();
    assert_eq!(c.len(), msg.len() + 8);
    assert_ne!(&c[8..], &msg[..]);
    assert_eq!(&sk_decrypt(Some(&sk), &iv, &c).unwrap()[..], &msg[..]);
    assert!(sk_encrypt(None, &iv, msg).is_none());
    assert!(sk_decrypt(None, &iv, &c).is_none());
}

#[test]
fn decrypt_with_wrong_secret_fails() {
    let c = sk_encrypt(Some(&[5u8; 32]), &[1], b"secret stuff").unwrap();
    assert!(sk_decrypt(Some(&[6u8; 32]), &[1], &c).is_none());
}

#[test]
fn decrypt_encrypt_answers() {
    let sk = [8u8; 32];
    let iv = [4u8; 8];
    let c = sk_encrypt(Some(&sk), &iv, b"ping").unwrap();
    let r = sk_decrypt_encrypt(Some(&sk), &iv, &c, |m: &[u8]| {
        let mut v = m.to_vec();
        v.reverse();
        v.into_boxed_slice()
    })
    .unwrap();
    assert_eq!(&sk_decrypt(Some(&sk), &iv, &r).unwrap()[..], b"gnip");
    assert!(sk_decrypt_encrypt(Some(&sk), &iv, &[0u8; 12], |m: &[u8]| m.to_vec().into_boxed_slice()).is_none());
}
