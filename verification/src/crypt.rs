//! Sealing messages with a peer's session secret (the `xxblake3` cipher): a sealed
//! message is an 8-byte tag followed by the message XORed with a keystream.
use vstd::prelude::*;

verus! {

/// What `xxblake3::encrypt` gives for a secret, an initial value and a message.
pub uninterp spec fn xxblake3_encrypt(secret: Seq<u8>, iv: Seq<u8>, data: Seq<u8>) -> Seq<u8>;

/// What `xxblake3::decrypt` gives for a secret, an initial value and a sealed
/// message of at least 8 bytes: the message, or nothing when the tag does not match.
pub uninterp spec fn xxblake3_decrypt(secret: Seq<u8>, iv: Seq<u8>, data: Seq<u8>) -> Option<Seq<u8>>;

/// `xxblake3::encrypt`. Trusted: the result is a function of the arguments, named
/// `xxblake3_encrypt`; as its source shows, it is 8 bytes longer than `data`, and
/// `xxblake3::decrypt` with the same secret and initial value gives `data` back
/// (the tag is the XXH3-64 hash of `data` masked with a keyed hash of the
/// ciphertext, and the keystream depends only on that hash, `iv` and `secret`).
#[verifier::external_body]
fn encrypt(secret: &[u8], iv: &[u8], data: &[u8]) -> (r: Box<[u8]>)
    ensures
        r@ == xxblake3_encrypt(secret@, iv@, data@),
        r@.len() == data@.len() + 8,
        xxblake3_decrypt(secret@, iv@, r@) == Some(data@),
{
    xxblake3::encrypt(secret, iv, data)
}

/// `xxblake3::decrypt`. Trusted: the result is a function of the arguments, named
/// `xxblake3_decrypt`. It panics on data shorter than 8 bytes, which `requires`
/// leaves out.
#[verifier::external_body]
fn decrypt(secret: &[u8], iv: &[u8], data: &[u8]) -> (r: Option<Box<[u8]>>)
    requires
        data@.len() >= 8,
    ensures
        match r {
            Some(m) => xxblake3_decrypt(secret@, iv@, data@) == Some(m@),
            None => xxblake3_decrypt(secret@, iv@, data@) is None,
        },
{
    xxblake3::decrypt(secret, iv, data)
}

/// Seals `msg` with the secret stored for a peer, if there is one.
pub fn sk_encrypt(sk: Option<&[u8]>, iv: &[u8], msg: &[u8]) -> (r: Option<Box<[u8]>>)
    ensures
        match sk {
            Some(s) => r is Some && r->0@ == xxblake3_encrypt(s@, iv@, msg@)
                && xxblake3_decrypt(s@, iv@, r->0@) == Some(msg@),
            None => r is None,
        },
{
    match sk {
        Some(s) => Some(encrypt(s, iv, msg)),
        None => None,
    }
}

/// Opens a sealed message with the secret stored for a peer, if there is one.
pub fn sk_decrypt(sk: Option<&[u8]>, iv: &[u8], msg: &[u8]) -> (r: Option<Box<[u8]>>)
    requires
        sk is Some ==> msg@.len() >= 8,
    ensures
        match sk {
            Some(s) => match xxblake3_decrypt(s@, iv@, msg@) {
                Some(m) => r is Some && r->0@ == m,
                None => r is None,
            },
            None => r is None,
        },
{
    match sk {
        Some(s) => decrypt(s, iv, msg),
        None => None,
    }
}

/// Opens a sealed message with the secret stored for a peer, answers it with
/// `func`, and seals the answer; nothing when there is no secret or the message does
/// not open.
pub fn sk_decrypt_encrypt<F: Fn(&[u8]) -> Box<[u8]>>(
    sk: Option<&[u8]>,
    iv: &[u8],
    msg: &[u8],
    func: F,
) -> (r: Option<Box<[u8]>>)
    requires
        sk is Some ==> msg@.len() >= 8,
        forall|m: &[u8]| call_requires(func, (m,)),
    ensures
        match sk {
            Some(s) => match xxblake3_decrypt(s@, iv@, msg@) {
                Some(m) => r is Some && exists|q: &[u8], a: Box<[u8]>|
                    q@ == m && #[trigger] call_ensures(func, (q,), a) && r->0@ == xxblake3_encrypt(
                        s@,
                        iv@,
                        a@,
                    ),
                None => r is None,
            },
            None => r is None,
        },
{
    match sk {
        Some(s) => match decrypt(s, iv, msg) {
            Some(m) => {
                let q: &[u8] = &m;
                let a = func(q);
                let c = encrypt(s, iv, &a);
                proof {
                    assert(call_ensures(func, (q,), a));
                }
                Some(c)
            },
            None => None,
        },
        None => None,
    }
}

} // verus!
