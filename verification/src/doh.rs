//! Boot addresses published in DNS TXT records, encoded in Z85.
use vstd::prelude::*;

use crate::addr::ToBytes;

verus! {

/// What `z85::decode` gives for a text: the bytes, or nothing when it is not Z85.
pub uninterp spec fn z85_decoded(input: Seq<u8>) -> Option<Seq<u8>>;

/// What `z85::encode` gives for a byte string.
pub uninterp spec fn z85_encoded(input: Seq<u8>) -> Seq<char>;

/// `z85::decode`, with its error dropped. Trusted: the result is a function of the
/// input, named `z85_decoded`; as the source shows, the empty text decodes to no
/// bytes and a text whose length is not a multiple of 5 does not decode.
#[verifier::external_body]
fn z85_decode(input: &[u8]) -> (r: Option<Vec<u8>>)
    ensures
        match r {
            Some(v) => z85_decoded(input@) == Some(v@),
            None => z85_decoded(input@) is None,
        },
        input@.len() == 0 ==> r is Some && r->0@.len() == 0,
        input@.len() % 5 != 0 ==> r is None,
{
    z85::decode(input).ok()
}

/// `z85::encode`. Trusted: the result is a function of the input, named
/// `z85_encoded`; as the source shows, every 4 bytes, and a shorter tail, take 5
/// characters.
#[verifier::external_body]
fn z85_encode(input: &[u8]) -> (r: String)
    ensures
        r@ == z85_encoded(input@),
        r@.len() == input@.len() / 4 * 5 + (if input@.len() % 4 != 0 { 5int } else { 0 }),
{
    z85::encode(input)
}

/// The boot addresses that one TXT record holds: its Z85 text decoded, when that
/// works and gives at least one byte.
pub fn boot_from_txt(txt: &[u8]) -> (r: Option<Vec<u8>>)
    ensures
        match z85_decoded(txt@) {
            Some(d) => if d.len() > 0 {
                r is Some && r->0@ == d
            } else {
                r is None
            },
            None => r is None,
        },
{
    match z85_decode(txt) {
        Some(v) => {
            if v.len() > 0 {
                Some(v)
            } else {
                None
            }
        },
        None => None,
    }
}

/// The TXT record text that publishes an address: its encoding in Z85.
pub fn txt_of_addr<A: ToBytes>(a: &A) -> (r: String)
    ensures
        r@ == z85_encoded(a.encoding()),
        r@.len() == a.encoding().len() / 4 * 5 + (if a.encoding().len() % 4 != 0 { 5int } else { 0 }),
{
    let b = a.to_bytes();
    z85_encode(&b)
}

} // verus!
