//! Owned byte buffers of fixed length (`Box<[u8]>`).
use vstd::prelude::*;

verus! {

/// Turns a vector into a boxed slice with the same bytes.
/// Trusted: `Vec::into_boxed_slice` keeps the elements and their order.
#[verifier::external_body]
pub(crate) fn into_boxed(v: Vec<u8>) -> (r: Box<[u8]>)
    ensures
        r@ == v@,
{
    v.into_boxed_slice()
}

/// A copy of a boxed slice.
/// Trusted: `<Box<[u8]> as Clone>::clone` copies the bytes.
#[verifier::external_body]
pub(crate) fn clone_boxed(b: &Box<[u8]>) -> (r: Box<[u8]>)
    ensures
        r@ == b@,
{
    b.clone()
}

} // verus!
