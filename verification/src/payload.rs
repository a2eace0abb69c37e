//! `bytes::Bytes`, the shared buffer that carries stream payloads.

use bytes::Bytes;
use vstd::prelude::*;

verus! {

/// `bytes::Bytes`, opaque; [`contents`] says what it holds.
#[verifier::external_type_specification]
#[verifier::external_body]
pub struct ExBytes(Bytes);

/// The bytes that a buffer holds, in order.
pub uninterp spec fn contents(b: Bytes) -> Seq<u8>;

/// `Bytes::len`: the number of bytes held.
pub assume_specification[ Bytes::len ](b: &Bytes) -> (n: usize)
    ensures
        n == contents(*b).len(),
;

/// `Bytes::clone`: another handle on the same bytes.
pub assume_specification[ <Bytes as Clone>::clone ](b: &Bytes) -> (r: Bytes)
    ensures
        contents(r) == contents(*b),
;

/// `Bytes::copy_from_slice`: a buffer that holds a copy of `data`.
pub assume_specification[ Bytes::copy_from_slice ](data: &[u8]) -> (r: Bytes)
    ensures
        contents(r) == data@,
;

/// `Bytes::slice` with a range that is open at the end: a handle on what
/// follows the first `begin` bytes. The call panics past the end.
#[verifier::external_body]
pub(crate) fn slice_from(b: &Bytes, begin: usize) -> (r: Bytes)
    requires
        begin <= contents(*b).len(),
    ensures
        contents(r) == contents(*b).skip(begin as int),
{
    b.slice(begin..)
}

/// `Bytes::from` on a vector: a buffer that holds the vector's bytes.
#[verifier::external_body]
pub(crate) fn from_vec(data: Vec<u8>) -> (r: Bytes)
    ensures
        contents(r) == data@,
{
    Bytes::from(data)
}

/// `Bytes::as_ref`: the bytes held, as a slice.
#[verifier::external_body]
pub(crate) fn as_slice(b: &Bytes) -> (r: &[u8])
    ensures
        r@ == contents(*b),
{
    b.as_ref()
}

} // verus!
