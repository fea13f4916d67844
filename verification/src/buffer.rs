//! The shared byte buffers of the `bytes` crate, as the library uses them.

use bytes::Bytes;
use vstd::prelude::*;

verus! {

#[verifier::external_type_specification]
#[verifier::external_body]
pub struct ExBytes(Bytes);

/// The bytes that a `Bytes` buffer holds, in order.
pub uninterp spec fn bytes_contents(b: Bytes) -> Seq<u8>;

/// `Bytes::new`: a buffer that holds nothing.
#[verifier::external_body]
pub(crate) fn empty_bytes() -> (r: Bytes)
    ensures
        bytes_contents(r) == Seq::<u8>::empty(),
{
    Bytes::new()
}

/// `Bytes::from(Vec<u8>)`: a buffer that holds the bytes of the vector.
#[verifier::external_body]
pub(crate) fn bytes_from_vec(v: Vec<u8>) -> (r: Bytes)
    ensures
        bytes_contents(r) == v@,
{
    Bytes::from(v)
}

/// `Bytes::slice(start..)`: a buffer that holds the bytes of `b` from `start` on.
/// The source panics when `start` is past the end, which `requires` leaves out.
#[verifier::external_body]
pub(crate) fn bytes_slice_from(b: &Bytes, start: usize) -> (r: Bytes)
    requires
        start <= bytes_contents(*b).len(),
    ensures
        bytes_contents(r) == bytes_contents(*b).skip(start as int),
{
    b.slice(start..)
}

/// `Deref` of `Bytes`: the slice of the bytes it holds.
#[verifier::external_body]
pub(crate) fn bytes_as_slice(b: &Bytes) -> (r: &[u8])
    ensures
        r@ == bytes_contents(*b),
{
    &b[..]
}

} // verus!
