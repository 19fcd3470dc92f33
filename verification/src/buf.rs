//! The byte buffer type of the `bytes` crate, and the calls into it.

use vstd::prelude::*;
use bytes::BytesMut;

verus! {

#[verifier::external_type_specification]
#[verifier::external_body]
pub struct ExBytesMut(BytesMut);

/// The bytes that a `BytesMut` holds, front to back.
pub uninterp spec fn bytes_of(b: BytesMut) -> Seq<u8>;

/// `BytesMut::new`: the buffer it returns holds no bytes.
#[verifier::external_body]
pub(crate) fn bytes_new() -> (b: BytesMut)
    ensures
        bytes_of(b) == Seq::<u8>::empty(),
{
    BytesMut::new()
}

/// `BytesMut::len`: the number of bytes held.
#[verifier::external_body]
pub(crate) fn bytes_len(b: &BytesMut) -> (n: usize)
    ensures
        n == bytes_of(*b).len(),
{
    b.len()
}

/// `BytesMut::extend_from_slice`: appends the slice at the back (it reserves
/// room first, so it does not fail for want of capacity).
#[verifier::external_body]
pub(crate) fn bytes_extend(b: &mut BytesMut, data: &[u8])
    requires
        bytes_of(*old(b)).len() + data@.len() <= isize::MAX,
    ensures
        bytes_of(*final(b)) == bytes_of(*old(b)) + data@,
{
    b.extend_from_slice(data)
}

/// `BytesMut::split_to`: hands out the first `at` bytes and keeps the rest.
#[verifier::external_body]
pub(crate) fn bytes_split_to(b: &mut BytesMut, at: usize) -> (front: BytesMut)
    requires
        at <= bytes_of(*old(b)).len(),
    ensures
        bytes_of(front) == bytes_of(*old(b)).take(at as int),
        bytes_of(*final(b)) == bytes_of(*old(b)).skip(at as int),
{
    b.split_to(at)
}

/// `BytesMut::split_off`: keeps the first `at` bytes and hands out the rest.
#[verifier::external_body]
pub(crate) fn bytes_split_off(b: &mut BytesMut, at: usize) -> (back: BytesMut)
    requires
        at <= bytes_of(*old(b)).len(),
    ensures
        bytes_of(back) == bytes_of(*old(b)).skip(at as int),
        bytes_of(*final(b)) == bytes_of(*old(b)).take(at as int),
{
    b.split_off(at)
}

/// `BytesMut::as_ref`: the held bytes as a slice.
#[verifier::external_body]
pub(crate) fn bytes_as_slice(b: &BytesMut) -> (s: &[u8])
    ensures
        s@ == bytes_of(*b),
{
    b.as_ref()
}

/// `BytesMut::clone`: a new buffer with the same bytes.
#[verifier::external_body]
pub(crate) fn bytes_clone(b: &BytesMut) -> (c: BytesMut)
    ensures
        bytes_of(c) == bytes_of(*b),
{
    b.clone()
}

/// The number of bytes a buffer holds.
pub fn held_len(b: &BytesMut) -> (n: usize)
    ensures
        n == bytes_of(*b).len(),
{
    bytes_len(b)
}

} // verus!
