//! The byte buffers of the `bytes` crate, as sequences of bytes.
//!
//! The functions here hand their arguments to that crate. Their contracts say
//! what its sources show of each call, and are not proved.
use bytes::Bytes;
use bytes::BytesMut;
use vstd::prelude::*;

verus! {

/// A shared, immutable buffer.
#[verifier::external_type_specification]
#[verifier::external_body]
pub struct ExBytes(bytes::Bytes);

/// A buffer that one owner writes.
#[verifier::external_type_specification]
#[verifier::external_body]
pub struct ExBytesMut(bytes::BytesMut);

/// The bytes that a shared buffer holds.
pub uninterp spec fn bytes_contents(b: Bytes) -> Seq<u8>;

/// The bytes that a writable buffer holds.
pub uninterp spec fn bytes_mut_contents(b: BytesMut) -> Seq<u8>;

/// `Bytes::as_ref`: the buffer's bytes as a slice.
#[verifier::external_body]
pub(crate) fn as_slice(b: &Bytes) -> (s: &[u8])
    ensures
        s@ == bytes_contents(*b),
{
    b.as_ref()
}

/// `Bytes::clone`: another handle on the same bytes.
pub assume_specification[ <Bytes as Clone>::clone ](b: &Bytes) -> (r: Bytes)
    ensures
        bytes_contents(r) == bytes_contents(*b),
;

/// `Bytes::copy_from_slice`: a new buffer that holds a copy of the slice.
#[verifier::external_body]
pub(crate) fn copy_of(s: &[u8]) -> (r: Bytes)
    ensures
        bytes_contents(r) == s@,
{
    Bytes::copy_from_slice(s)
}

/// `BytesMut::with_capacity`: an empty buffer. A capacity beyond `isize::MAX`
/// would panic.
#[verifier::external_body]
pub(crate) fn with_capacity(capacity: usize) -> (r: BytesMut)
    requires
        capacity <= isize::MAX,
    ensures
        bytes_mut_contents(r) == Seq::<u8>::empty(),
{
    BytesMut::with_capacity(capacity)
}

/// `BytesMut::extend_from_slice`: appends a copy of the slice. A buffer longer
/// than `isize::MAX` would panic.
#[verifier::external_body]
pub(crate) fn extend_from_slice(b: &mut BytesMut, s: &[u8])
    requires
        bytes_mut_contents(*old(b)).len() + s@.len() <= isize::MAX,
    ensures
        bytes_mut_contents(*final(b)) == bytes_mut_contents(*old(b)) + s@,
{
    b.extend_from_slice(s)
}

/// `BytesMut::split_off`: keeps the first `at` bytes and returns the others.
#[verifier::external_body]
pub(crate) fn split_off(b: &mut BytesMut, at: usize) -> (r: BytesMut)
    requires
        at <= bytes_mut_contents(*old(b)).len(),
    ensures
        bytes_mut_contents(*final(b)) == bytes_mut_contents(*old(b)).take(at as int),
        bytes_mut_contents(r) == bytes_mut_contents(*old(b)).skip(at as int),
{
    b.split_off(at)
}

/// `BytesMut::resize`: cuts the buffer down to `new_len` bytes, or fills it up
/// to them with `value`.
#[verifier::external_body]
pub(crate) fn resize(b: &mut BytesMut, new_len: usize, value: u8)
    requires
        new_len <= isize::MAX,
    ensures
        bytes_mut_contents(*final(b)) == (if new_len <= bytes_mut_contents(*old(b)).len() {
            bytes_mut_contents(*old(b)).take(new_len as int)
        } else {
            bytes_mut_contents(*old(b)) + Seq::new(
                (new_len - bytes_mut_contents(*old(b)).len()) as nat,
                |i: int| value,
            )
        }),
{
    b.resize(new_len, value)
}

/// `BytesMut::unsplit`: appends the bytes of another buffer.
#[verifier::external_body]
pub(crate) fn unsplit(b: &mut BytesMut, other: BytesMut)
    requires
        bytes_mut_contents(*old(b)).len() + bytes_mut_contents(other).len() <= isize::MAX,
    ensures
        bytes_mut_contents(*final(b)) == bytes_mut_contents(*old(b)) + bytes_mut_contents(other),
{
    b.unsplit(other)
}

/// `BytesMut::as_ref`: the buffer's bytes as a slice.
#[verifier::external_body]
pub(crate) fn as_slice_of_mut(b: &BytesMut) -> (s: &[u8])
    ensures
        s@ == bytes_mut_contents(*b),
{
    b.as_ref()
}

/// `BytesMut::as_mut`: the buffer's bytes as a slice that can be written. What
/// is written there is what the buffer holds afterwards.
#[verifier::external_body]
pub(crate) fn as_mut_slice(b: &mut BytesMut) -> (s: &mut [u8])
    ensures
        s@ == bytes_mut_contents(*old(b)),
        bytes_mut_contents(*final(b)) == final(s)@,
{
    b.as_mut()
}

/// `BytesMut::freeze`: the same bytes, from now on shared and immutable.
#[verifier::external_body]
pub(crate) fn freeze(b: BytesMut) -> (r: Bytes)
    ensures
        bytes_contents(r) == bytes_mut_contents(b),
{
    b.freeze()
}

} // verus!
