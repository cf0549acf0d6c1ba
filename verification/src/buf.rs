//! Shared and growable byte buffers, from the `bytes` crate.

use bytes::{Bytes, BytesMut};
use vstd::prelude::*;

verus! {

#[verifier::external_type_specification]
#[verifier::external_body]
pub struct ExBytes(Bytes);

#[verifier::external_type_specification]
#[verifier::external_body]
pub struct ExBytesMut(BytesMut);

/// The bytes that a [`Bytes`] holds.
pub uninterp spec fn bytes_of(b: Bytes) -> Seq<u8>;

/// The bytes that a [`BytesMut`] holds.
pub uninterp spec fn buffer_of(b: BytesMut) -> Seq<u8>;

/// Whether `n` more bytes fit behind what the buffer holds: no allocation may
/// exceed `isize::MAX` bytes.
pub open spec fn has_room(b: BytesMut, n: nat) -> bool {
    buffer_of(b).len() + n <= isize::MAX
}

/// `Bytes::new`: nothing in it.
#[verifier::external_body]
pub(crate) fn empty_bytes() -> (res: Bytes)
    ensures
        bytes_of(res) == Seq::<u8>::empty(),
{
    Bytes::new()
}

/// `Bytes::copy_from_slice`: holds a copy of the slice.
#[verifier::external_body]
pub(crate) fn bytes_copy(s: &[u8]) -> (res: Bytes)
    ensures
        bytes_of(res) == s@,
{
    Bytes::copy_from_slice(s)
}

/// `Bytes::as_ref`: the bytes held, as a slice.
#[verifier::external_body]
pub(crate) fn bytes_slice(b: &Bytes) -> (res: &[u8])
    ensures
        res@ == bytes_of(*b),
{
    b.as_ref()
}

/// `Bytes::slice`: a part of the bytes held, shared and not copied. The range
/// has to lie within them.
#[verifier::external_body]
pub(crate) fn bytes_part(b: &Bytes, from: usize, to: usize) -> (res: Bytes)
    requires
        from <= to <= bytes_of(*b).len(),
    ensures
        bytes_of(res) == bytes_of(*b).subrange(from as int, to as int),
{
    b.slice(from..to)
}

/// `Bytes::clone`: another handle on the same bytes.
#[verifier::external_body]
pub(crate) fn bytes_clone(b: &Bytes) -> (res: Bytes)
    ensures
        bytes_of(res) == bytes_of(*b),
{
    b.clone()
}

/// `BytesMut::new`: nothing in it.
#[verifier::external_body]
pub(crate) fn empty_buffer() -> (res: BytesMut)
    ensures
        buffer_of(res) == Seq::<u8>::empty(),
{
    BytesMut::new()
}

/// `BytesMut::extend_from_slice`: appends the slice. What is held afterwards
/// has to fit an allocation.
#[verifier::external_body]
pub(crate) fn buffer_extend(b: &mut BytesMut, s: &[u8])
    requires
        has_room(*old(b), s@.len()),
    ensures
        buffer_of(*final(b)) == buffer_of(*old(b)) + s@,
{
    b.extend_from_slice(s)
}

/// `BytesMut::as_ref`: the bytes held, as a slice.
#[verifier::external_body]
pub(crate) fn buffer_slice(b: &BytesMut) -> (res: &[u8])
    ensures
        res@ == buffer_of(*b),
{
    b.as_ref()
}

/// `BytesMut::split`: hands out all that is held and leaves nothing.
#[verifier::external_body]
pub(crate) fn buffer_split(b: &mut BytesMut) -> (res: BytesMut)
    ensures
        buffer_of(res) == buffer_of(*old(b)),
        buffer_of(*final(b)) == Seq::<u8>::empty(),
{
    b.split()
}

/// `BytesMut::freeze`: the same bytes, no longer growable.
#[verifier::external_body]
pub(crate) fn buffer_freeze(b: BytesMut) -> (res: Bytes)
    ensures
        bytes_of(res) == buffer_of(b),
{
    b.freeze()
}

} // verus!
