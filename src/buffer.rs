//! The growable byte buffer that framed transports hand to the codec.
use vstd::prelude::*;
use bytes::BytesMut;

verus! {

#[verifier::external_type_specification]
#[verifier::external_body]
pub struct ExBytesMut(bytes::BytesMut);

/// The bytes a buffer holds, front first.
pub uninterp spec fn buffer_contents(b: BytesMut) -> Seq<u8>;

/// Relies on BytesMut::len: the number of bytes held.
#[verifier::external_body]
pub fn buffer_len(b: &BytesMut) -> (r: usize)
    ensures
        r == buffer_contents(*b).len(),
{
    b.len()
}

/// Relies on indexing through BytesMut's deref to a slice of its bytes.
#[verifier::external_body]
pub fn buffer_byte(b: &BytesMut, i: usize) -> (r: u8)
    requires
        i < buffer_contents(*b).len(),
    ensures
        r == buffer_contents(*b)[i as int],
{
    b[i]
}

/// Relies on Buf::advance for BytesMut: drops `n` bytes from the front.
#[verifier::external_body]
pub fn buffer_advance(b: &mut BytesMut, n: usize)
    requires
        n <= buffer_contents(*old(b)).len(),
    ensures
        buffer_contents(*final(b)) == buffer_contents(*old(b)).skip(n as int),
{
    bytes::Buf::advance(b, n)
}

/// Relies on BytesMut::reserve: makes room for `n` more bytes and keeps the contents.
#[verifier::external_body]
pub fn buffer_reserve(b: &mut BytesMut, n: usize)
    requires
        buffer_contents(*old(b)).len() + n <= isize::MAX,
    ensures
        buffer_contents(*final(b)) == buffer_contents(*old(b)),
{
    b.reserve(n)
}

/// Relies on BytesMut::extend_from_slice: appends the bytes of `data`.
#[verifier::external_body]
pub fn buffer_extend(b: &mut BytesMut, data: &[u8])
    requires
        buffer_contents(*old(b)).len() + data@.len() <= isize::MAX,
    ensures
        buffer_contents(*final(b)) == buffer_contents(*old(b)) + data@,
{
    b.extend_from_slice(data)
}

} // verus!
