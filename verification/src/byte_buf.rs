//! Trusted interface to the byte buffers of the `bytes` crate: the
//! mutable assembly buffer `BytesMut` and the frozen output `Bytes`,
//! each modeled by the byte sequence it holds.

use vstd::prelude::*;
use bytes::BufMut;

verus! {

#[verifier::external_type_specification]
#[verifier::external_body]
pub struct ExBytesMut(bytes::BytesMut);

#[verifier::external_type_specification]
#[verifier::external_body]
pub struct ExBytes(bytes::Bytes);

/// The bytes held by a `BytesMut` buffer.
pub uninterp spec fn bytes_mut_view(b: bytes::BytesMut) -> Seq<u8>;

/// The bytes held by a frozen `Bytes` buffer.
pub uninterp spec fn bytes_view(b: bytes::Bytes) -> Seq<u8>;

/// Relies on `bytes::BytesMut::with_capacity`: the returned buffer is
/// empty (capacity is only a reservation).
#[verifier::external_body]
pub fn bytes_mut_with_capacity(capacity: usize) -> (r: bytes::BytesMut)
    ensures
        bytes_mut_view(r) == Seq::<u8>::empty(),
{
    bytes::BytesMut::with_capacity(capacity)
}

/// Relies on `bytes::BytesMut::extend_from_slice`: appends the slice to
/// the buffer's contents.
#[verifier::external_body]
pub fn bytes_mut_extend(b: &mut bytes::BytesMut, s: &[u8])
    ensures
        bytes_mut_view(*final(b)) == bytes_mut_view(*old(b)) + s@,
{
    b.extend_from_slice(s)
}

/// Relies on `bytes::BufMut::put_u8` for `BytesMut`: appends one byte
/// (the buffer grows, so capacity never runs out).
#[verifier::external_body]
pub fn bytes_mut_put_u8(b: &mut bytes::BytesMut, byte: u8)
    ensures
        bytes_mut_view(*final(b)) == bytes_mut_view(*old(b)) + seq![byte],
{
    b.put_u8(byte)
}

/// Relies on `bytes::BytesMut::len`: the number of bytes held.
#[verifier::external_body]
pub fn bytes_mut_len(b: &bytes::BytesMut) -> (r: usize)
    ensures
        r == bytes_mut_view(*b).len(),
{
    b.len()
}

/// Relies on `AsRef<[u8]>` for `bytes::BytesMut`: a view of the bytes
/// held.
#[verifier::external_body]
pub fn bytes_mut_as_slice(b: &bytes::BytesMut) -> (r: &[u8])
    ensures
        r@ == bytes_mut_view(*b),
{
    b.as_ref()
}

/// Relies on `bytes::BytesMut::freeze`: converts the buffer into an
/// immutable `Bytes` holding the same contents.
#[verifier::external_body]
pub fn bytes_mut_freeze(b: bytes::BytesMut) -> (r: bytes::Bytes)
    ensures
        bytes_view(r) == bytes_mut_view(b),
{
    b.freeze()
}

} // verus!
