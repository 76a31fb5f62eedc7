//! The output buffer.
//!
//! The emission state machine accumulates framed record bytes in a
//! `bytes::BytesMut`, the growable byte buffer that the HTTP layer consumes
//! directly. The type is opaque to the verifier, so the bytes it holds are
//! named by `buf_bytes`, and every operation the machine performs on a buffer
//! goes through one of the trusted wrappers below, whose contracts state what
//! the `bytes` crate documents.

use vstd::prelude::*;

verus! {

#[verifier::external_type_specification]
#[verifier::external_body]
pub struct ExBytesMut(bytes::BytesMut);

/// The bytes held by a `BytesMut` buffer, oldest first.
pub uninterp spec fn buf_bytes(b: bytes::BytesMut) -> Seq<u8>;

/// Relies on `bytes::BytesMut::with_capacity`: the returned buffer holds no
/// bytes, whatever its capacity.
#[verifier::external_body]
pub fn buf_with_capacity(capacity: usize) -> (b: bytes::BytesMut)
    ensures
        buf_bytes(b) == Seq::<u8>::empty(),
{
    bytes::BytesMut::with_capacity(capacity)
}

/// Relies on `bytes::BytesMut::extend_from_slice`: appends the slice's bytes
/// to the end of the buffer.
#[verifier::external_body]
pub fn buf_extend(b: &mut bytes::BytesMut, src: &[u8])
    ensures
        buf_bytes(*final(b)) == buf_bytes(*old(b)) + src@,
{
    b.extend_from_slice(src);
}

/// Relies on `bytes::BytesMut::len`: the number of bytes the buffer holds.
#[verifier::external_body]
pub fn buf_len(b: &bytes::BytesMut) -> (n: usize)
    ensures
        n as nat == buf_bytes(*b).len(),
{
    b.len()
}

/// Relies on `bytes::BytesMut::split`: hands back every byte the buffer held
/// and leaves the buffer empty.
#[verifier::external_body]
pub fn buf_take(b: &mut bytes::BytesMut) -> (taken: bytes::BytesMut)
    ensures
        buf_bytes(taken) == buf_bytes(*old(b)),
        buf_bytes(*final(b)) == Seq::<u8>::empty(),
{
    b.split()
}

} // verus!
