//! The byte buffers of the `bytes` crate.

use bytes::{BufMut, Bytes, BytesMut};
use vstd::prelude::*;

verus! {

/// `bytes::Bytes`: bytes that are shared and no longer change.
#[verifier::external_type_specification]
#[verifier::external_body]
pub struct ExBytes(Bytes);

/// `bytes::BytesMut`: bytes that are being collected.
#[verifier::external_type_specification]
#[verifier::external_body]
pub struct ExBytesMut(BytesMut);

/// The bytes that a `Bytes` holds.
pub uninterp spec fn bytes_in(b: Bytes) -> Seq<u8>;

/// The bytes that a `BytesMut` holds.
pub uninterp spec fn buffered_in(b: BytesMut) -> Seq<u8>;

/// `BytesMut::with_capacity`: a buffer that holds nothing yet. It would panic for a capacity that
/// memory cannot hold.
#[verifier::external_body]
pub(crate) fn new_buffer(capacity: usize) -> (r: BytesMut)
    requires
        capacity <= 0x1fff_ffff,
    ensures
        buffered_in(r) == Seq::<u8>::empty(),
{
    BytesMut::with_capacity(capacity)
}

/// `BufMut::put_u8` on a `BytesMut`: appends one byte. It would panic where the buffer cannot grow
/// any more.
#[verifier::external_body]
pub(crate) fn put_byte(buf: &mut BytesMut, byte: u8)
    requires
        buffered_in(*old(buf)).len() < 0x1fff_ffff,
    ensures
        buffered_in(*final(buf)) == buffered_in(*old(buf)).push(byte),
{
    buf.put_u8(byte)
}

/// `BufMut::put_slice` on a `BytesMut`: appends some bytes. It would panic where the buffer cannot
/// grow any more.
#[verifier::external_body]
pub(crate) fn put_bytes(buf: &mut BytesMut, bytes: &[u8])
    requires
        buffered_in(*old(buf)).len() + bytes@.len() <= 0x1fff_ffff,
    ensures
        buffered_in(*final(buf)) == buffered_in(*old(buf)) + bytes@,
{
    buf.put_slice(bytes)
}

/// `BytesMut::freeze`: the same bytes, no longer changing.
#[verifier::external_body]
pub(crate) fn freeze(buf: BytesMut) -> (r: Bytes)
    ensures
        bytes_in(r) == buffered_in(buf),
{
    buf.freeze()
}

/// `BytesMut::new`: a buffer that holds nothing and has allocated nothing.
#[verifier::external_body]
pub(crate) fn empty_buffer() -> (r: BytesMut)
    ensures
        buffered_in(r) == Seq::<u8>::empty(),
{
    BytesMut::new()
}

/// `Bytes::copy_from_slice`: a copy of some bytes.
#[verifier::external_body]
pub(crate) fn copy_bytes(bytes: &[u8]) -> (r: Bytes)
    ensures
        bytes_in(r) == bytes@,
{
    Bytes::copy_from_slice(bytes)
}

/// `Bytes` as a slice, by `AsRef`: the bytes it holds.
#[verifier::external_body]
pub(crate) fn as_slice(bytes: &Bytes) -> (r: &[u8])
    ensures
        r@ == bytes_in(*bytes),
{
    bytes.as_ref()
}

}
