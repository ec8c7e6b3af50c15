//! The growing buffer that messages are written into.

use bytes::{Buf, BufMut, BytesMut};
use vstd::prelude::*;

use crate::wire::be_bytes;

verus! {

/// `bytes::BytesMut`.
#[verifier::external_type_specification]
#[verifier::external_body]
pub struct ExBytesMut(bytes::BytesMut);

/// What has been written into a buffer and not been read from it.
pub uninterp spec fn written(buf: BytesMut) -> Seq<u8>;

/// Whether `extra` more bytes can be written: a buffer grows by doubling, and
/// no allocation may exceed `isize::MAX` bytes.
pub open spec fn has_room(buf: BytesMut, extra: nat) -> bool {
    2 * (written(buf).len() + extra) <= isize::MAX
}

/// `BytesMut::new`: a buffer that holds nothing.
#[verifier::external_body]
pub(crate) fn new_buffer() -> (buf: BytesMut)
    ensures
        written(buf) == Seq::<u8>::empty(),
{
    BytesMut::new()
}

/// `BufMut::put_u8` on a `BytesMut`: appends the byte.
#[verifier::external_body]
pub(crate) fn put_u8(buf: &mut BytesMut, n: u8)
    requires
        has_room(*old(buf), 1),
    ensures
        written(*final(buf)) == written(*old(buf)).push(n),
{
    buf.put_u8(n)
}

/// `BufMut::put_u16` on a `BytesMut`: appends the two bytes of the number, big
/// endian.
#[verifier::external_body]
pub(crate) fn put_u16(buf: &mut BytesMut, n: u16)
    requires
        has_room(*old(buf), 2),
    ensures
        written(*final(buf)) == written(*old(buf)) + be_bytes(n as nat, 2),
{
    buf.put_u16(n)
}

/// `BufMut::put_u64` on a `BytesMut`: appends the eight bytes of the number,
/// big endian.
#[verifier::external_body]
pub(crate) fn put_u64(buf: &mut BytesMut, n: u64)
    requires
        has_room(*old(buf), 8),
    ensures
        written(*final(buf)) == written(*old(buf)) + be_bytes(n as nat, 8),
{
    buf.put_u64(n)
}

/// `BufMut::put_slice` on a `BytesMut`: appends the bytes.
#[verifier::external_body]
pub(crate) fn put_slice(buf: &mut BytesMut, src: &[u8])
    requires
        has_room(*old(buf), src@.len()),
    ensures
        written(*final(buf)) == written(*old(buf)) + src@,
{
    buf.put_slice(src)
}

/// `Buf::bytes` on a `BytesMut`: everything that was written, in one piece.
#[verifier::external_body]
pub(crate) fn buffer_bytes(buf: &BytesMut) -> (r: Vec<u8>)
    ensures
        r@ == written(*buf),
{
    buf.bytes().to_vec()
}

} // verus!
