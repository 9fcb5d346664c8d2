//! The byte buffers of the `bytes` crate, as far as the codec uses them.
//!
//! Nothing in this file is proved: each function states what the method it
//! calls does to the bytes of the buffer.

use bytes::{Buf, BufMut, Bytes, BytesMut};
use vstd::prelude::*;
use crate::dns::numbers::{be16, be32, u16_bytes, u32_bytes};

verus! {

/// `bytes::Bytes`, a read-only buffer with a cursor. The verifier sees
/// nothing inside it.
#[verifier::external_type_specification]
#[verifier::external_body]
pub struct ExBytes(bytes::Bytes);

/// `bytes::BytesMut`, a buffer that grows as it is written to. The
/// verifier sees nothing inside it.
#[verifier::external_type_specification]
#[verifier::external_body]
pub struct ExBytesMut(bytes::BytesMut);

/// The bytes that a `Bytes` holds, from its cursor to its end.
pub uninterp spec fn contents(b: &Bytes) -> Seq<u8>;

/// The bytes that a `BytesMut` holds.
pub uninterp spec fn written(b: &BytesMut) -> Seq<u8>;

/// `Bytes::len`: the number of bytes from the cursor to the end.
#[verifier::external_body]
pub(crate) fn remaining(buf: &Bytes) -> (n: usize)
    ensures
        n == contents(buf).len(),
{
    buf.len()
}

/// `Clone` of `Bytes`: a second handle on the same bytes, with a cursor of
/// its own that starts where the cursor of `buf` stands.
pub assume_specification[ <Bytes as Clone>::clone ](buf: &Bytes) -> (r: Bytes)
    ensures
        contents(&r) == contents(buf),
;

/// `Buf::get_u8` on `Bytes`: hands out the byte under the cursor and moves
/// the cursor past it. The method panics on an empty buffer.
#[verifier::external_body]
pub(crate) fn get_u8(buf: &mut Bytes) -> (r: u8)
    requires
        contents(old(buf)).len() >= 1,
    ensures
        r == contents(old(buf))[0],
        contents(final(buf)) == contents(old(buf)).skip(1),
    no_unwind
{
    buf.get_u8()
}

/// `Buf::get_u16` on `Bytes`: reads two bytes as a big-endian number and
/// moves the cursor past them. The method panics on fewer than two bytes.
#[verifier::external_body]
pub(crate) fn get_u16(buf: &mut Bytes) -> (r: u16)
    requires
        contents(old(buf)).len() >= 2,
    ensures
        r == be16(contents(old(buf))[0], contents(old(buf))[1]),
        contents(final(buf)) == contents(old(buf)).skip(2),
    no_unwind
{
    buf.get_u16()
}

/// `Buf::get_u32` on `Bytes`: reads four bytes as a big-endian number and
/// moves the cursor past them. The method panics on fewer than four bytes.
#[verifier::external_body]
pub(crate) fn get_u32(buf: &mut Bytes) -> (r: u32)
    requires
        contents(old(buf)).len() >= 4,
    ensures
        r == be32(
            contents(old(buf))[0],
            contents(old(buf))[1],
            contents(old(buf))[2],
            contents(old(buf))[3],
        ),
        contents(final(buf)) == contents(old(buf)).skip(4),
    no_unwind
{
    buf.get_u32()
}

/// `Buf::copy_to_bytes` on `Bytes`: splits the next `len` bytes off into a
/// buffer of their own and moves the cursor past them. The method panics
/// where fewer than `len` bytes are left.
#[verifier::external_body]
pub(crate) fn copy_to_bytes(buf: &mut Bytes, len: usize) -> (r: Bytes)
    requires
        len <= contents(old(buf)).len(),
    ensures
        contents(&r) == contents(old(buf)).take(len as int),
        contents(final(buf)) == contents(old(buf)).skip(len as int),
    no_unwind
{
    buf.copy_to_bytes(len)
}

/// `Buf::advance` on `Bytes`: moves the cursor `cnt` bytes on. The method
/// panics where fewer than `cnt` bytes are left.
#[verifier::external_body]
pub(crate) fn advance(buf: &mut Bytes, cnt: usize)
    requires
        cnt <= contents(old(buf)).len(),
    ensures
        contents(final(buf)) == contents(old(buf)).skip(cnt as int),
    no_unwind
{
    buf.advance(cnt)
}

/// `Deref` of `Bytes`: the bytes from the cursor to the end, as a slice.
#[verifier::external_body]
pub(crate) fn as_slice(buf: &Bytes) -> (r: &[u8])
    ensures
        r@ == contents(buf),
{
    &buf[..]
}

/// `BytesMut::new`: a buffer to which nothing has been written.
#[verifier::external_body]
pub(crate) fn new_buffer() -> (r: BytesMut)
    ensures
        written(&r) == Seq::<u8>::empty(),
{
    BytesMut::new()
}

/// `BufMut::put_u8` on `BytesMut`: appends one byte. The buffer grows as
/// needed.
#[verifier::external_body]
pub(crate) fn put_u8(buf: &mut BytesMut, n: u8)
    ensures
        written(final(buf)) == written(old(buf)).push(n),
{
    buf.put_u8(n)
}

/// `BufMut::put_u16` on `BytesMut`: appends the two bytes of `n`, the high
/// one first.
#[verifier::external_body]
pub(crate) fn put_u16(buf: &mut BytesMut, n: u16)
    ensures
        written(final(buf)) == written(old(buf)) + u16_bytes(n),
{
    buf.put_u16(n)
}

/// `BufMut::put_u32` on `BytesMut`: appends the four bytes of `n`, the
/// highest first.
#[verifier::external_body]
pub(crate) fn put_u32(buf: &mut BytesMut, n: u32)
    ensures
        written(final(buf)) == written(old(buf)) + u32_bytes(n),
{
    buf.put_u32(n)
}

/// `BufMut::put_slice` on `BytesMut`: appends the bytes of `src`.
#[verifier::external_body]
pub(crate) fn put_slice(buf: &mut BytesMut, src: &[u8])
    ensures
        written(final(buf)) == written(old(buf)) + src@,
{
    buf.put_slice(src)
}

/// `BytesMut::freeze`: the bytes written, as a read-only buffer with its
/// cursor on the first of them.
#[verifier::external_body]
pub(crate) fn freeze(buf: BytesMut) -> (r: Bytes)
    ensures
        contents(&r) == written(&buf),
{
    buf.freeze()
}

} // verus!
