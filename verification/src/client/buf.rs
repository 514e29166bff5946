use bytes::{Buf, BufMut, Bytes, BytesMut};
use vstd::prelude::*;

verus! {

/// `bytes::BytesMut`, a buffer that grows as bytes are written to it. What
/// it holds is spoken of through `written`.
#[verifier::external_type_specification]
#[verifier::external_body]
pub struct ExBytesMut(bytes::BytesMut);

/// `bytes::Bytes`, a run of bytes that is read from the front. What is
/// left of it is spoken of through `unread`.
#[verifier::external_type_specification]
#[verifier::external_body]
pub struct ExBytes(bytes::Bytes);

/// The bytes that have been written to a buffer, first to last.
pub uninterp spec fn written(buf: BytesMut) -> Seq<u8>;

/// The bytes of a `Bytes` that have not been read yet, in the order in which they will be read.
pub uninterp spec fn unread(bytes: Bytes) -> Seq<u8>;

/// The four bytes of `v`, the most significant first.
pub open spec fn be32(v: u32) -> Seq<u8> {
    seq![
        (v as int / 0x100_0000) as u8,
        (v as int / 0x1_0000 % 0x100) as u8,
        (v as int / 0x100 % 0x100) as u8,
        (v as int % 0x100) as u8,
    ]
}

/// The number that the first four bytes of `s` write, the most significant first.
pub open spec fn be32_value(s: Seq<u8>) -> int {
    s[0] as int * 0x100_0000 + s[1] as int * 0x1_0000 + s[2] as int * 0x100 + s[3] as int
}

/// Reading gives back what was written.
pub proof fn lemma_be32_value(v: u32)
    ensures
        be32(v).len() == 4,
        be32_value(be32(v)) == v,
{
}

/// `BytesMut::with_capacity`. Trusted: the new buffer holds no byte.
#[verifier::external_body]
pub(crate) fn new_buffer(capacity: usize) -> (r: BytesMut)
    ensures
        written(r) == Seq::<u8>::empty(),
{
    BytesMut::with_capacity(capacity)
}

/// `BufMut::put_u8` on a `BytesMut`, which grows as needed. Trusted: `v` is
/// written behind what the buffer held.
#[verifier::external_body]
pub(crate) fn put_u8(buf: &mut BytesMut, v: u8)
    ensures
        written(*final(buf)) == written(*old(buf)).push(v),
{
    buf.put_u8(v)
}

/// `BufMut::put_u32` on a `BytesMut`. Trusted: the four bytes of `v` are
/// written behind what the buffer held, in big-endian order.
#[verifier::external_body]
pub(crate) fn put_u32(buf: &mut BytesMut, v: u32)
    ensures
        written(*final(buf)) == written(*old(buf)) + be32(v),
{
    buf.put_u32(v)
}

/// `BufMut::put_slice` on a `BytesMut`. Trusted: the bytes of `src` are
/// written behind what the buffer held.
#[verifier::external_body]
pub(crate) fn put_slice(buf: &mut BytesMut, src: &[u8])
    ensures
        written(*final(buf)) == written(*old(buf)) + src@,
{
    buf.put_slice(src)
}

/// `BytesMut::freeze`. Trusted: what was written is what is there to read.
#[verifier::external_body]
pub(crate) fn freeze(buf: BytesMut) -> (r: Bytes)
    ensures
        unread(r) == written(buf),
{
    buf.freeze()
}

/// `Buf::remaining` on a `Bytes`. Trusted: the number of bytes not read yet.
#[verifier::external_body]
pub(crate) fn remaining(bytes: &Bytes) -> (r: usize)
    ensures
        r == unread(*bytes).len(),
{
    bytes.remaining()
}

/// `Buf::get_u8` on a `Bytes`, which panics where nothing is left. Trusted:
/// the next byte is returned and is read from then on.
#[verifier::external_body]
pub(crate) fn get_u8(bytes: &mut Bytes) -> (r: u8)
    requires
        unread(*old(bytes)).len() >= 1,
    ensures
        r == unread(*old(bytes))[0],
        unread(*final(bytes)) == unread(*old(bytes)).skip(1),
{
    bytes.get_u8()
}

/// `Buf::get_u32` on a `Bytes`, which panics where fewer than four bytes are
/// left. Trusted: the next four bytes are returned as a big-endian number
/// and are read from then on.
#[verifier::external_body]
pub(crate) fn get_u32(bytes: &mut Bytes) -> (r: u32)
    requires
        unread(*old(bytes)).len() >= 4,
    ensures
        r == be32_value(unread(*old(bytes))),
        unread(*final(bytes)) == unread(*old(bytes)).skip(4),
{
    bytes.get_u32()
}

/// `Bytes::clone`. Trusted: the copy has the same bytes left to read.
#[verifier::external_body]
pub(crate) fn share(bytes: &Bytes) -> (r: Bytes)
    ensures
        unread(r) == unread(*bytes),
{
    bytes.clone()
}

/// `Bytes::clear`. Trusted: nothing is left to read.
#[verifier::external_body]
pub(crate) fn clear(bytes: &mut Bytes)
    ensures
        unread(*final(bytes)) == Seq::<u8>::empty(),
{
    bytes.clear()
}

/// The bytes of a `Bytes` that are left to read, copied out through its
/// `Deref` to a slice. Trusted: the copy holds exactly those bytes.
#[verifier::external_body]
pub(crate) fn copy_rest(bytes: &Bytes) -> (r: Vec<u8>)
    ensures
        r@ == unread(*bytes),
{
    bytes.to_vec()
}

} // verus!
