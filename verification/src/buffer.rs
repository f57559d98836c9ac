//! The byte buffers of the `bytes` crate, with what each operation does to their contents.

use vstd::prelude::*;
use bytes::{Buf, BufMut, Bytes, BytesMut};
use crate::bigendian::{be_bytes, be_value};

verus! {

/// `bytes::BytesMut`: a growable byte buffer that is consumed from the front.
#[verifier::external_type_specification]
#[verifier::external_body]
pub struct ExBytesMut(bytes::BytesMut);

/// `bytes::Bytes`: an immutable, cheaply shared byte string.
#[verifier::external_type_specification]
#[verifier::external_body]
pub struct ExBytes(bytes::Bytes);

/// The bytes that a `BytesMut` holds, front first.
pub uninterp spec fn buffered(buffer: BytesMut) -> Seq<u8>;

/// The bytes that a `Bytes` holds.
pub uninterp spec fn shared(bytes: Bytes) -> Seq<u8>;

/// `BytesMut::len` is the number of bytes held.
pub assume_specification[ BytesMut::len ](buffer: &BytesMut) -> (len: usize)
    ensures
        len == buffered(*buffer).len(),
;

/// `BytesMut::reserve` makes room for `additional` more bytes and leaves the contents alone.
/// It panics where the new length would not fit an allocation.
pub assume_specification[ BytesMut::reserve ](buffer: &mut BytesMut, additional: usize)
    requires
        buffered(*old(buffer)).len() + additional <= isize::MAX,
    ensures
        buffered(*final(buffer)) == buffered(*old(buffer)),
;

/// `BytesMut::split_to` removes the first `at` bytes and returns them.
pub assume_specification[ BytesMut::split_to ](buffer: &mut BytesMut, at: usize) -> (front: BytesMut)
    requires
        at <= buffered(*old(buffer)).len(),
    ensures
        buffered(front) == buffered(*old(buffer)).take(at as int),
        buffered(*final(buffer)) == buffered(*old(buffer)).skip(at as int),
;

/// `BytesMut::freeze` gives the same bytes as an immutable byte string.
pub assume_specification[ BytesMut::freeze ](buffer: BytesMut) -> (frozen: Bytes)
    ensures
        shared(frozen) == buffered(buffer),
;

/// `Bytes::len` is the number of bytes held.
pub assume_specification[ Bytes::len ](bytes: &Bytes) -> (len: usize)
    ensures
        len == shared(*bytes).len(),
;

/// `Bytes::copy_from_slice` gives a byte string with the bytes of the slice.
pub assume_specification[ Bytes::copy_from_slice ](data: &[u8]) -> (bytes: Bytes)
    ensures
        shared(bytes) == data@,
;

/// Cloning a `Bytes` gives a byte string with the same bytes.
pub assume_specification[ <Bytes as Clone>::clone ](bytes: &Bytes) -> (copy: Bytes)
    ensures
        shared(copy) == shared(*bytes),
;

/// Indexing a `BytesMut` (through its `Deref` to a slice) reads the byte at that place.
#[verifier::external_body]
pub(crate) fn byte_at(buffer: &BytesMut, at: usize) -> (byte: u8)
    requires
        at < buffered(*buffer).len(),
    ensures
        byte == buffered(*buffer)[at as int],
{
    buffer[at]
}

/// `Buf::advance` on a `BytesMut` drops the first `count` bytes.
#[verifier::external_body]
pub(crate) fn advance(buffer: &mut BytesMut, count: usize)
    requires
        count <= buffered(*old(buffer)).len(),
    ensures
        buffered(*final(buffer)) == buffered(*old(buffer)).skip(count as int),
{
    Buf::advance(buffer, count)
}

/// `Buf::get_u16` on a `BytesMut` takes two bytes off the front, big-endian.
#[verifier::external_body]
pub(crate) fn get_u16(buffer: &mut BytesMut) -> (value: u16)
    requires
        buffered(*old(buffer)).len() >= 2,
    ensures
        value == be_value(buffered(*old(buffer)).take(2)),
        buffered(*final(buffer)) == buffered(*old(buffer)).skip(2),
{
    Buf::get_u16(buffer)
}

/// `Buf::get_u32` on a `BytesMut` takes four bytes off the front, big-endian.
#[verifier::external_body]
pub(crate) fn get_u32(buffer: &mut BytesMut) -> (value: u32)
    requires
        buffered(*old(buffer)).len() >= 4,
    ensures
        value == be_value(buffered(*old(buffer)).take(4)),
        buffered(*final(buffer)) == buffered(*old(buffer)).skip(4),
{
    Buf::get_u32(buffer)
}

/// `BufMut::put_u8` on a `BytesMut` appends one byte.
#[verifier::external_body]
pub(crate) fn put_u8(buffer: &mut BytesMut, value: u8)
    requires
        buffered(*old(buffer)).len() + 1 <= isize::MAX,
    ensures
        buffered(*final(buffer)) == buffered(*old(buffer)).push(value),
{
    BufMut::put_u8(buffer, value)
}

/// `BufMut::put_u16` on a `BytesMut` appends two bytes, big-endian.
#[verifier::external_body]
pub(crate) fn put_u16(buffer: &mut BytesMut, value: u16)
    requires
        buffered(*old(buffer)).len() + 2 <= isize::MAX,
    ensures
        buffered(*final(buffer)) == buffered(*old(buffer)) + be_bytes(value as nat, 2),
{
    BufMut::put_u16(buffer, value)
}

/// `BufMut::put_u32` on a `BytesMut` appends four bytes, big-endian.
#[verifier::external_body]
pub(crate) fn put_u32(buffer: &mut BytesMut, value: u32)
    requires
        buffered(*old(buffer)).len() + 4 <= isize::MAX,
    ensures
        buffered(*final(buffer)) == buffered(*old(buffer)) + be_bytes(value as nat, 4),
{
    BufMut::put_u32(buffer, value)
}

/// `BufMut::put_slice` on a `BytesMut` appends all the bytes of a slice, here those of a
/// `Bytes`.
#[verifier::external_body]
pub(crate) fn put_bytes(buffer: &mut BytesMut, bytes: &Bytes)
    requires
        buffered(*old(buffer)).len() + shared(*bytes).len() <= isize::MAX,
    ensures
        buffered(*final(buffer)) == buffered(*old(buffer)) + shared(*bytes),
{
    BufMut::put_slice(buffer, bytes)
}

/// `From<Vec<u8>>` for `Bytes` gives a byte string with the bytes of the vector.
#[verifier::external_body]
pub(crate) fn bytes_from_vec(bytes: Vec<u8>) -> (frozen: Bytes)
    ensures
        shared(frozen) == bytes@,
{
    Bytes::from(bytes)
}

/// `Deref` of a `Bytes` is the slice of its bytes.
#[verifier::external_body]
pub(crate) fn as_slice(bytes: &Bytes) -> (slice: &[u8])
    ensures
        slice@ == shared(*bytes),
{
    bytes
}

} // verus!
