//! The byte buffers of the `bytes` crate as verified code sees them: each buffer
//! is the sequence of bytes it holds, and every operation used by this crate is
//! described over that sequence.
//!
//! Nothing here is proved: the contracts say what the `bytes` crate does.
//! Buffers grow by allocation, which, as for `Vec`, is taken to succeed.

use bytes::{BufMut, Bytes, BytesMut};
use vstd::prelude::*;

verus! {

/// `bytes::Bytes`, an immutable buffer, of which only its contents are known.
#[verifier::external_type_specification]
#[verifier::external_body]
pub struct ExBytes(bytes::Bytes);

/// `bytes::BytesMut`, a growable buffer, of which only its contents are known.
#[verifier::external_type_specification]
#[verifier::external_body]
pub struct ExBytesMut(bytes::BytesMut);

/// The bytes that an immutable buffer holds, first to last.
pub uninterp spec fn bytes_seq(b: Bytes) -> Seq<u8>;

/// The bytes that a growable buffer holds, first to last.
pub uninterp spec fn buf_seq(b: BytesMut) -> Seq<u8>;

/// `base` with the bytes of `src` written over it from `offset` on.
pub open spec fn overwritten(base: Seq<u8>, offset: int, src: Seq<u8>) -> Seq<u8> {
    Seq::new(
        base.len(),
        |i: int|
            if offset <= i < offset + src.len() {
                src[i - offset]
            } else {
                base[i]
            },
    )
}

/// The four bytes of `v`, most significant first.
pub open spec fn be_bytes(v: u32) -> Seq<u8> {
    seq![
        (v / 0x100_0000) as u8,
        (v / 0x1_0000 % 0x100) as u8,
        (v / 0x100 % 0x100) as u8,
        (v % 0x100) as u8,
    ]
}

/// The number whose big-endian bytes are `b0, b1, b2, b3`.
pub open spec fn be_value(b0: u8, b1: u8, b2: u8, b3: u8) -> u32 {
    (b0 as int * 0x100_0000 + b1 as int * 0x1_0000 + b2 as int * 0x100 + b3 as int) as u32
}

/// `<Bytes as Clone>::clone`: a second handle on the same bytes.
pub assume_specification[ <bytes::Bytes as Clone>::clone ](b: &bytes::Bytes) -> (copy: bytes::Bytes)
    ensures
        bytes_seq(copy) == bytes_seq(*b),
;

/// `<Bytes as AsRef<[u8]>>::as_ref`: the buffer's contents as a slice.
#[verifier::external_body]
pub(crate) fn bytes_as_slice(b: &Bytes) -> (s: &[u8])
    ensures
        s@ == bytes_seq(*b),
{
    b.as_ref()
}

/// `Bytes::from(Vec<u8>)`: a buffer that holds exactly the vector's bytes.
#[verifier::external_body]
pub(crate) fn bytes_from_vec(v: Vec<u8>) -> (b: Bytes)
    ensures
        bytes_seq(b) == v@,
{
    Bytes::from(v)
}

/// `<BytesMut as AsRef<[u8]>>::as_ref`: the buffer's contents as a slice.
#[verifier::external_body]
pub(crate) fn buf_as_slice(b: &BytesMut) -> (s: &[u8])
    ensures
        s@ == buf_seq(*b),
{
    b.as_ref()
}

/// `BufMut::put_u8` on a `BytesMut`: appends one byte, growing the buffer as needed.
#[verifier::external_body]
pub(crate) fn buf_put_u8(b: &mut BytesMut, v: u8)
    ensures
        buf_seq(*final(b)) == buf_seq(*old(b)).push(v),
{
    b.put_u8(v)
}

/// `BufMut::put_u32` on a `BytesMut`: appends the four bytes of `v` in network
/// (big-endian) order, growing the buffer as needed.
#[verifier::external_body]
pub(crate) fn buf_put_u32(b: &mut BytesMut, v: u32)
    ensures
        buf_seq(*final(b)) == buf_seq(*old(b)) + be_bytes(v),
{
    b.put_u32(v)
}

/// `BufMut::put_slice` on a `BytesMut`: appends the slice, growing the buffer as needed.
#[verifier::external_body]
pub(crate) fn buf_put_slice(b: &mut BytesMut, src: &[u8])
    ensures
        buf_seq(*final(b)) == buf_seq(*old(b)) + src@,
{
    b.put_slice(src)
}

/// `BytesMut::split_to`: cuts the first `at` bytes off the buffer and returns them;
/// the buffer keeps the rest. The crate panics when `at` exceeds the length.
#[verifier::external_body]
pub(crate) fn buf_split_to(b: &mut BytesMut, at: usize) -> (head: BytesMut)
    requires
        at <= buf_seq(*old(b)).len(),
    ensures
        buf_seq(head) == buf_seq(*old(b)).subrange(0, at as int),
        buf_seq(*final(b)) == buf_seq(*old(b)).subrange(at as int, buf_seq(*old(b)).len() as int),
{
    b.split_to(at)
}

/// `BytesMut::zeroed`: a buffer of `len` zero bytes. The crate builds it from
/// `vec![0; len]`, which cannot hold more than `isize::MAX` bytes.
#[verifier::external_body]
pub(crate) fn buf_zeroed(len: usize) -> (b: BytesMut)
    requires
        len <= isize::MAX,
    ensures
        buf_seq(b) == Seq::new(len as nat, |i: int| 0u8),
{
    BytesMut::zeroed(len)
}

/// Writing through `<BytesMut as DerefMut>::deref_mut`: the bytes of `src`
/// replace those of the buffer from `offset` up to `end`; the length stays.
/// The slice range panics when it reaches past the buffer's end, and the
/// copy when the range is not as long as `src`.
#[verifier::external_body]
pub(crate) fn buf_write_at(b: &mut BytesMut, offset: usize, end: usize, src: &[u8])
    requires
        end == offset + src@.len(),
        end <= buf_seq(*old(b)).len(),
    ensures
        buf_seq(*final(b)) == overwritten(buf_seq(*old(b)), offset as int, src@),
{
    b[offset..end].copy_from_slice(src)
}

/// `BytesMut::freeze`: the same bytes, now immutable.
#[verifier::external_body]
pub(crate) fn buf_freeze(b: BytesMut) -> (frozen: Bytes)
    ensures
        bytes_seq(frozen) == buf_seq(b),
{
    b.freeze()
}

} // verus!
