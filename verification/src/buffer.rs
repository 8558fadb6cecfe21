//! The byte buffer of the `bytes` crate, as the message codec uses it, and
//! the big-endian integer layouts that its `put_*` and `get_*` methods follow.
use vstd::prelude::*;

use bytes::{Buf, BufMut, Bytes, BytesMut};

verus! {

/// `bytes::BytesMut`, a growable byte buffer read from the front.
#[verifier::external_type_specification]
#[verifier::external_body]
pub struct ExBytesMut(BytesMut);

/// The bytes that a `BytesMut` holds, front (next to be read) to back.
pub uninterp spec fn buffer_bytes(b: BytesMut) -> Seq<u8>;

/// `bytes::Bytes`, an immutable byte buffer.
#[verifier::external_type_specification]
#[verifier::external_body]
pub struct ExBytes(Bytes);

/// The bytes that a `Bytes` holds, front to back.
pub uninterp spec fn frozen_bytes(b: Bytes) -> Seq<u8>;

/// The largest number of bytes that a buffer can be made to hold: its storage
/// is a vector of bytes, whose capacity may not exceed `isize::MAX`.
pub open spec fn buffer_limit() -> int {
    isize::MAX as int
}

/// The big-endian layout of a `u16`, most significant byte first.
pub open spec fn u16_be_bytes(x: u16) -> Seq<u8> {
    seq![(x >> 8u16) as u8, x as u8]
}

/// The `u16` whose big-endian layout is the first two bytes of `s`.
pub open spec fn u16_from_be(s: Seq<u8>) -> u16 {
    ((s[0] as u16) << 8u16) | (s[1] as u16)
}

/// The big-endian layout of a `u64`, most significant byte first.
pub open spec fn u64_be_bytes(x: u64) -> Seq<u8> {
    seq![
        (x >> 56u64) as u8,
        (x >> 48u64) as u8,
        (x >> 40u64) as u8,
        (x >> 32u64) as u8,
        (x >> 24u64) as u8,
        (x >> 16u64) as u8,
        (x >> 8u64) as u8,
        x as u8,
    ]
}

/// The `u64` whose big-endian layout is the first eight bytes of `s`.
pub open spec fn u64_from_be(s: Seq<u8>) -> u64 {
    ((s[0] as u64) << 56u64) | ((s[1] as u64) << 48u64) | ((s[2] as u64) << 40u64) | ((
    s[3] as u64) << 32u64) | ((s[4] as u64) << 24u64) | ((s[5] as u64) << 16u64) | ((
    s[6] as u64) << 8u64) | (s[7] as u64)
}

/// Reading back the layout of a `u16` gives the `u16`.
pub proof fn lemma_u16_be_roundtrip(x: u16)
    ensures
        u16_from_be(u16_be_bytes(x)) == x,
{
    let b0 = (x >> 8u16) as u8;
    let b1 = x as u8;
    assert(((b0 as u16) << 8u16) | (b1 as u16) == x) by (bit_vector)
        requires
            b0 == (x >> 8u16) as u8,
            b1 == x as u8,
    ;
}

/// Reading back the layout of a `u64` gives the `u64`.
pub proof fn lemma_u64_be_roundtrip(x: u64)
    ensures
        u64_from_be(u64_be_bytes(x)) == x,
{
    let b0 = (x >> 56u64) as u8;
    let b1 = (x >> 48u64) as u8;
    let b2 = (x >> 40u64) as u8;
    let b3 = (x >> 32u64) as u8;
    let b4 = (x >> 24u64) as u8;
    let b5 = (x >> 16u64) as u8;
    let b6 = (x >> 8u64) as u8;
    let b7 = x as u8;
    assert(((b0 as u64) << 56u64) | ((b1 as u64) << 48u64) | ((b2 as u64) << 40u64) | ((
    b3 as u64) << 32u64) | ((b4 as u64) << 24u64) | ((b5 as u64) << 16u64) | ((b6 as u64)
        << 8u64) | (b7 as u64) == x) by (bit_vector)
        requires
            b0 == (x >> 56u64) as u8,
            b1 == (x >> 48u64) as u8,
            b2 == (x >> 40u64) as u8,
            b3 == (x >> 32u64) as u8,
            b4 == (x >> 24u64) as u8,
            b5 == (x >> 16u64) as u8,
            b6 == (x >> 8u64) as u8,
            b7 == x as u8,
    ;
}

/// The `u64` of eight bytes is the largest exactly when all eight are 255.
pub proof fn lemma_u64_all_ones(s: Seq<u8>)
    requires
        s.len() >= 8,
    ensures
        (u64_from_be(s) == u64::MAX) == (forall|j: int| 0 <= j < 8 ==> s[j] == 255),
{
    let b0 = s[0];
    let b1 = s[1];
    let b2 = s[2];
    let b3 = s[3];
    let b4 = s[4];
    let b5 = s[5];
    let b6 = s[6];
    let b7 = s[7];
    assert((((b0 as u64) << 56u64) | ((b1 as u64) << 48u64) | ((b2 as u64) << 40u64) | ((
    b3 as u64) << 32u64) | ((b4 as u64) << 24u64) | ((b5 as u64) << 16u64) | ((b6 as u64)
        << 8u64) | (b7 as u64) == 0xffff_ffff_ffff_ffffu64) == (b0 == 255u8 && b1 == 255u8 && b2
        == 255u8 && b3 == 255u8 && b4 == 255u8 && b5 == 255u8 && b6 == 255u8 && b7 == 255u8))
        by (bit_vector);
    if forall|j: int| 0 <= j < 8 ==> s[j] == 255 {
    } else {
        let j = choose|j: int| 0 <= j < 8 && s[j] != 255;
        assert(s[j] != 255);
    }
}

/// A new buffer that holds a copy of `bytes`, to be read from the front.
pub fn new_buffer(bytes: &[u8]) -> (b: BytesMut)
    ensures
        buffer_bytes(b) == bytes@,
{
    buffer_from_slice(bytes)
}

/// `BytesMut::with_capacity`: a new buffer that holds no bytes.
#[verifier::external_body]
pub(crate) fn buffer_with_capacity(capacity: usize) -> (b: BytesMut)
    requires
        capacity <= buffer_limit(),
    ensures
        buffer_bytes(b) == Seq::<u8>::empty(),
{
    BytesMut::with_capacity(capacity)
}

/// `From<&[u8]> for BytesMut`: a new buffer that holds a copy of `src`.
#[verifier::external_body]
pub(crate) fn buffer_from_slice(src: &[u8]) -> (b: BytesMut)
    ensures
        buffer_bytes(b) == src@,
{
    BytesMut::from(src)
}

/// `Buf::remaining` on a `BytesMut`: the number of bytes it holds.
#[verifier::external_body]
pub(crate) fn buffer_remaining(b: &BytesMut) -> (n: usize)
    ensures
        n == buffer_bytes(*b).len(),
{
    b.remaining()
}

/// `BufMut::put_u8`: appends one byte.
#[verifier::external_body]
pub(crate) fn buffer_put_u8(b: &mut BytesMut, x: u8)
    requires
        buffer_bytes(*old(b)).len() + 1 <= buffer_limit(),
    ensures
        buffer_bytes(*final(b)) == buffer_bytes(*old(b)).push(x),
{
    b.put_u8(x)
}

/// `BufMut::put_u16`: appends the big-endian layout of `x`.
#[verifier::external_body]
pub(crate) fn buffer_put_u16(b: &mut BytesMut, x: u16)
    requires
        buffer_bytes(*old(b)).len() + 2 <= buffer_limit(),
    ensures
        buffer_bytes(*final(b)) == buffer_bytes(*old(b)) + u16_be_bytes(x),
{
    b.put_u16(x)
}

/// `BufMut::put_u64`: appends the big-endian layout of `x`.
#[verifier::external_body]
pub(crate) fn buffer_put_u64(b: &mut BytesMut, x: u64)
    requires
        buffer_bytes(*old(b)).len() + 8 <= buffer_limit(),
    ensures
        buffer_bytes(*final(b)) == buffer_bytes(*old(b)) + u64_be_bytes(x),
{
    b.put_u64(x)
}

/// `BufMut::put_slice` on a `BytesMut`: appends the bytes of `src`.
#[verifier::external_body]
pub(crate) fn buffer_put_slice(b: &mut BytesMut, src: &[u8])
    requires
        buffer_bytes(*old(b)).len() + src@.len() <= buffer_limit(),
    ensures
        buffer_bytes(*final(b)) == buffer_bytes(*old(b)) + src@,
{
    b.put_slice(src)
}

/// `BytesMut::extend_from_slice`: appends the bytes of `src`.
#[verifier::external_body]
pub(crate) fn buffer_extend_from_slice(b: &mut BytesMut, src: &[u8])
    requires
        buffer_bytes(*old(b)).len() + src@.len() <= buffer_limit(),
    ensures
        buffer_bytes(*final(b)) == buffer_bytes(*old(b)) + src@,
{
    b.extend_from_slice(src)
}

/// `Buf::get_u8`: removes and returns the first byte.
#[verifier::external_body]
pub(crate) fn buffer_get_u8(b: &mut BytesMut) -> (x: u8)
    requires
        buffer_bytes(*old(b)).len() >= 1,
    ensures
        x == buffer_bytes(*old(b))[0],
        buffer_bytes(*final(b)) == buffer_bytes(*old(b)).skip(1),
{
    b.get_u8()
}

/// `Buf::get_u16`: removes the first two bytes and returns the `u16` of
/// which they are the big-endian layout.
#[verifier::external_body]
pub(crate) fn buffer_get_u16(b: &mut BytesMut) -> (x: u16)
    requires
        buffer_bytes(*old(b)).len() >= 2,
    ensures
        x == u16_from_be(buffer_bytes(*old(b))),
        buffer_bytes(*final(b)) == buffer_bytes(*old(b)).skip(2),
{
    b.get_u16()
}

/// `Buf::get_u64`: removes the first eight bytes and returns the `u64` of
/// which they are the big-endian layout.
#[verifier::external_body]
pub(crate) fn buffer_get_u64(b: &mut BytesMut) -> (x: u64)
    requires
        buffer_bytes(*old(b)).len() >= 8,
    ensures
        x == u64_from_be(buffer_bytes(*old(b))),
        buffer_bytes(*final(b)) == buffer_bytes(*old(b)).skip(8),
{
    b.get_u64()
}

/// `Buf::copy_to_slice` into an 18-byte array: removes the first 18 bytes
/// and writes them into `dst`.
#[verifier::external_body]
pub(crate) fn buffer_copy_to_array18(b: &mut BytesMut, dst: &mut [u8; 18])
    requires
        buffer_bytes(*old(b)).len() >= 18,
    ensures
        final(dst)@ == buffer_bytes(*old(b)).take(18),
        buffer_bytes(*final(b)) == buffer_bytes(*old(b)).skip(18),
{
    b.copy_to_slice(dst)
}

/// `BytesMut::freeze`: an immutable buffer that holds the same bytes.
#[verifier::external_body]
pub(crate) fn buffer_freeze(b: BytesMut) -> (r: Bytes)
    ensures
        frozen_bytes(r) == buffer_bytes(b),
{
    b.freeze()
}

/// `<[u8]>::to_vec` on the bytes of a `BytesMut`: a vector with a copy of
/// the bytes it holds.
#[verifier::external_body]
pub(crate) fn buffer_to_vec(b: &BytesMut) -> (v: Vec<u8>)
    ensures
        v@ == buffer_bytes(*b),
{
    b.to_vec()
}

} // verus!
