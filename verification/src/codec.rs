//! Little-endian encoding of integers, done by `byteorder`.
use vstd::prelude::*;
use byteorder::{ByteOrder, LittleEndian};

verus! {

/// The two little-endian bytes of `v`.
pub open spec fn le16(v: u16) -> Seq<u8> {
    seq![(v & 0xff) as u8, (v >> 8) as u8]
}

/// The four little-endian bytes of `v`.
pub open spec fn le32(v: u32) -> Seq<u8> {
    seq![(v & 0xff) as u8, ((v >> 8) & 0xff) as u8, ((v >> 16) & 0xff) as u8, (v >> 24) as u8]
}

/// The `u16` whose little-endian bytes are `b0, b1`.
pub open spec fn u16_of(b0: u8, b1: u8) -> u16 {
    (b0 as u16) | ((b1 as u16) << 8u16)
}

/// The `u32` whose little-endian bytes are `b0 .. b3`.
pub open spec fn u32_of(b0: u8, b1: u8, b2: u8, b3: u8) -> u32 {
    (b0 as u32) | ((b1 as u32) << 8u32) | ((b2 as u32) << 16u32) | ((b3 as u32) << 24u32)
}

/// `LittleEndian::write_u32`: the four little-endian bytes of `v`.
#[verifier::external_body]
pub(crate) fn u32_le_bytes(v: u32) -> (r: [u8; 4])
    ensures
        r@ == le32(v),
{
    let mut b = [0u8; 4];
    LittleEndian::write_u32(&mut b, v);
    b
}

/// `LittleEndian::write_i16`: the two little-endian bytes of `v as u16`.
#[verifier::external_body]
pub(crate) fn i16_le_bytes(v: i16) -> (r: [u8; 2])
    ensures
        r@ == le16(v as u16),
{
    let mut b = [0u8; 2];
    LittleEndian::write_i16(&mut b, v);
    b
}

/// `LittleEndian::write_i32`: the four little-endian bytes of `v as u32`.
#[verifier::external_body]
pub(crate) fn i32_le_bytes(v: i32) -> (r: [u8; 4])
    ensures
        r@ == le32(v as u32),
{
    let mut b = [0u8; 4];
    LittleEndian::write_i32(&mut b, v);
    b
}

/// `LittleEndian::read_u32` on the four bytes at `pos`.
#[verifier::external_body]
pub(crate) fn read_u32_le(buf: &[u8], pos: usize) -> (r: u32)
    requires
        pos + 4 <= buf@.len(),
    ensures
        r == u32_of(buf@[pos as int], buf@[pos + 1], buf@[pos + 2], buf@[pos + 3]),
{
    LittleEndian::read_u32(&buf[pos..pos + 4])
}

/// `LittleEndian::read_i16` on the two bytes at `pos`.
#[verifier::external_body]
pub(crate) fn read_i16_le(buf: &[u8], pos: usize) -> (r: i16)
    requires
        pos + 2 <= buf@.len(),
    ensures
        r == u16_of(buf@[pos as int], buf@[pos + 1]) as i16,
{
    LittleEndian::read_i16(&buf[pos..pos + 2])
}

/// `LittleEndian::read_i32` on the four bytes at `pos`.
#[verifier::external_body]
pub(crate) fn read_i32_le(buf: &[u8], pos: usize) -> (r: i32)
    requires
        pos + 4 <= buf@.len(),
    ensures
        r == u32_of(buf@[pos as int], buf@[pos + 1], buf@[pos + 2], buf@[pos + 3]) as i32,
{
    LittleEndian::read_i32(&buf[pos..pos + 4])
}

/// Decoding the bytes of a `u16` gives it back.
pub proof fn lemma_u16_roundtrip(v: u16)
    ensures
        u16_of(le16(v)[0], le16(v)[1]) == v,
{
    let b0 = (v & 0xff) as u8;
    let b1 = (v >> 8) as u8;
    assert((b0 as u16) | ((b1 as u16) << 8u16) == v) by (bit_vector)
        requires
            b0 == (v & 0xff) as u8,
            b1 == (v >> 8) as u8,
    ;
}

/// Decoding the bytes of a `u32` gives it back.
pub proof fn lemma_u32_roundtrip(v: u32)
    ensures
        u32_of(le32(v)[0], le32(v)[1], le32(v)[2], le32(v)[3]) == v,
{
    let b0 = (v & 0xff) as u8;
    let b1 = ((v >> 8) & 0xff) as u8;
    let b2 = ((v >> 16) & 0xff) as u8;
    let b3 = (v >> 24) as u8;
    assert((b0 as u32) | ((b1 as u32) << 8u32) | ((b2 as u32) << 16u32) | ((b3 as u32) << 24u32) == v) by (bit_vector)
        requires
            b0 == (v & 0xff) as u8,
            b1 == ((v >> 8) & 0xff) as u8,
            b2 == ((v >> 16) & 0xff) as u8,
            b3 == (v >> 24) as u8,
    ;
}

/// Decoding the bytes of an `i16` gives it back.
pub proof fn lemma_i16_roundtrip(v: i16)
    ensures
        u16_of(le16(v as u16)[0], le16(v as u16)[1]) as i16 == v,
{
    lemma_u16_roundtrip(v as u16);
    assert((v as u16) as i16 == v) by (bit_vector);
}

/// Decoding the bytes of an `i32` gives it back.
pub proof fn lemma_i32_roundtrip(v: i32)
    ensures
        u32_of(le32(v as u32)[0], le32(v as u32)[1], le32(v as u32)[2], le32(v as u32)[3]) as i32 == v,
{
    lemma_u32_roundtrip(v as u32);
    assert((v as u32) as i32 == v) by (bit_vector);
}

/// The byte of an `i8` gives it back.
pub proof fn lemma_i8_roundtrip(v: i8)
    ensures
        (v as u8) as i8 == v,
{
    assert((v as u8) as i8 == v) by (bit_vector);
}

} // verus!
