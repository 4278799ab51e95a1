//! Integers as bytes, in either byte order.

use byteorder::{BigEndian, LittleEndian, WriteBytesExt};
use byteordered::{Endian, Endianness};
use vstd::prelude::*;

verus! {

/// The two bytes of `v`: least significant first if `little`, most
/// significant first otherwise.
pub open spec fn short_bytes(little: bool, v: u16) -> Seq<u8> {
    let lo = (v % 256) as u8;
    let hi = (v / 256) as u8;
    if little {
        seq![lo, hi]
    } else {
        seq![hi, lo]
    }
}

/// The four bytes of `v`: least significant first if `little`, most
/// significant first otherwise.
pub open spec fn long_bytes(little: bool, v: u32) -> Seq<u8> {
    let b0 = (v % 256) as u8;
    let b1 = (v / 256 % 256) as u8;
    let b2 = (v / 65536 % 256) as u8;
    let b3 = (v / 16777216) as u8;
    if little {
        seq![b0, b1, b2, b3]
    } else {
        seq![b3, b2, b1, b0]
    }
}

/// The 16-bit number held in the first two bytes of `b`.
pub open spec fn short_from_bytes(little: bool, b: Seq<u8>) -> u16
    recommends
        b.len() >= 2,
{
    if little {
        (b[0] + 256 * b[1]) as u16
    } else {
        (b[1] + 256 * b[0]) as u16
    }
}

/// The 32-bit number held in the first four bytes of `b`.
pub open spec fn long_from_bytes(little: bool, b: Seq<u8>) -> u32
    recommends
        b.len() >= 4,
{
    if little {
        (b[0] + 256 * b[1] + 65536 * b[2] + 16777216 * b[3]) as u32
    } else {
        (b[3] + 256 * b[2] + 65536 * b[1] + 16777216 * b[0]) as u32
    }
}

/// Reading back what was written gives the number that was written.
pub proof fn lemma_short_round_trip(little: bool, v: u16)
    ensures
        short_bytes(little, v).len() == 2,
        short_from_bytes(little, short_bytes(little, v)) == v,
{
}

/// Reading back what was written gives the number that was written.
pub proof fn lemma_long_round_trip(little: bool, v: u32)
    ensures
        long_bytes(little, v).len() == 4,
        long_from_bytes(little, long_bytes(little, v)) == v,
{
}

/// Calls `byteorder::WriteBytesExt::write_u16::<LittleEndian>` on the
/// vector. It appends the two bytes of `v`, low byte first; writing to a
/// vector does not fail.
#[verifier::external_body]
pub(crate) fn write_u16_le(bytes: &mut Vec<u8>, v: u16)
    ensures
        final(bytes)@ == old(bytes)@ + short_bytes(true, v),
{
    bytes.write_u16::<LittleEndian>(v).unwrap()
}

/// Calls `byteorder::WriteBytesExt::write_u16::<BigEndian>` on the vector.
/// It appends the two bytes of `v`, high byte first; writing to a vector
/// does not fail.
#[verifier::external_body]
pub(crate) fn write_u16_be(bytes: &mut Vec<u8>, v: u16)
    ensures
        final(bytes)@ == old(bytes)@ + short_bytes(false, v),
{
    bytes.write_u16::<BigEndian>(v).unwrap()
}

/// Calls `byteorder::WriteBytesExt::write_u32::<LittleEndian>` on the
/// vector. It appends the four bytes of `v`, lowest byte first; writing to
/// a vector does not fail.
#[verifier::external_body]
pub(crate) fn write_u32_le(bytes: &mut Vec<u8>, v: u32)
    ensures
        final(bytes)@ == old(bytes)@ + long_bytes(true, v),
{
    bytes.write_u32::<LittleEndian>(v).unwrap()
}

/// Calls `byteorder::WriteBytesExt::write_u32::<BigEndian>` on the vector.
/// It appends the four bytes of `v`, highest byte first; writing to a
/// vector does not fail.
#[verifier::external_body]
pub(crate) fn write_u32_be(bytes: &mut Vec<u8>, v: u32)
    ensures
        final(bytes)@ == old(bytes)@ + long_bytes(false, v),
{
    bytes.write_u32::<BigEndian>(v).unwrap()
}

/// Calls `byteordered::Endian::read_u16` on the byte order that
/// `byteordered::Endianness::le_iff` gives for `little`. It reads the first
/// two bytes of `src` and fails when `src` is shorter than that.
#[verifier::external_body]
pub(crate) fn read_u16(little: bool, src: &[u8]) -> (r: Option<u16>)
    ensures
        r == if src@.len() >= 2 {
            Some(short_from_bytes(little, src@))
        } else {
            None
        },
{
    Endianness::le_iff(little).read_u16(src).ok()
}

/// Calls `byteordered::Endian::read_u32` on the byte order that
/// `byteordered::Endianness::le_iff` gives for `little`. It reads the first
/// four bytes of `src` and fails when `src` is shorter than that.
#[verifier::external_body]
pub(crate) fn read_u32(little: bool, src: &[u8]) -> (r: Option<u32>)
    ensures
        r == if src@.len() >= 4 {
            Some(long_from_bytes(little, src@))
        } else {
            None
        },
{
    Endianness::le_iff(little).read_u32(src).ok()
}

/// Appends the two bytes of `v` in the given byte order.
pub fn push_short(bytes: &mut Vec<u8>, little: bool, v: u16)
    ensures
        final(bytes)@ == old(bytes)@ + short_bytes(little, v),
{
    if little {
        write_u16_le(bytes, v)
    } else {
        write_u16_be(bytes, v)
    }
}

/// Appends the four bytes of `v` in the given byte order.
pub fn push_long(bytes: &mut Vec<u8>, little: bool, v: u32)
    ensures
        final(bytes)@ == old(bytes)@ + long_bytes(little, v),
{
    if little {
        write_u32_le(bytes, v)
    } else {
        write_u32_be(bytes, v)
    }
}

/// Appends `src` to `out`.
pub fn append_bytes(out: &mut Vec<u8>, src: &[u8])
    ensures
        final(out)@ == old(out)@ + src@,
{
    let mut i: usize = 0;
    while i < src.len()
        invariant
            i <= src.len(),
            out@ == old(out)@ + src@.take(i as int),
        decreases src.len() - i,
    {
        out.push(src[i]);
        assert(src@.take(i + 1) == src@.take(i as int).push(src@[i as int]));
        i += 1;
    }
    assert(src@.take(i as int) == src@);
}

} // verus!
