//! The eight-byte file header and the byte orders a file can be written in.

use byteorder::{BigEndian, LittleEndian};
use vstd::prelude::*;

verus! {

/// `byteorder::LittleEndian`: a type without values that names the byte
/// order with the least significant byte first. Nothing is claimed of it.
#[verifier::external_type_specification]
#[verifier::external_body]
pub struct ExLittleEndian(LittleEndian);

/// `byteorder::BigEndian`: a type without values that names the byte
/// order with the most significant byte first. Nothing is claimed of it.
#[verifier::external_type_specification]
#[verifier::external_body]
pub struct ExBigEndian(BigEndian);

/// Length of the file header in bytes.
pub const HEADER_SIZE: usize = 8;

/// The number 42 that follows the byte-order mark.
pub const MAGIC: u16 = 42;

/// The byte-order mark as a 16-bit number whose two bytes are equal: `II`
/// for little-endian files, `MM` for big-endian ones.
pub open spec fn sentinel(little: bool) -> u16 {
    if little {
        0x4949
    } else {
        0x4D4D
    }
}

/// A byte order, as a type, together with its mark in the file header.
pub trait EndiannessSentinel {
    /// Whether the least significant byte comes first.
    spec fn little() -> bool;

    /// Whether the least significant byte comes first.
    fn is_little() -> (r: bool)
        ensures
            r == Self::little(),
    ;

    /// The two-byte mark at the start of the header.
    fn get_sentinel() -> (s: u16)
        ensures
            s == sentinel(Self::little()),
    ;
}

/// The byte orders in which a file can be written.
pub trait EncodeEndianness: EndiannessSentinel {

}

impl EndiannessSentinel for LittleEndian {
    open spec fn little() -> bool {
        true
    }

    fn is_little() -> bool {
        true
    }

    fn get_sentinel() -> u16 {
        0x4949
    }
}

impl EndiannessSentinel for BigEndian {
    open spec fn little() -> bool {
        false
    }

    fn is_little() -> bool {
        false
    }

    fn get_sentinel() -> u16 {
        0x4D4D
    }
}

impl EncodeEndianness for LittleEndian {

}

impl EncodeEndianness for BigEndian {

}

/// The header of a file whose first directory is at `first_ifd`.
pub open spec fn header_bytes(little: bool, first_ifd: u32) -> Seq<u8> {
    crate::byte_order::short_bytes(little, sentinel(little))
        + crate::byte_order::short_bytes(little, MAGIC)
        + crate::byte_order::long_bytes(little, first_ifd)
}

} // verus!
