//! The number types of a TIFF field.

use vstd::prelude::*;

verus! {

/// 8-bit unsigned integer.
pub type Byte = u8;

/// 16-bit unsigned integer.
pub type Short = u16;

/// 32-bit unsigned integer.
pub type Long = u32;

/// A fraction of two unsigned 32-bit integers.
#[derive(Clone, Copy, Debug, PartialEq, Eq, Structural)]
pub struct URational {
    pub numerator: u32,
    pub denominator: u32,
}

impl URational {
    /// The fraction `numerator / denominator`.
    pub fn new(numerator: u32, denominator: u32) -> (r: Self)
        ensures
            r == (URational { numerator, denominator }),
    {
        Self { numerator, denominator }
    }
}

} // verus!
