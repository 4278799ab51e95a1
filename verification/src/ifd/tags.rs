//! The values that some fields of a directory take.

use vstd::prelude::*;

verus! {

/// How sample values stand for colors.
#[derive(Clone, Copy, Debug, PartialEq, Eq, Structural)]
pub enum PhotometricInterpretation {
    WhiteIsZero,
    BlackIsZero,
    RGB,
    PaletteColor,
}

impl PhotometricInterpretation {
    /// The number that stands for the value in a file.
    pub open spec fn spec_repr(self) -> u16 {
        match self {
            PhotometricInterpretation::WhiteIsZero => 0,
            PhotometricInterpretation::BlackIsZero => 1,
            PhotometricInterpretation::RGB => 2,
            PhotometricInterpretation::PaletteColor => 3,
        }
    }

    /// The number that stands for the value in a file.
    pub fn repr(self) -> (r: u16)
        ensures
            r == self.spec_repr(),
    {
        match self {
            PhotometricInterpretation::WhiteIsZero => 0,
            PhotometricInterpretation::BlackIsZero => 1,
            PhotometricInterpretation::RGB => 2,
            PhotometricInterpretation::PaletteColor => 3,
        }
    }

    /// The value that `repr` stands for, if any.
    pub open spec fn spec_from_repr(repr: u16) -> Option<Self> {
        if repr == 0 {
            Some(PhotometricInterpretation::WhiteIsZero)
        } else if repr == 1 {
            Some(PhotometricInterpretation::BlackIsZero)
        } else if repr == 2 {
            Some(PhotometricInterpretation::RGB)
        } else if repr == 3 {
            Some(PhotometricInterpretation::PaletteColor)
        } else {
            None
        }
    }

    /// The value that `repr` stands for, if any.
    pub fn from_repr(repr: u16) -> (r: Option<Self>)
        ensures
            r == Self::spec_from_repr(repr),
            r matches Some(v) ==> v.spec_repr() == repr,
    {
        if repr == 0 {
            Some(PhotometricInterpretation::WhiteIsZero)
        } else if repr == 1 {
            Some(PhotometricInterpretation::BlackIsZero)
        } else if repr == 2 {
            Some(PhotometricInterpretation::RGB)
        } else if repr == 3 {
            Some(PhotometricInterpretation::PaletteColor)
        } else {
            None
        }
    }
}

/// How the bytes of a strip are compressed.
#[derive(Clone, Copy, Debug, PartialEq, Eq, Structural)]
pub enum Compression {
    NoCompression,
    /// CCITT Group 3 1-Dimensional Modified Huffman run length encoding
    Huffman,
    Lzw,
    PackBits,
}

impl Compression {
    /// The number that stands for the value in a file.
    pub open spec fn spec_repr(self) -> u16 {
        match self {
            Compression::NoCompression => 1,
            Compression::Huffman => 2,
            Compression::Lzw => 5,
            Compression::PackBits => 32773,
        }
    }

    /// The number that stands for the value in a file.
    pub fn repr(self) -> (r: u16)
        ensures
            r == self.spec_repr(),
    {
        match self {
            Compression::NoCompression => 1,
            Compression::Huffman => 2,
            Compression::Lzw => 5,
            Compression::PackBits => 32773,
        }
    }

    /// The value that `repr` stands for, if any.
    pub open spec fn spec_from_repr(repr: u16) -> Option<Self> {
        if repr == 1 {
            Some(Compression::NoCompression)
        } else if repr == 2 {
            Some(Compression::Huffman)
        } else if repr == 5 {
            Some(Compression::Lzw)
        } else if repr == 32773 {
            Some(Compression::PackBits)
        } else {
            None
        }
    }

    /// The value that `repr` stands for, if any.
    pub fn from_repr(repr: u16) -> (r: Option<Self>)
        ensures
            r == Self::spec_from_repr(repr),
            r matches Some(v) ==> v.spec_repr() == repr,
    {
        if repr == 1 {
            Some(Compression::NoCompression)
        } else if repr == 2 {
            Some(Compression::Huffman)
        } else if repr == 5 {
            Some(Compression::Lzw)
        } else if repr == 32773 {
            Some(Compression::PackBits)
        } else {
            None
        }
    }
}

impl Default for Compression {
    fn default() -> (r: Self)
        ensures
            r == Compression::NoCompression,
    {
        Compression::NoCompression
    }
}

/// The unit of the resolution fields.
#[derive(Clone, Copy, Debug, PartialEq, Eq, Structural)]
pub enum ResolutionUnit {
    /// No absolute unit of measurement
    NoUnit,
    Inch,
    Centimeter,
}

impl ResolutionUnit {
    /// The number that stands for the value in a file.
    pub open spec fn spec_repr(self) -> u16 {
        match self {
            ResolutionUnit::NoUnit => 1,
            ResolutionUnit::Inch => 2,
            ResolutionUnit::Centimeter => 3,
        }
    }

    /// The number that stands for the value in a file.
    pub fn repr(self) -> (r: u16)
        ensures
            r == self.spec_repr(),
    {
        match self {
            ResolutionUnit::NoUnit => 1,
            ResolutionUnit::Inch => 2,
            ResolutionUnit::Centimeter => 3,
        }
    }

    /// The value that `repr` stands for, if any.
    pub open spec fn spec_from_repr(repr: u16) -> Option<Self> {
        if repr == 1 {
            Some(ResolutionUnit::NoUnit)
        } else if repr == 2 {
            Some(ResolutionUnit::Inch)
        } else if repr == 3 {
            Some(ResolutionUnit::Centimeter)
        } else {
            None
        }
    }

    /// The value that `repr` stands for, if any.
    pub fn from_repr(repr: u16) -> (r: Option<Self>)
        ensures
            r == Self::spec_from_repr(repr),
            r matches Some(v) ==> v.spec_repr() == repr,
    {
        if repr == 1 {
            Some(ResolutionUnit::NoUnit)
        } else if repr == 2 {
            Some(ResolutionUnit::Inch)
        } else if repr == 3 {
            Some(ResolutionUnit::Centimeter)
        } else {
            None
        }
    }
}

impl Default for ResolutionUnit {
    fn default() -> (r: Self)
        ensures
            r == ResolutionUnit::Inch,
    {
        ResolutionUnit::Inch
    }
}

} // verus!
