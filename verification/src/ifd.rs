//! The image file directory: its fields, their types and their tags.

pub mod tags;

use crate::byte_order::{long_bytes, short_bytes};
use crate::types::{Byte, Long, Short, URational};
use vstd::prelude::*;

verus! {

/// Length of the entry count field in the IFD in bytes
pub const ENTRY_COUNT_LEN: usize = 2;

/// Length of the offset to the next IFD at the end of each IFD in bytes
pub const NEXT_IFD_OFFSET_LEN: usize = 4;

/// Length of one entry of a directory in bytes.
pub const ENTRY_LEN: usize = 12;

/// The length of a directory of `fields` entries, without the values that
/// do not fit in their entries.
pub open spec fn spec_get_len(fields: int) -> int {
    ENTRY_COUNT_LEN + fields * ENTRY_LEN + NEXT_IFD_OFFSET_LEN
}

/// Returns the length of the IFD
pub fn get_len(fields: usize) -> (r: usize)
    requires
        fields <= u16::MAX,
    ensures
        r == spec_get_len(fields as int),
{
    ENTRY_COUNT_LEN + fields * ENTRY_LEN + NEXT_IFD_OFFSET_LEN
}

/// Represents the id representing each ifd field type.
#[derive(Clone, Copy, Debug, PartialEq, Eq, Structural)]
pub enum Type {
    /// 8-bit unsigned integer.
    Byte,
    /// 8-bit byte that contains a 7-bit ASCII code; the last byte must be NUL (binary zero).
    ASCII,
    /// 16-bit (2-byte) unsigned integer.
    Short,
    /// 32-bit (4-byte) unsigned integer.
    Long,
    /// Two LONGs: the first represents the numerator of a fraction; the second, the denominator.
    Rational,
}

impl Type {
    /// The number that stands for the type in a file.
    pub open spec fn spec_repr(self) -> u16 {
        match self {
            Type::Byte => 1,
            Type::ASCII => 2,
            Type::Short => 3,
            Type::Long => 4,
            Type::Rational => 5,
        }
    }

    /// The number that stands for the type in a file.
    pub fn repr(self) -> (r: u16)
        ensures
            r == self.spec_repr(),
    {
        match self {
            Type::Byte => 1,
            Type::ASCII => 2,
            Type::Short => 3,
            Type::Long => 4,
            Type::Rational => 5,
        }
    }

    /// The type that `repr` stands for, if any.
    pub open spec fn spec_from_repr(repr: u16) -> Option<Self> {
        if repr == 1 {
            Some(Type::Byte)
        } else if repr == 2 {
            Some(Type::ASCII)
        } else if repr == 3 {
            Some(Type::Short)
        } else if repr == 4 {
            Some(Type::Long)
        } else if repr == 5 {
            Some(Type::Rational)
        } else {
            None
        }
    }

    /// The type that `repr` stands for, if any.
    pub fn from_repr(repr: u16) -> (r: Option<Self>)
        ensures
            r == Self::spec_from_repr(repr),
            r matches Some(t) ==> t.spec_repr() == repr,
    {
        if repr == 1 {
            Some(Type::Byte)
        } else if repr == 2 {
            Some(Type::ASCII)
        } else if repr == 3 {
            Some(Type::Short)
        } else if repr == 4 {
            Some(Type::Long)
        } else if repr == 5 {
            Some(Type::Rational)
        } else {
            None
        }
    }

    /// Number of bytes of one value of the type.
    pub open spec fn spec_size(self) -> int {
        match self {
            Type::Byte => 1,
            Type::ASCII => 1,
            Type::Short => 2,
            Type::Long => 4,
            Type::Rational => 8,
        }
    }
}

/// The fields that a directory can hold.
#[derive(Clone, Copy, Debug, PartialEq, Eq, Structural)]
pub enum Tag {
    NewSubFileType,
    ImageWidth,
    ImageLength,
    BitsPerSample,
    Compression,
    PhotometricInterpretation,
    /// For each strip, the byte offset of that strip.
    StripOffsets,
    SamplesPerPixel,
    /// The number of rows in each strip (except possibly the last strip.)
    RowsPerStrip,
    /// For each strip, the number of bytes in that strip after any compression.
    StripByteCounts,
    /// The number of pixels per ResolutionUnit in the ImageWidth (typically, horizontal) direction.
    XResolution,
    /// The number of pixels per ResolutionUnit in the ImageLength (typically, vertical) direction.
    YResolution,
    PlanarConfiguration,
    ResolutionUnit,
    ColorMap,
    TileWidth,
    TileLength,
    TileOffsets,
    TileByteCounts,
    JPEGProc,
    JPEGQTables,
    JPEGDCTables,
    JPEGACTables,
}

impl Tag {
    /// The number that stands for the tag in a file.
    pub open spec fn spec_repr(self) -> u16 {
        match self {
            Tag::NewSubFileType => 254,
            Tag::ImageWidth => 256,
            Tag::ImageLength => 257,
            Tag::BitsPerSample => 258,
            Tag::Compression => 259,
            Tag::PhotometricInterpretation => 262,
            Tag::StripOffsets => 273,
            Tag::SamplesPerPixel => 277,
            Tag::RowsPerStrip => 278,
            Tag::StripByteCounts => 279,
            Tag::XResolution => 282,
            Tag::YResolution => 283,
            Tag::PlanarConfiguration => 284,
            Tag::ResolutionUnit => 296,
            Tag::ColorMap => 320,
            Tag::TileWidth => 322,
            Tag::TileLength => 323,
            Tag::TileOffsets => 324,
            Tag::TileByteCounts => 325,
            Tag::JPEGProc => 512,
            Tag::JPEGQTables => 519,
            Tag::JPEGDCTables => 520,
            Tag::JPEGACTables => 521,
        }
    }

    /// The number that stands for the tag in a file.
    pub fn repr(self) -> (r: u16)
        ensures
            r == self.spec_repr(),
    {
        match self {
            Tag::NewSubFileType => 254,
            Tag::ImageWidth => 256,
            Tag::ImageLength => 257,
            Tag::BitsPerSample => 258,
            Tag::Compression => 259,
            Tag::PhotometricInterpretation => 262,
            Tag::StripOffsets => 273,
            Tag::SamplesPerPixel => 277,
            Tag::RowsPerStrip => 278,
            Tag::StripByteCounts => 279,
            Tag::XResolution => 282,
            Tag::YResolution => 283,
            Tag::PlanarConfiguration => 284,
            Tag::ResolutionUnit => 296,
            Tag::ColorMap => 320,
            Tag::TileWidth => 322,
            Tag::TileLength => 323,
            Tag::TileOffsets => 324,
            Tag::TileByteCounts => 325,
            Tag::JPEGProc => 512,
            Tag::JPEGQTables => 519,
            Tag::JPEGDCTables => 520,
            Tag::JPEGACTables => 521,
        }
    }

    /// The tag that `repr` stands for, if any.
    pub open spec fn spec_from_repr(repr: u16) -> Option<Self> {
        if repr == 254 {
            Some(Tag::NewSubFileType)
        } else if repr == 256 {
            Some(Tag::ImageWidth)
        } else if repr == 257 {
            Some(Tag::ImageLength)
        } else if repr == 258 {
            Some(Tag::BitsPerSample)
        } else if repr == 259 {
            Some(Tag::Compression)
        } else if repr == 262 {
            Some(Tag::PhotometricInterpretation)
        } else if repr == 273 {
            Some(Tag::StripOffsets)
        } else if repr == 277 {
            Some(Tag::SamplesPerPixel)
        } else if repr == 278 {
            Some(Tag::RowsPerStrip)
        } else if repr == 279 {
            Some(Tag::StripByteCounts)
        } else if repr == 282 {
            Some(Tag::XResolution)
        } else if repr == 283 {
            Some(Tag::YResolution)
        } else if repr == 284 {
            Some(Tag::PlanarConfiguration)
        } else if repr == 296 {
            Some(Tag::ResolutionUnit)
        } else if repr == 320 {
            Some(Tag::ColorMap)
        } else if repr == 322 {
            Some(Tag::TileWidth)
        } else if repr == 323 {
            Some(Tag::TileLength)
        } else if repr == 324 {
            Some(Tag::TileOffsets)
        } else if repr == 325 {
            Some(Tag::TileByteCounts)
        } else if repr == 512 {
            Some(Tag::JPEGProc)
        } else if repr == 519 {
            Some(Tag::JPEGQTables)
        } else if repr == 520 {
            Some(Tag::JPEGDCTables)
        } else if repr == 521 {
            Some(Tag::JPEGACTables)
        } else {
            None
        }
    }

    /// The tag that `repr` stands for, if any.
    pub fn from_repr(repr: u16) -> (r: Option<Self>)
        ensures
            r == Self::spec_from_repr(repr),
            r matches Some(t) ==> t.spec_repr() == repr,
    {
        if repr == 254 {
            Some(Tag::NewSubFileType)
        } else if repr == 256 {
            Some(Tag::ImageWidth)
        } else if repr == 257 {
            Some(Tag::ImageLength)
        } else if repr == 258 {
            Some(Tag::BitsPerSample)
        } else if repr == 259 {
            Some(Tag::Compression)
        } else if repr == 262 {
            Some(Tag::PhotometricInterpretation)
        } else if repr == 273 {
            Some(Tag::StripOffsets)
        } else if repr == 277 {
            Some(Tag::SamplesPerPixel)
        } else if repr == 278 {
            Some(Tag::RowsPerStrip)
        } else if repr == 279 {
            Some(Tag::StripByteCounts)
        } else if repr == 282 {
            Some(Tag::XResolution)
        } else if repr == 283 {
            Some(Tag::YResolution)
        } else if repr == 284 {
            Some(Tag::PlanarConfiguration)
        } else if repr == 296 {
            Some(Tag::ResolutionUnit)
        } else if repr == 320 {
            Some(Tag::ColorMap)
        } else if repr == 322 {
            Some(Tag::TileWidth)
        } else if repr == 323 {
            Some(Tag::TileLength)
        } else if repr == 324 {
            Some(Tag::TileOffsets)
        } else if repr == 325 {
            Some(Tag::TileByteCounts)
        } else if repr == 512 {
            Some(Tag::JPEGProc)
        } else if repr == 519 {
            Some(Tag::JPEGQTables)
        } else if repr == 520 {
            Some(Tag::JPEGDCTables)
        } else if repr == 521 {
            Some(Tag::JPEGACTables)
        } else {
            None
        }
    }
}

/// A tag is found again from its number.
pub proof fn lemma_tag_repr_round_trip(tag: Tag)
    ensures
        Tag::spec_from_repr(tag.spec_repr()) == Some(tag),
{
}

/// A field type is found again from its number.
pub proof fn lemma_type_repr_round_trip(t: Type)
    ensures
        Type::spec_from_repr(t.spec_repr()) == Some(t),
{
}

// ---------------------------------------------------------------------------
// Values
// ---------------------------------------------------------------------------

/// The values of one field.
#[derive(Debug)]
pub enum Values {
    Bytes(Vec<Byte>),
    /// A single string; in a file a NUL byte follows it.
    // According to the spec, only storing a single string is preferred when possible.
    ASCII(String),
    Shorts(Vec<Short>),
    Longs(Vec<Long>),
    Rationals(Vec<URational>),
}

/// The values of one field, as sequences. A string is held as its bytes,
/// without the NUL that ends it in a file.
pub enum FieldData {
    Bytes(Seq<u8>),
    ASCII(Seq<u8>),
    Shorts(Seq<u16>),
    Longs(Seq<u32>),
    Rationals(Seq<URational>),
}

/// The bytes of `shorts`, one number after the other.
pub open spec fn shorts_bytes(little: bool, shorts: Seq<u16>) -> Seq<u8>
    decreases shorts.len(),
{
    if shorts.len() == 0 {
        Seq::empty()
    } else {
        shorts_bytes(little, shorts.drop_last()) + short_bytes(little, shorts.last())
    }
}

/// The bytes of `longs`, one number after the other.
pub open spec fn longs_bytes(little: bool, longs: Seq<u32>) -> Seq<u8>
    decreases longs.len(),
{
    if longs.len() == 0 {
        Seq::empty()
    } else {
        longs_bytes(little, longs.drop_last()) + long_bytes(little, longs.last())
    }
}

/// The bytes of a fraction: its numerator, then its denominator.
pub open spec fn rational_bytes(little: bool, r: URational) -> Seq<u8> {
    long_bytes(little, r.numerator) + long_bytes(little, r.denominator)
}

/// The bytes of `rationals`, one fraction after the other.
pub open spec fn rationals_bytes(little: bool, rationals: Seq<URational>) -> Seq<u8>
    decreases rationals.len(),
{
    if rationals.len() == 0 {
        Seq::empty()
    } else {
        rationals_bytes(little, rationals.drop_last()) + rational_bytes(little, rationals.last())
    }
}

impl FieldData {
    /// The type of the values.
    pub open spec fn field_type(self) -> Type {
        match self {
            FieldData::Bytes(_) => Type::Byte,
            FieldData::ASCII(_) => Type::ASCII,
            FieldData::Shorts(_) => Type::Short,
            FieldData::Longs(_) => Type::Long,
            FieldData::Rationals(_) => Type::Rational,
        }
    }

    /// The number of values. For a string this is the number of its bytes
    /// and one more for the NUL that ends it.
    pub open spec fn count(self) -> int {
        match self {
            FieldData::Bytes(b) => b.len() as int,
            FieldData::ASCII(s) => s.len() as int + 1,
            FieldData::Shorts(s) => s.len() as int,
            FieldData::Longs(l) => l.len() as int,
            FieldData::Rationals(r) => r.len() as int,
        }
    }

    /// The values as bytes of a file.
    pub open spec fn bytes(self, little: bool) -> Seq<u8> {
        match self {
            FieldData::Bytes(b) => b,
            FieldData::ASCII(s) => s.push(0u8),
            FieldData::Shorts(s) => shorts_bytes(little, s),
            FieldData::Longs(l) => longs_bytes(little, l),
            FieldData::Rationals(r) => rationals_bytes(little, r),
        }
    }

    /// Whether the values stand in the entry itself: up to four bytes, two
    /// shorts or one long; a string of up to four bytes with its NUL;
    /// fractions never.
    pub open spec fn fits_inline(self) -> bool {
        match self {
            FieldData::Bytes(b) => b.len() <= 4,
            FieldData::ASCII(s) => s.len() + 1 <= 4,
            FieldData::Shorts(s) => s.len() <= 2,
            FieldData::Longs(l) => l.len() <= 1,
            FieldData::Rationals(_) => false,
        }
    }
}

impl View for Values {
    type V = FieldData;

    open spec fn view(&self) -> FieldData {
        match self {
            Values::Bytes(b) => FieldData::Bytes(b@),
            Values::ASCII(s) => FieldData::ASCII(vstd::utf8::encode_utf8(s@)),
            Values::Shorts(s) => FieldData::Shorts(s@),
            Values::Longs(l) => FieldData::Longs(l@),
            Values::Rationals(r) => FieldData::Rationals(r@),
        }
    }
}

impl Values {
    /// The type of the values.
    pub fn field_type_tag(&self) -> (r: Type)
        ensures
            r == self@.field_type(),
    {
        match self {
            Values::Bytes(_) => Type::Byte,
            Values::ASCII(_) => Type::ASCII,
            Values::Shorts(_) => Type::Short,
            Values::Longs(_) => Type::Long,
            Values::Rationals(_) => Type::Rational,
        }
    }

    /// The number of values. For a string this is the number of its bytes
    /// and one more for the NUL that ends it.
    pub fn num_values(&self) -> (r: Long)
        requires
            self@.count() <= u32::MAX,
        ensures
            r == self@.count(),
    {
        match self {
            Values::Bytes(bytes) => bytes.len() as Long,
            Values::ASCII(string) => (string.as_str().as_bytes().len() + 1) as Long,
            Values::Shorts(short) => short.len() as Long,
            Values::Longs(long) => long.len() as Long,
            Values::Rationals(rational) => rational.len() as Long,
        }
    }
}

// ---------------------------------------------------------------------------
// Entries
// ---------------------------------------------------------------------------

/// One field of a directory: its tag and its values.
#[derive(Debug)]
pub struct Entry {
    tag: Tag,
    values: Values,
}

/// One field of a directory, as sequences.
pub struct Field {
    pub tag: Tag,
    pub data: FieldData,
}

impl View for Entry {
    type V = Field;

    closed spec fn view(&self) -> Field {
        Field { tag: self.tag, data: self.values@ }
    }
}

impl Entry {
    /// The field `tag` with `values`.
    pub fn new(tag: Tag, values: Values) -> (r: Self)
        ensures
            r@ == (Field { tag, data: values@ }),
    {
        Self { tag, values }
    }

    /// The tag of the field.
    pub fn tag(&self) -> (r: Tag)
        ensures
            r == self@.tag,
    {
        self.tag
    }

    /// The values of the field.
    pub fn values(&self) -> (r: &Values)
        ensures
            r@ == self@.data,
    {
        &self.values
    }

    /// The values of the field, taken out of it.
    pub fn into_values(self) -> (r: Values)
        ensures
            r@ == self@.data,
    {
        self.values
    }
}

/// The fields of `entries`, as sequences.
pub open spec fn fields_of(entries: Seq<Entry>) -> Seq<Field> {
    Seq::new(entries.len(), |i: int| entries[i]@)
}

/// Each tag is below the next one.
pub open spec fn tags_ascending(fields: Seq<Field>) -> bool {
    forall|i: int, j: int|
        0 <= i < j < fields.len() ==> (#[trigger] fields[i]).tag.spec_repr() < (
        #[trigger] fields[j]).tag.spec_repr()
}

} // verus!
