//! Reading the images of a TIFF file.
//!
//! The header gives the byte order and the offset of the first directory;
//! each directory gives the fields of one image and the offset of the
//! next directory. What cannot be read of one image is collected beside
//! the images that were read; a file without a valid header, a directory
//! outside the file and a chain of directories that comes back to itself
//! end the reading.

pub mod bilevel;
pub mod compression;
pub mod grayscale_4bit;
pub mod grayscale_8bit;
pub mod palette_color;
pub mod rgb;
pub mod tiff_field;

use crate::byte_order::{long_from_bytes, read_u16, read_u32, short_from_bytes};
use crate::colors::{Bilevel, Grayscale4Bit, Grayscale8Bit, RGB};
use crate::decode::compression::{
    decompressed, tag_to_decompressor, DecompressionImpl, Decompressor,
};
use crate::decode::tiff_field::{
    as_usizes, field_data, find, find_required, numbers, read_single, read_single_rational,
    read_single_short, read_values, required_data, single_number, single_rational, single_short,
    values_read,
};
use crate::ifd::{fields_of, tags, Entry, Field, Tag, Type};
use crate::types::URational;
use crate::{Image, ImageView};
use vstd::prelude::*;

verus! {

/// Why a file, a directory or a field could not be read.
#[derive(Clone, Copy, Debug, PartialEq, Eq, Structural)]
pub enum DecodeError {
    /// The file does not begin with a byte-order mark and the number 42.
    InvalidFiletype,
    /// A field has a tag that this library does not know.
    UnknownFieldTag(u16),
    /// A field has a type that this library does not know.
    UnknownFieldType(u16),
    /// The values of a field lie outside the file, or are no values of
    /// its type.
    CantReadField,
    /// A directory lacks a field that its kind of image needs.
    MissingRequiredField,
    /// A directory is the next directory of itself or of a later one.
    LoopingIfdIndices,
    /// A field has another number of values than its tag asks for.
    InvalidTagValueCount,
    /// A field has values of a type or in a range that its tag does not
    /// allow.
    InvalidTagValues,
    /// The directory at this offset lies outside the file.
    InvalidImageFieldDirectory(usize),
    /// The strip is compressed in a way that this library does not read.
    UnsupportedCompressionType,
    /// The strips do not hold the pixels that the directory describes.
    CantReadImage,
}

/// An image that was read from a file.
pub enum DecodedImage {
    BilevelImage(Image<Bilevel>),
    Grayscale8BitImage(Image<Grayscale8Bit>),
    Grayscale4BitImage(Image<Grayscale4Bit>),
    RGBImage(Image<RGB>),
}

/// An image that was read from a file, as sequences.
pub enum DecodedView {
    BilevelImage(ImageView<Bilevel>),
    Grayscale8BitImage(ImageView<Grayscale8Bit>),
    Grayscale4BitImage(ImageView<Grayscale4Bit>),
    RGBImage(ImageView<RGB>),
}

impl View for DecodedImage {
    type V = DecodedView;

    open spec fn view(&self) -> DecodedView {
        match self {
            DecodedImage::BilevelImage(image) => DecodedView::BilevelImage(image@),
            DecodedImage::Grayscale8BitImage(image) => DecodedView::Grayscale8BitImage(image@),
            DecodedImage::Grayscale4BitImage(image) => DecodedView::Grayscale4BitImage(image@),
            DecodedImage::RGBImage(image) => DecodedView::RGBImage(image@),
        }
    }
}

/// The images of a file, and what could not be read of it.
pub struct DecodeResult {
    pub images: Vec<DecodedImage>,
    pub errors: Vec<DecodeError>,
}

/// The images of a file, and what could not be read of it, as sequences.
pub struct Decoded {
    pub images: Seq<DecodedView>,
    pub errors: Seq<DecodeError>,
}

impl View for DecodeResult {
    type V = Decoded;

    open spec fn view(&self) -> Decoded {
        Decoded {
            images: Seq::new(self.images@.len(), |i: int| self.images@[i]@),
            errors: self.errors@,
        }
    }
}

// ---------------------------------------------------------------------------
// Header and directories
// ---------------------------------------------------------------------------

/// The byte order that the first four bytes of a file declare: `II` and
/// 42 for low byte first, `MM` and 42 for high byte first.
pub open spec fn header_order(bytes: Seq<u8>) -> Option<bool> {
    if bytes.len() >= 4 && bytes[0] == 73 && bytes[1] == 73 && bytes[2] == 42 && bytes[3] == 0 {
        Some(true)
    } else if bytes.len() >= 4 && bytes[0] == 77 && bytes[1] == 77 && bytes[2] == 0 && bytes[3]
        == 42 {
        Some(false)
    } else {
        None
    }
}

/// A directory of a file: where it is, how many entries it has, and where
/// the next directory is (0 if there is none).
pub struct IfdView {
    pub index: int,
    pub entry_count: int,
    pub next_ifd_index: int,
}

/// The directory at `index`; `InvalidImageFieldDirectory` if its entry
/// count, its entries or the offset of the next directory lie outside the
/// file.
pub open spec fn ifd_at(bytes: Seq<u8>, little: bool, index: int) -> Result<IfdView, DecodeError> {
    if index + 2 > bytes.len() {
        Err(DecodeError::InvalidImageFieldDirectory(index as usize))
    } else {
        let count = short_from_bytes(little, bytes.subrange(index, index + 2));
        let end = index + 2 + 12 * count;
        if end + 4 > bytes.len() {
            Err(DecodeError::InvalidImageFieldDirectory(index as usize))
        } else {
            Ok(
                IfdView {
                    index,
                    entry_count: count as int,
                    next_ifd_index: long_from_bytes(little, bytes.subrange(end, end + 4)) as int,
                },
            )
        }
    }
}

/// The twelve bytes of entry `i` of a directory.
pub open spec fn record_at(bytes: Seq<u8>, index: int, i: int) -> Seq<u8> {
    bytes.subrange(index + 2 + 12 * i, index + 2 + 12 * i + 12)
}

/// The field that a record holds: `UnknownFieldTag` or `UnknownFieldType`
/// with the number that is not known, or what reading its values gives.
pub open spec fn field_read(bytes: Seq<u8>, little: bool, record: Seq<u8>) -> Result<
    Field,
    DecodeError,
> {
    let raw_tag = short_from_bytes(little, record.subrange(0, 2));
    let raw_type = short_from_bytes(little, record.subrange(2, 4));
    let count = long_from_bytes(little, record.subrange(4, 8));
    match Tag::spec_from_repr(raw_tag) {
        None => Err(DecodeError::UnknownFieldTag(raw_tag)),
        Some(tag) => match Type::spec_from_repr(raw_type) {
            None => Err(DecodeError::UnknownFieldType(raw_type)),
            Some(valtype) => match values_read(
                bytes,
                little,
                valtype,
                count as int,
                record.subrange(8, 12),
            ) {
                Ok(data) => Ok(Field { tag, data }),
                Err(e) => Err(e),
            },
        },
    }
}

/// The fields of a directory that could be read, and why the others could
/// not.
pub struct FieldsRead {
    pub fields: Seq<Field>,
    pub errors: Seq<DecodeError>,
}

/// What the first `n` entries of the directory at `index` give.
pub open spec fn fields_read(bytes: Seq<u8>, little: bool, index: int, n: int) -> FieldsRead
    decreases n,
{
    if n <= 0 {
        FieldsRead { fields: Seq::empty(), errors: Seq::empty() }
    } else {
        let before = fields_read(bytes, little, index, n - 1);
        match field_read(bytes, little, record_at(bytes, index, n - 1)) {
            Ok(field) => FieldsRead { fields: before.fields.push(field), errors: before.errors },
            Err(e) => FieldsRead { fields: before.fields, errors: before.errors.push(e) },
        }
    }
}

/// A directory of a file.
#[derive(Clone, Copy)]
pub struct Ifd {
    index: usize,
    entry_count: usize,
    next_ifd_index: usize,
}

impl View for Ifd {
    type V = IfdView;

    closed spec fn view(&self) -> IfdView {
        IfdView {
            index: self.index as int,
            entry_count: self.entry_count as int,
            next_ifd_index: self.next_ifd_index as int,
        }
    }
}

impl Ifd {
    /// The directory at `ifd_index`.
    pub fn new(bytes: &[u8], ifd_index: usize, little: bool) -> (r: Result<Self, DecodeError>)
        ensures
            match ifd_at(bytes@, little, ifd_index as int) {
                Ok(ifd) => r matches Ok(found) && found@ == ifd && ifd.index + 2 + 12
                    * ifd.entry_count + 4 <= bytes@.len() && 0 <= ifd.entry_count <= u16::MAX,
                Err(e) => r matches Err(f) && f == e,
            },
    {
        let len: usize = bytes.len();
        if len < 2 || ifd_index > len - 2 {
            return Err(DecodeError::InvalidImageFieldDirectory(ifd_index));
        }
        let entry_count: usize = match read_u16(little, &bytes[ifd_index..ifd_index + 2]) {
            Some(count) => count as usize,
            None => {
                return Err(DecodeError::InvalidImageFieldDirectory(ifd_index));
            },
        };
        let entries_len: usize = entry_count * 12;
        if len - (ifd_index + 2) < entries_len || len - (ifd_index + 2) - entries_len < 4 {
            return Err(DecodeError::InvalidImageFieldDirectory(ifd_index));
        }
        let entries_end_inx: usize = ifd_index + 2 + entries_len;
        let next_ifd_index: usize = match read_u32(
            little,
            &bytes[entries_end_inx..entries_end_inx + 4],
        ) {
            Some(next) => next as usize,
            None => {
                return Err(DecodeError::InvalidImageFieldDirectory(ifd_index));
            },
        };
        Ok(Self { index: ifd_index, entry_count, next_ifd_index })
    }

    /// Where the next directory is; 0 if there is none.
    pub fn next_ifd_index(&self) -> (r: usize)
        ensures
            r == self@.next_ifd_index,
    {
        self.next_ifd_index
    }

    /// The number of entries.
    pub fn entry_count(&self) -> (r: usize)
        ensures
            r == self@.entry_count,
    {
        self.entry_count
    }

    /// The twelve bytes of entry `i`.
    pub fn field<'a>(&self, bytes: &'a [u8], i: usize) -> (r: &'a [u8])
        requires
            i < self@.entry_count,
            self@.index + 2 + 12 * self@.entry_count + 4 <= bytes@.len(),
        ensures
            r@ == record_at(bytes@, self@.index, i as int),
            r@.len() == 12,
    {
        let len: usize = bytes.len();
        let start: usize = self.index + 2 + 12 * i;
        &bytes[start..start + 12]
    }
}

/// Reads one entry of a directory.
fn read_field(bytes: &[u8], little: bool, field: &[u8]) -> (r: Result<Entry, DecodeError>)
    requires
        field@.len() == 12,
    ensures
        match field_read(bytes@, little, field@) {
            Ok(found) => r matches Ok(entry) && entry@ == found,
            Err(e) => r matches Err(f) && f == e,
        },
{
    let raw_tag = read_u16(little, &field[0..2]).unwrap();
    let tag = match Tag::from_repr(raw_tag) {
        Some(tag) => tag,
        None => {
            return Err(DecodeError::UnknownFieldTag(raw_tag));
        },
    };
    let raw_field_type = read_u16(little, &field[2..4]).unwrap();
    let field_type = match Type::from_repr(raw_field_type) {
        Some(field_type) => field_type,
        None => {
            return Err(DecodeError::UnknownFieldType(raw_field_type));
        },
    };
    let val_count = read_u32(little, &field[4..8]).unwrap() as usize;
    let val_offset_buff = &field[8..12];
    match read_values(bytes, little, field_type, val_count, val_offset_buff) {
        Ok(values) => Ok(Entry::new(tag, values)),
        Err(e) => Err(e),
    }
}

/// Reads the entries of a directory: the fields that can be read, and why
/// the others cannot.
pub fn read_image_field_directory(bytes: &[u8], little: bool, ifd: Ifd) -> (r: (
    Vec<Entry>,
    Vec<DecodeError>,
))
    requires
        ifd@.index + 2 + 12 * ifd@.entry_count + 4 <= bytes@.len(),
        0 <= ifd@.entry_count,
    ensures
        fields_of(r.0@) == fields_read(bytes@, little, ifd@.index, ifd@.entry_count).fields,
        r.1@ == fields_read(bytes@, little, ifd@.index, ifd@.entry_count).errors,
{
    let mut entries: Vec<Entry> = Vec::new();
    let mut field_errors: Vec<DecodeError> = Vec::new();
    let mut i: usize = 0;
    assert(fields_of(entries@) =~= Seq::<Field>::empty());
    while i < ifd.entry_count()
        invariant
            i <= ifd@.entry_count,
            ifd@.index + 2 + 12 * ifd@.entry_count + 4 <= bytes@.len(),
            fields_of(entries@) == fields_read(bytes@, little, ifd@.index, i as int).fields,
            field_errors@ == fields_read(bytes@, little, ifd@.index, i as int).errors,
        decreases ifd@.entry_count - i,
    {
        let ghost before = fields_of(entries@);
        match read_field(bytes, little, ifd.field(bytes, i)) {
            Ok(entry) => {
                let ghost field = entry@;
                entries.push(entry);
                assert(fields_of(entries@) =~= before.push(field));
            },
            Err(err) => {
                field_errors.push(err);
            },
        }
        i += 1;
    }
    (entries, field_errors)
}

// ---------------------------------------------------------------------------
// The fields of an image
// ---------------------------------------------------------------------------

/// What the directory of an image says of its strips.
pub struct ImageInfo {
    width: usize,
    height: usize,
    decompressor: Decompressor,
    strip_offsets: Vec<usize>,
    rows_per_strip: usize,
    strip_byte_counts: Vec<usize>,
    x_resolution: URational,
    y_resolution: URational,
    resolution_unit: tags::ResolutionUnit,
}

/// What the directory of an image says of its strips, as sequences.
pub struct InfoView {
    pub width: int,
    pub height: int,
    pub compression: tags::Compression,
    pub strip_offsets: Seq<int>,
    pub rows_per_strip: int,
    pub strip_byte_counts: Seq<int>,
    pub x_resolution: URational,
    pub y_resolution: URational,
    pub resolution_unit: tags::ResolutionUnit,
}

impl View for ImageInfo {
    type V = InfoView;

    closed spec fn view(&self) -> InfoView {
        InfoView {
            width: self.width as int,
            height: self.height as int,
            compression: self.decompressor.decoder(),
            strip_offsets: Seq::new(self.strip_offsets@.len(), |i: int| self.strip_offsets@[i] as int),
            rows_per_strip: self.rows_per_strip as int,
            strip_byte_counts: Seq::new(
                self.strip_byte_counts@.len(),
                |i: int| self.strip_byte_counts@[i] as int,
            ),
            x_resolution: self.x_resolution,
            y_resolution: self.y_resolution,
            resolution_unit: self.resolution_unit,
        }
    }
}

/// The one short or long of the first field with `tag`, which must be
/// there.
pub open spec fn required_number(fields: Seq<Field>, tag: Tag) -> Result<u32, DecodeError> {
    match required_data(fields, tag) {
        Ok(data) => single_number(data),
        Err(e) => Err(e),
    }
}

/// The one fraction of the first field with `tag`, which must be there.
pub open spec fn required_rational(fields: Seq<Field>, tag: Tag) -> Result<
    URational,
    DecodeError,
> {
    match required_data(fields, tag) {
        Ok(data) => single_rational(data),
        Err(e) => Err(e),
    }
}

/// The shorts or longs of the first field with `tag`, which must be there.
pub open spec fn required_numbers(fields: Seq<Field>, tag: Tag) -> Result<Seq<int>, DecodeError> {
    match required_data(fields, tag) {
        Ok(data) => numbers(data),
        Err(e) => Err(e),
    }
}

/// The compression that a directory names; none where it names none.
/// `UnsupportedCompressionType` for CCITT Huffman coding and for a number
/// that stands for no compression that this library knows.
pub open spec fn compression_of(fields: Seq<Field>) -> Result<tags::Compression, DecodeError> {
    match field_data(fields, Tag::Compression) {
        None => Ok(tags::Compression::NoCompression),
        Some(data) => match single_short(data) {
            Err(e) => Err(e),
            Ok(repr) => match tags::Compression::spec_from_repr(repr) {
                None => Err(DecodeError::UnsupportedCompressionType),
                Some(tags::Compression::Huffman) => Err(DecodeError::UnsupportedCompressionType),
                Some(compression) => Ok(compression),
            },
        },
    }
}

/// The photometric interpretation that a directory names, which it must.
/// `InvalidTagValues` for a number that stands for none.
pub open spec fn photo_interp_of(fields: Seq<Field>) -> Result<
    tags::PhotometricInterpretation,
    DecodeError,
> {
    match required_data(fields, Tag::PhotometricInterpretation) {
        Err(e) => Err(e),
        Ok(data) => match single_short(data) {
            Err(e) => Err(e),
            Ok(repr) => match tags::PhotometricInterpretation::spec_from_repr(repr) {
                None => Err(DecodeError::InvalidTagValues),
                Some(photo_interp) => Ok(photo_interp),
            },
        },
    }
}

/// The rows of a strip that a directory names; 2³² − 1 where it names
/// none.
pub open spec fn rows_per_strip_of(fields: Seq<Field>) -> Result<u32, DecodeError> {
    match field_data(fields, Tag::RowsPerStrip) {
        None => Ok(u32::MAX),
        Some(data) => single_number(data),
    }
}

/// The unit of resolution that a directory names; the inch where it names
/// none. `InvalidTagValues` for a number that stands for no unit.
pub open spec fn resolution_unit_of(fields: Seq<Field>) -> Result<
    tags::ResolutionUnit,
    DecodeError,
> {
    match field_data(fields, Tag::ResolutionUnit) {
        None => Ok(tags::ResolutionUnit::Inch),
        Some(data) => match single_short(data) {
            Err(e) => Err(e),
            Ok(repr) => match tags::ResolutionUnit::spec_from_repr(repr) {
                None => Err(DecodeError::InvalidTagValues),
                Some(unit) => Ok(unit),
            },
        },
    }
}

/// What a directory says of the strips of its image, and its photometric
/// interpretation. The first field in this order that is missing or
/// wrong gives the error: width, length, compression, photometric
/// interpretation, strip offsets, rows per strip, strip byte counts, the
/// two resolutions, resolution unit.
pub open spec fn image_info(fields: Seq<Field>) -> Result<
    (InfoView, tags::PhotometricInterpretation),
    DecodeError,
> {
    match required_number(fields, Tag::ImageWidth) {
        Err(e) => Err(e),
        Ok(width) => match required_number(fields, Tag::ImageLength) {
            Err(e) => Err(e),
            Ok(height) => match compression_of(fields) {
                Err(e) => Err(e),
                Ok(compression) => match photo_interp_of(fields) {
                    Err(e) => Err(e),
                    Ok(photo_interp) => match strips_info(fields) {
                        Err(e) => Err(e),
                        Ok(strips) => match resolution_info(fields) {
                            Err(e) => Err(e),
                            Ok(resolution) => Ok(
                                (
                                    InfoView {
                                        width: width as int,
                                        height: height as int,
                                        compression,
                                        strip_offsets: strips.0,
                                        rows_per_strip: strips.1 as int,
                                        strip_byte_counts: strips.2,
                                        x_resolution: resolution.0,
                                        y_resolution: resolution.1,
                                        resolution_unit: resolution.2,
                                    },
                                    photo_interp,
                                ),
                            ),
                        },
                    },
                },
            },
        },
    }
}

/// The strip offsets, the rows per strip and the strip byte counts of a
/// directory.
pub open spec fn strips_info(fields: Seq<Field>) -> Result<(Seq<int>, u32, Seq<int>), DecodeError> {
    match required_numbers(fields, Tag::StripOffsets) {
        Err(e) => Err(e),
        Ok(offsets) => match rows_per_strip_of(fields) {
            Err(e) => Err(e),
            Ok(rows) => match required_numbers(fields, Tag::StripByteCounts) {
                Err(e) => Err(e),
                Ok(counts) => Ok((offsets, rows, counts)),
            },
        },
    }
}

/// The two resolutions and the resolution unit of a directory.
pub open spec fn resolution_info(fields: Seq<Field>) -> Result<
    (URational, URational, tags::ResolutionUnit),
    DecodeError,
> {
    match required_rational(fields, Tag::XResolution) {
        Err(e) => Err(e),
        Ok(x) => match required_rational(fields, Tag::YResolution) {
            Err(e) => Err(e),
            Ok(y) => match resolution_unit_of(fields) {
                Err(e) => Err(e),
                Ok(unit) => Ok((x, y, unit)),
            },
        },
    }
}

/// The one short or long of the first field with `tag`, which must be
/// there.
fn read_required_number(fields: &[Entry], tag: Tag) -> (r: Result<u32, DecodeError>)
    ensures
        r == required_number(fields_of(fields@), tag),
{
    match find_required(fields, tag) {
        Ok(values) => read_single(values),
        Err(e) => Err(e),
    }
}

/// The one fraction of the first field with `tag`, which must be there.
fn read_required_rational(fields: &[Entry], tag: Tag) -> (r: Result<URational, DecodeError>)
    ensures
        r == required_rational(fields_of(fields@), tag),
{
    match find_required(fields, tag) {
        Ok(values) => read_single_rational(values),
        Err(e) => Err(e),
    }
}

/// The shorts or longs of the first field with `tag`, which must be there.
fn read_required_numbers(fields: &[Entry], tag: Tag) -> (r: Result<Vec<usize>, DecodeError>)
    ensures
        match required_numbers(fields_of(fields@), tag) {
            Ok(found) => r matches Ok(v) && v@.len() == found.len() && forall|i: int|
                0 <= i < found.len() ==> v@[i] == found[i],
            Err(e) => r matches Err(f) && f == e,
        },
{
    match find_required(fields, tag) {
        Ok(values) => as_usizes(values),
        Err(e) => Err(e),
    }
}

/// Reads what a directory says of the strips of its image, and its
/// photometric interpretation.
pub fn read_image_info(fields: &[Entry]) -> (r: Result<
    (ImageInfo, tags::PhotometricInterpretation),
    DecodeError,
>)
    ensures
        match image_info(fields_of(fields@)) {
            Ok(found) => r matches Ok(info) && info.0@ == found.0 && info.1 == found.1,
            Err(e) => r matches Err(f) && f == e,
        },
{
    let width = match read_required_number(fields, Tag::ImageWidth) {
        Ok(width) => width,
        Err(e) => {
            return Err(e);
        },
    };
    let height = match read_required_number(fields, Tag::ImageLength) {
        Ok(height) => height,
        Err(e) => {
            return Err(e);
        },
    };
    let compression_tag = match find(fields, Tag::Compression) {
        Some(values) => match read_single_short(values) {
            Ok(compression) => match tags::Compression::from_repr(compression) {
                Some(tag) => tag,
                None => {
                    return Err(DecodeError::UnsupportedCompressionType);
                },
            },
            Err(e) => {
                return Err(e);
            },
        },
        None => tags::Compression::default(),
    };
    let decompressor = match tag_to_decompressor(compression_tag) {
        Ok(decompressor) => decompressor,
        Err(e) => {
            return Err(e);
        },
    };
    let photo_interp = match find_required(fields, Tag::PhotometricInterpretation) {
        Ok(values) => match read_single_short(values) {
            Ok(photo_interp) => match tags::PhotometricInterpretation::from_repr(photo_interp) {
                Some(tag) => tag,
                None => {
                    return Err(DecodeError::InvalidTagValues);
                },
            },
            Err(e) => {
                return Err(e);
            },
        },
        Err(e) => {
            return Err(e);
        },
    };
    let strip_offsets = match read_required_numbers(fields, Tag::StripOffsets) {
        Ok(offsets) => offsets,
        Err(e) => {
            return Err(e);
        },
    };
    let rows_per_strip = match find(fields, Tag::RowsPerStrip) {
        Some(values) => match read_single(values) {
            Ok(rows) => rows,
            Err(e) => {
                return Err(e);
            },
        },
        None => u32::MAX,
    };
    let strip_byte_counts = match read_required_numbers(fields, Tag::StripByteCounts) {
        Ok(counts) => counts,
        Err(e) => {
            return Err(e);
        },
    };
    let x_resolution = match read_required_rational(fields, Tag::XResolution) {
        Ok(x) => x,
        Err(e) => {
            return Err(e);
        },
    };
    let y_resolution = match read_required_rational(fields, Tag::YResolution) {
        Ok(y) => y,
        Err(e) => {
            return Err(e);
        },
    };
    let resolution_unit = match find(fields, Tag::ResolutionUnit) {
        Some(values) => match read_single_short(values) {
            Ok(unit) => match tags::ResolutionUnit::from_repr(unit) {
                Some(unit) => unit,
                None => {
                    return Err(DecodeError::InvalidTagValues);
                },
            },
            Err(e) => {
                return Err(e);
            },
        },
        None => tags::ResolutionUnit::default(),
    };
    let info = ImageInfo {
        width: width as usize,
        height: height as usize,
        decompressor,
        strip_offsets,
        rows_per_strip: rows_per_strip as usize,
        strip_byte_counts,
        x_resolution,
        y_resolution,
        resolution_unit,
    };
    proof {
        let found = image_info(fields_of(fields@))->Ok_0;
        assert(info@.strip_offsets =~= found.0.strip_offsets);
        assert(info@.strip_byte_counts =~= found.0.strip_byte_counts);
    }
    Ok((info, photo_interp))
}

// ---------------------------------------------------------------------------
// Strips
// ---------------------------------------------------------------------------

/// The samples of the first `n` strips, decompressed, one strip after the
/// other; `None` if a strip lies outside the file or cannot be
/// decompressed.
pub open spec fn strips_data(bytes: Seq<u8>, info: InfoView, n: int) -> Option<Seq<u8>>
    decreases n,
{
    if n <= 0 {
        Some(Seq::empty())
    } else {
        let at = info.strip_offsets[n - 1];
        let len = info.strip_byte_counts[n - 1];
        match strips_data(bytes, info, n - 1) {
            None => None,
            Some(before) => if at + len > bytes.len() {
                None
            } else {
                match decompressed(info.compression, bytes.subrange(at, at + len)) {
                    None => None,
                    Some(samples) => Some(before + samples),
                }
            },
        }
    }
}

/// The samples of an image. The strips must cover the rows of the image
/// exactly, and each strip must have an offset and a byte count; else,
/// and where `strips_data` gives nothing, `CantReadImage`.
pub open spec fn samples_of(bytes: Seq<u8>, info: InfoView) -> Result<Seq<u8>, DecodeError> {
    if info.height != info.rows_per_strip * info.strip_offsets.len()
        || info.strip_offsets.len() != info.strip_byte_counts.len() {
        Err(DecodeError::CantReadImage)
    } else {
        match strips_data(bytes, info, info.strip_offsets.len() as int) {
            None => Err(DecodeError::CantReadImage),
            Some(samples) => Ok(samples),
        }
    }
}

impl ImageInfo {
    /// The number of pixels in a row.
    pub fn width(&self) -> (r: usize)
        ensures
            r == self@.width,
    {
        self.width
    }

    /// The number of rows.
    pub fn height(&self) -> (r: usize)
        ensures
            r == self@.height,
    {
        self.height
    }

    /// Reads the strips of the image and decompresses them.
    pub fn read_strips(&self, bytes: &[u8]) -> (r: Result<Vec<u8>, DecodeError>)
        ensures
            match samples_of(bytes@, self@) {
                Ok(samples) => r matches Ok(v) && v@ == samples,
                Err(e) => r matches Err(f) && f == e,
            },
    {
        let strips: usize = self.strip_offsets.len();
        let covered = match (self.rows_per_strip as u64).checked_mul(strips as u64) {
            Some(rows) => rows == self.height as u64,
            None => false,
        };
        if !covered || strips != self.strip_byte_counts.len() {
            return Err(DecodeError::CantReadImage);
        }
        let mut samples: Vec<u8> = Vec::new();
        let mut n: usize = 0;
        while n < strips
            invariant
                n <= strips,
                strips == self.strip_offsets@.len(),
                strips == self.strip_byte_counts@.len(),
                strips_data(bytes@, self@, n as int) == Some(samples@),
            decreases strips - n,
        {
            let offset = self.strip_offsets[n];
            let strip_byte_count = self.strip_byte_counts[n];
            let len: usize = bytes.len();
            assert(self@.strip_offsets[n as int] == offset);
            assert(self@.strip_byte_counts[n as int] == strip_byte_count);
            if offset > len || len - offset < strip_byte_count {
                proof {
                    lemma_strips_fail(bytes@, self@, n + 1, strips as int);
                }
                return Err(DecodeError::CantReadImage);
            }
            let strip = &bytes[offset..offset + strip_byte_count];
            match self.decompressor.decompress(strip) {
                Some(decompressed) => {
                    crate::byte_order::append_bytes(&mut samples, decompressed.as_slice());
                },
                None => {
                    proof {
                        lemma_strips_fail(bytes@, self@, n + 1, strips as int);
                    }
                    return Err(DecodeError::CantReadImage);
                },
            }
            n += 1;
        }
        Ok(samples)
    }
}

/// If the first strips cannot be read, all of them cannot.
pub proof fn lemma_strips_fail(bytes: Seq<u8>, info: InfoView, n: int, all: int)
    requires
        n <= all,
        strips_data(bytes, info, n) is None,
    ensures
        strips_data(bytes, info, all) is None,
    decreases all - n,
{
    if n < all {
        lemma_strips_fail(bytes, info, n + 1, all);
    }
}

// ---------------------------------------------------------------------------
// Images
// ---------------------------------------------------------------------------

/// The bits of a sample that a directory of a black and white or gray
/// image names; 1 where it names none.
pub open spec fn bw_bits_per_sample(fields: Seq<Field>) -> Result<u16, DecodeError> {
    match field_data(fields, Tag::BitsPerSample) {
        Some(data) => single_short(data),
        None => Ok(1u16),
    }
}

/// The black and white or gray image of a directory: with 1 bit per
/// sample black and white pixels, with 4 bits 16 shades, with 8 bits 256
/// shades; `InvalidTagValues` for another number of bits.
pub open spec fn bw_image(
    bytes: Seq<u8>,
    fields: Seq<Field>,
    info: InfoView,
    white_is_zero: bool,
) -> Result<DecodedView, DecodeError> {
    match bw_bits_per_sample(fields) {
        Err(e) => Err(e),
        Ok(bits) => if bits == 1 {
            match bilevel::image_of(bytes, info, white_is_zero) {
                Ok(image) => Ok(DecodedView::BilevelImage(image)),
                Err(e) => Err(e),
            }
        } else if bits == 4 {
            match grayscale_4bit::image_of(bytes, info, white_is_zero) {
                Ok(image) => Ok(DecodedView::Grayscale4BitImage(image)),
                Err(e) => Err(e),
            }
        } else if bits == 8 {
            match grayscale_8bit::image_of(bytes, info, white_is_zero) {
                Ok(image) => Ok(DecodedView::Grayscale8BitImage(image)),
                Err(e) => Err(e),
            }
        } else {
            Err(DecodeError::InvalidTagValues)
        },
    }
}

/// The image that the fields of a directory describe.
pub open spec fn decoded_image(bytes: Seq<u8>, fields: Seq<Field>) -> Result<
    DecodedView,
    DecodeError,
> {
    match image_info(fields) {
        Err(e) => Err(e),
        Ok((info, photo_interp)) => match photo_interp {
            tags::PhotometricInterpretation::WhiteIsZero => bw_image(bytes, fields, info, true),
            tags::PhotometricInterpretation::BlackIsZero => bw_image(bytes, fields, info, false),
            tags::PhotometricInterpretation::RGB => match rgb::image_of(bytes, fields, info) {
                Ok(image) => Ok(DecodedView::RGBImage(image)),
                Err(e) => Err(e),
            },
            tags::PhotometricInterpretation::PaletteColor => match palette_color::image_of(
                bytes,
                fields,
                info,
            ) {
                Ok(image) => Ok(DecodedView::RGBImage(image)),
                Err(e) => Err(e),
            },
        },
    }
}

/// Reads a black and white or gray image.
pub fn decode_bw_image(
    bytes: &[u8],
    fields: &[Entry],
    info: &ImageInfo,
    photo_interp: tags::PhotometricInterpretation,
) -> (r: Result<DecodedImage, DecodeError>)
    ensures
        match bw_image(
            bytes@,
            fields_of(fields@),
            info@,
            photo_interp == tags::PhotometricInterpretation::WhiteIsZero,
        ) {
            Ok(image) => r matches Ok(found) && found@ == image,
            Err(e) => r matches Err(f) && f == e,
        },
{
    let bits_per_sample = match find(fields, Tag::BitsPerSample) {
        Some(values) => match read_single_short(values) {
            Ok(bits) => bits,
            Err(e) => {
                return Err(e);
            },
        },
        None => 1,
    };
    let white_is_zero = photo_interp == tags::PhotometricInterpretation::WhiteIsZero;
    if bits_per_sample == 1 {
        match bilevel::decode_image(bytes, info, white_is_zero) {
            Ok(image) => Ok(DecodedImage::BilevelImage(image)),
            Err(e) => Err(e),
        }
    } else if bits_per_sample == 4 {
        match grayscale_4bit::decode_image(bytes, info, white_is_zero) {
            Ok(image) => Ok(DecodedImage::Grayscale4BitImage(image)),
            Err(e) => Err(e),
        }
    } else if bits_per_sample == 8 {
        match grayscale_8bit::decode_image(bytes, info, white_is_zero) {
            Ok(image) => Ok(DecodedImage::Grayscale8BitImage(image)),
            Err(e) => Err(e),
        }
    } else {
        Err(DecodeError::InvalidTagValues)
    }
}

/// Reads the image that the fields of a directory describe.
pub fn decode_image(bytes: &[u8], fields: &[Entry]) -> (r: Result<DecodedImage, DecodeError>)
    ensures
        match decoded_image(bytes@, fields_of(fields@)) {
            Ok(image) => r matches Ok(found) && found@ == image,
            Err(e) => r matches Err(f) && f == e,
        },
{
    let (info, photo_interp) = match read_image_info(fields) {
        Ok(found) => found,
        Err(e) => {
            return Err(e);
        },
    };
    match photo_interp {
        tags::PhotometricInterpretation::WhiteIsZero
        | tags::PhotometricInterpretation::BlackIsZero => decode_bw_image(
            bytes,
            fields,
            &info,
            photo_interp,
        ),
        tags::PhotometricInterpretation::RGB => match rgb::decode_image(bytes, fields, &info) {
            Ok(image) => Ok(DecodedImage::RGBImage(image)),
            Err(e) => Err(e),
        },
        tags::PhotometricInterpretation::PaletteColor => match palette_color::decode_image(
            bytes,
            fields,
            &info,
        ) {
            Ok(image) => Ok(DecodedImage::RGBImage(image)),
            Err(e) => Err(e),
        },
    }
}

// ---------------------------------------------------------------------------
// The chain of directories
// ---------------------------------------------------------------------------

/// What was read with the directory at `index` added: its image and the
/// errors of its fields, or the error that kept its image from being read.
pub open spec fn with_directory(bytes: Seq<u8>, little: bool, ifd: IfdView, so_far: Decoded) -> Decoded {
    let read = fields_read(bytes, little, ifd.index, ifd.entry_count);
    match decoded_image(bytes, read.fields) {
        Ok(image) => Decoded {
            images: so_far.images.push(image),
            errors: so_far.errors + read.errors,
        },
        Err(e) => Decoded { images: so_far.images, errors: so_far.errors.push(e) },
    }
}

/// The offsets in `visited` are different from each other and lie in a
/// file of `len` bytes.
pub open spec fn visited_ok(visited: Seq<usize>, len: int) -> bool {
    &&& visited.no_duplicates()
    &&& forall|i: int| 0 <= i < visited.len() ==> 0 <= #[trigger] visited[i] < len
}

/// What the chain of directories from `index` on adds to what was read.
/// The offset 0 ends the chain. `LoopingIfdIndices` if a directory is
/// met again; `InvalidImageFieldDirectory` if one lies outside the file.
pub open spec fn chain_decoded(
    bytes: Seq<u8>,
    little: bool,
    index: usize,
    visited: Seq<usize>,
    so_far: Decoded,
) -> Result<Decoded, DecodeError>
    decreases bytes.len() - visited.len(),
    when visited_ok(visited, bytes.len() as int)
{
    if index == 0 {
        Ok(so_far)
    } else if visited.contains(index) {
        Err(DecodeError::LoopingIfdIndices)
    } else {
        match ifd_at(bytes, little, index as int) {
            Err(e) => Err(e),
            Ok(ifd) => {
                proof {
                    lemma_room_for_directory(visited, index, bytes.len() as int);
                }
                chain_decoded(
                    bytes,
                    little,
                    ifd.next_ifd_index as usize,
                    visited.push(index),
                    with_directory(bytes, little, ifd, so_far),
                )
            },
        }
    }
}

/// Fewer directories were visited than the file has bytes, if another one
/// lies in the file.
pub proof fn lemma_room_for_directory(visited: Seq<usize>, index: usize, len: int)
    requires
        visited_ok(visited, len),
        !visited.contains(index),
        index < len,
    ensures
        visited.len() < len,
        visited_ok(visited.push(index), len),
{
    let all = visited.push(index);
    assert(all.no_duplicates()) by {
        assert forall|i: int, j: int| 0 <= i < all.len() && 0 <= j < all.len() && i != j implies all[i]
            != all[j] by {
            if i < visited.len() && j < visited.len() {
            } else if i < visited.len() {
                assert(visited.contains(visited[i]));
            } else {
                assert(visited.contains(visited[j]));
            }
        }
    }
    let ints = Seq::new(all.len(), |i: int| all[i] as int);
    assert(ints.no_duplicates());
    ints.unique_seq_to_set();
    vstd::set_lib::lemma_int_range(0, len);
    assert(ints.to_set().subset_of(vstd::set_lib::set_int_range(0, len))) by {
        assert forall|x: int| ints.to_set().contains(x) implies vstd::set_lib::set_int_range(
            0,
            len,
        ).contains(x) by {
            let i = choose|i: int| 0 <= i < ints.len() && ints[i] == x;
            assert(0 <= all[i] < len);
        }
    }
    vstd::set_lib::lemma_len_subset(ints.to_set(), vstd::set_lib::set_int_range(0, len));
}

/// What reading a file gives: `InvalidFiletype` if it does not begin with
/// a byte-order mark, the number 42 and the offset of the first directory;
/// else what the chain of directories gives.
pub open spec fn decoded(bytes: Seq<u8>) -> Result<Decoded, DecodeError> {
    match header_order(bytes) {
        None => Err(DecodeError::InvalidFiletype),
        Some(little) => if bytes.len() < 8 {
            Err(DecodeError::InvalidFiletype)
        } else {
            chain_decoded(
                bytes,
                little,
                long_from_bytes(little, bytes.subrange(4, 8)) as usize,
                Seq::empty(),
                Decoded { images: Seq::empty(), errors: Seq::empty() },
            )
        },
    }
}

/// Appends `src` to `out`.
fn append_errors(out: &mut Vec<DecodeError>, src: &Vec<DecodeError>)
    ensures
        final(out)@ == old(out)@ + src@,
{
    let mut i: usize = 0;
    while i < src.len()
        invariant
            i <= src@.len(),
            out@ == old(out)@ + src@.take(i as int),
        decreases src.len() - i,
    {
        out.push(src[i]);
        assert(src@.take(i + 1) == src@.take(i as int).push(src@[i as int]));
        i += 1;
    }
    assert(src@.take(i as int) == src@);
}

/// Pixel `k` of an image of `height` rows of `width` pixels lies in a row
/// of the image, and the samples of that row lie within `height` rows of
/// `row_len` samples.
pub proof fn lemma_cell(width: int, height: int, row_len: int, k: int)
    requires
        0 < width,
        0 <= k < width * height,
        0 <= row_len,
    ensures
        0 <= k / width < height,
        0 <= k % width < width,
        0 <= (k / width) * row_len,
        (k / width) * row_len + row_len <= height * row_len,
        k == (k / width) * width + k % width,
{
    assert(0 <= k / width < height) by (nonlinear_arith)
        requires
            0 < width,
            0 <= k < width * height,
    ;
    assert(k == (k / width) * width + k % width && 0 <= k % width < width) by (nonlinear_arith)
        requires
            0 < width,
    ;
    let y = k / width;
    assert(0 <= y * row_len && y * row_len + row_len <= height * row_len) by (nonlinear_arith)
        requires
            0 <= y < height,
            0 <= row_len,
    ;
}

/// Whether `offsets` holds `index`.
fn holds_index(offsets: &Vec<usize>, index: usize) -> (r: bool)
    ensures
        r == offsets@.contains(index),
{
    let mut i: usize = 0;
    while i < offsets.len()
        invariant
            i <= offsets@.len(),
            forall|k: int| 0 <= k < i ==> offsets@[k] != index,
        decreases offsets.len() - i,
    {
        if offsets[i] == index {
            return true;
        }
        i += 1;
    }
    false
}

/// Reads the images of a file.
pub fn decode_images(bytes: &[u8]) -> (r: Result<DecodeResult, DecodeError>)
    ensures
        match decoded(bytes@) {
            Ok(found) => r matches Ok(result) && result@ == found,
            Err(e) => r matches Err(f) && f == e,
        },
{
    // Read endianness from header and check magic number
    let little = if bytes.len() >= 4 && bytes[0] == 73 && bytes[1] == 73 && bytes[2] == 42
        && bytes[3] == 0 {
        // II
        true
    } else if bytes.len() >= 4 && bytes[0] == 77 && bytes[1] == 77 && bytes[2] == 0 && bytes[3]
        == 42 {
        // MM
        false
    } else {
        return Err(DecodeError::InvalidFiletype);
    };
    if bytes.len() < 8 {
        return Err(DecodeError::InvalidFiletype);
    }
    let mut ifd_index: usize = match read_u32(little, &bytes[4..8]) {
        Some(index) => index as usize,
        None => {
            return Err(DecodeError::InvalidFiletype);
        },
    };
    let mut result = DecodeResult { images: Vec::new(), errors: Vec::new() };
    let mut ifd_indices: Vec<usize> = Vec::new();
    assert(result@.images =~= Seq::<DecodedView>::empty());
    // The final IFD will have an offset of 0 for the next IFD
    while ifd_index != 0
        invariant
            visited_ok(ifd_indices@, bytes@.len() as int),
            decoded(bytes@) == chain_decoded(bytes@, little, ifd_index, ifd_indices@, result@),
        decreases bytes@.len() - ifd_indices@.len(),
    {
        // Make sure we don't get stuck in an infinite loop if an IFD lists a
        // previous IFD as the next one
        if holds_index(&ifd_indices, ifd_index) {
            return Err(DecodeError::LoopingIfdIndices);
        }
        let ifd = match Ifd::new(bytes, ifd_index, little) {
            Ok(ifd) => ifd,
            Err(e) => {
                return Err(e);
            },
        };
        proof {
            lemma_room_for_directory(ifd_indices@, ifd_index, bytes@.len() as int);
        }
        let ghost before = result@;
        ifd_indices.push(ifd_index);
        ifd_index = ifd.next_ifd_index();
        let (fields, field_errors) = read_image_field_directory(bytes, little, ifd);
        match decode_image(bytes, fields.as_slice()) {
            Ok(image) => {
                let ghost view = image@;
                result.images.push(image);
                append_errors(&mut result.errors, &field_errors);
                assert(result@.images =~= before.images.push(view));
            },
            Err(err) => {
                result.errors.push(err);
                assert(result@.images =~= before.images);
            },
        }
        assert(result@ == with_directory(bytes@, little, ifd@, before));
    }
    Ok(result)
}

} // verus!
