//! Writing images into a TIFF byte buffer.
//!
//! An image is written as one strip: the samples of its pixels,
//! compressed, at an even offset; then, again at an even offset, the
//! directory that describes it.

pub mod bilevel;
pub mod buffer;
pub mod compression;
pub mod grayscale_4bit;
pub mod grayscale_8bit;
pub mod ifd;
pub mod image_header;
pub mod palette_color;
pub mod photo_interp;
pub mod rgb;

pub use bilevel::BilevelImageEncoder;
pub use ifd::{encode_ifds, IfdInfo};
pub use image_header::EncodeEndianness;

use crate::byte_order::long_bytes;
use crate::encode::buffer::{aligned, patched, TiffEncodeBuffer};
use crate::encode::compression::{compressed, CompressionImpl};
use crate::encode::ifd::directory_bytes;
use crate::encode::image_header::{header_bytes, EndiannessSentinel};
use crate::ifd::{fields_of, tags, tags_ascending, Entry, Field, FieldData, Tag, Values};
use crate::types::{Long, Short, URational};
use vstd::prelude::*;

verus! {

/// Where the strip of an image was written, and how many bytes it has.
pub struct EncodeResult {
    pub image_strip_offsets: Vec<Short>,
    pub image_strip_bytecounts: Vec<Long>,
}

/// What the directory of an image says, and the samples of its strip
/// before compression.
pub struct StripLayout {
    pub width: int,
    pub height: int,
    /// The bits of each sample of a pixel; empty where the directory
    /// does not say.
    pub bits_per_sample: Seq<u16>,
    pub compression: tags::Compression,
    pub photo_interp: tags::PhotometricInterpretation,
    pub samples_per_pixel: Option<u16>,
    pub color_map: Option<Seq<u16>>,
    pub samples: Seq<u8>,
}

/// The resolution that every directory gives: one pixel per unit.
pub open spec fn unit_resolution() -> FieldData {
    FieldData::Rationals(seq![URational { numerator: 1, denominator: 1 }])
}

/// The fields of the directory of an image whose strip of `strip_len`
/// bytes is at `strip_offset`, in the order of their tags.
pub open spec fn layout_fields(l: StripLayout, strip_offset: int, strip_len: int) -> Seq<Field> {
    seq![
        Field { tag: Tag::ImageWidth, data: FieldData::Longs(seq![l.width as u32]) },
        Field { tag: Tag::ImageLength, data: FieldData::Longs(seq![l.height as u32]) },
    ] + (if l.bits_per_sample.len() > 0 {
        seq![Field { tag: Tag::BitsPerSample, data: FieldData::Shorts(l.bits_per_sample) }]
    } else {
        Seq::empty()
    }) + seq![
        Field {
            tag: Tag::Compression,
            data: FieldData::Shorts(seq![l.compression.spec_repr()]),
        },
        Field {
            tag: Tag::PhotometricInterpretation,
            data: FieldData::Shorts(seq![l.photo_interp.spec_repr()]),
        },
        Field { tag: Tag::StripOffsets, data: FieldData::Shorts(seq![strip_offset as u16]) },
    ] + (match l.samples_per_pixel {
        Some(n) => seq![Field { tag: Tag::SamplesPerPixel, data: FieldData::Shorts(seq![n]) }],
        None => Seq::empty(),
    }) + seq![
        Field { tag: Tag::RowsPerStrip, data: FieldData::Shorts(seq![l.height as u16]) },
        Field { tag: Tag::StripByteCounts, data: FieldData::Longs(seq![strip_len as u32]) },
        Field { tag: Tag::XResolution, data: unit_resolution() },
        Field { tag: Tag::YResolution, data: unit_resolution() },
    ] + (match l.color_map {
        Some(map) => seq![Field { tag: Tag::ColorMap, data: FieldData::Shorts(map) }],
        None => Seq::empty(),
    })
}

/// The strip of an image: its samples, compressed.
pub open spec fn strip_bytes(l: StripLayout) -> Seq<u8> {
    compressed(l.compression, l.samples)
}

/// Where the strip of an image begins that is appended to `before`.
pub open spec fn strip_start(before: Seq<u8>) -> int {
    aligned(before).len() as int
}

/// Where the directory of an image begins that is appended to `before`.
pub open spec fn ifd_start(l: StripLayout, before: Seq<u8>) -> int {
    aligned(aligned(before) + strip_bytes(l)).len() as int
}

/// The fields of the directory of an image that is appended to `before`.
pub open spec fn appended_fields(l: StripLayout, before: Seq<u8>) -> Seq<Field> {
    layout_fields(l, strip_start(before), strip_bytes(l).len() as int)
}

/// The buffer after an image is appended to `before`: the strip at the
/// next even offset, then the directory at the next even offset.
#[verifier::opaque]
pub open spec fn image_appended(little: bool, l: StripLayout, before: Seq<u8>) -> Seq<u8> {
    aligned(aligned(before) + strip_bytes(l)) + directory_bytes(
        little,
        appended_fields(l, before),
        ifd_start(l, before),
    )
}

/// The image can be appended to `before`: its numbers fit in their
/// fields. The width and the length of the strip must fit in 32 bits, the
/// height and the offset of the strip in 16, and the file must stay below
/// 4 GiB. No pixel has more than three samples, and a palette has at most
/// 256 colors of three parts.
pub open spec fn layout_fits(little: bool, l: StripLayout, before: Seq<u8>) -> bool {
    &&& 0 < l.width <= u32::MAX
    &&& 0 < l.height <= u16::MAX
    &&& l.bits_per_sample.len() <= 3
    &&& (l.color_map matches Some(map) ==> map.len() <= 768)
    &&& l.compression != tags::Compression::Huffman
    &&& strip_start(before) <= u16::MAX
    &&& strip_bytes(l).len() <= u32::MAX
    &&& image_appended(little, l, before).len() <= u32::MAX
}

/// A file of one image.
pub open spec fn encoded_file(little: bool, l: StripLayout) -> Seq<u8> {
    let header = header_bytes(little, 8);
    patched(
        image_appended(little, l, header),
        4,
        long_bytes(little, ifd_start(l, header) as u32),
    )
}

/// Where the offset of the next directory stands in the directory of an
/// image that was appended to `before`.
pub open spec fn next_ifd_link(l: StripLayout, before: Seq<u8>) -> int {
    ifd_start(l, before) + 2 + 12 * appended_fields(l, before).len()
}

/// A file of the first `n` of `images`: each image is appended in turn;
/// the header says where the directory of the first is, and the directory
/// of each says where the directory of the next is.
#[verifier::opaque]
pub open spec fn encoded_chain(little: bool, images: Seq<StripLayout>, n: int) -> Seq<u8>
    decreases n,
{
    if n <= 0 {
        header_bytes(little, 8)
    } else {
        let before = encoded_chain(little, images, n - 1);
        let link = if n == 1 {
            4
        } else {
            next_ifd_link(images[n - 2], encoded_chain(little, images, n - 2))
        };
        patched(
            image_appended(little, images[n - 1], before),
            link,
            long_bytes(little, ifd_start(images[n - 1], before) as u32),
        )
    }
}

/// Aligns the buffer and appends the compressed samples as one strip.
/// Returns the offset of the strip and the number of its bytes.
pub fn encode_strip<C: CompressionImpl>(
    wrt: &mut TiffEncodeBuffer,
    samples: &[u8],
    image_compressor: &C,
) -> (r: EncodeResult)
    requires
        strip_start(old(wrt)@) <= u16::MAX,
        compressed(image_compressor.codec(), samples@).len() <= u32::MAX,
    ensures
        final(wrt).little() == old(wrt).little(),
        final(wrt)@ == aligned(old(wrt)@) + compressed(image_compressor.codec(), samples@),
        r.image_strip_offsets@ == seq![strip_start(old(wrt)@) as u16],
        r.image_strip_bytecounts@ == seq![
            compressed(image_compressor.codec(), samples@).len() as u32,
        ],
{
    let row_inx = wrt.align_and_get_len();
    image_compressor.encode(wrt, samples);
    let mut image_strip_offsets: Vec<Short> = Vec::new();
    image_strip_offsets.push(row_inx as Short);
    let mut image_strip_bytecounts: Vec<Long> = Vec::new();
    image_strip_bytecounts.push((wrt.len() - row_inx) as Long);
    EncodeResult { image_strip_offsets, image_strip_bytecounts }
}

/// A vector of one short.
fn one_short(v: Short) -> (r: Vec<Short>)
    ensures
        r@ == seq![v],
{
    let mut r: Vec<Short> = Vec::new();
    r.push(v);
    r
}

/// A vector of one long.
fn one_long(v: Long) -> (r: Vec<Long>)
    ensures
        r@ == seq![v],
{
    let mut r: Vec<Long> = Vec::new();
    r.push(v);
    r
}

/// A vector of the fraction 1/1.
fn one_unit() -> (r: Vec<URational>)
    ensures
        r@ == seq![URational { numerator: 1, denominator: 1 }],
{
    let mut r: Vec<URational> = Vec::new();
    r.push(URational::new(1, 1));
    r
}

/// The entries of the directory of an image, in the order of their tags.
pub(crate) fn image_entries(
    width: u32,
    height: u16,
    bits_per_sample: Vec<Short>,
    compression: tags::Compression,
    photo_interp: tags::PhotometricInterpretation,
    strip: EncodeResult,
    samples_per_pixel: Option<Short>,
    color_map: Option<Vec<Short>>,
    Ghost(l): Ghost<StripLayout>,
) -> (r: Vec<Entry>)
    requires
        strip.image_strip_offsets@.len() == 1,
        strip.image_strip_bytecounts@.len() == 1,
        l.width == width,
        l.height == height,
        l.bits_per_sample == bits_per_sample@,
        l.compression == compression,
        l.photo_interp == photo_interp,
        l.samples_per_pixel == samples_per_pixel,
        match color_map {
            Some(map) => l.color_map == Some(map@),
            None => l.color_map is None,
        },
    ensures
        fields_of(r@) == layout_fields(
            l,
            strip.image_strip_offsets@[0] as int,
            strip.image_strip_bytecounts@[0] as int,
        ),
{
    let ghost offset = strip.image_strip_offsets@[0];
    let ghost count = strip.image_strip_bytecounts@[0];
    assert(strip.image_strip_offsets@ =~= seq![offset]);
    assert(strip.image_strip_bytecounts@ =~= seq![count]);
    let mut entries: Vec<Entry> = Vec::new();
    entries.push(Entry::new(Tag::ImageWidth, Values::Longs(one_long(width))));
    entries.push(Entry::new(Tag::ImageLength, Values::Longs(one_long(height as Long))));
    if bits_per_sample.len() > 0 {
        entries.push(Entry::new(Tag::BitsPerSample, Values::Shorts(bits_per_sample)));
    }
    entries.push(Entry::new(Tag::Compression, Values::Shorts(one_short(compression.repr()))));
    entries.push(
        Entry::new(Tag::PhotometricInterpretation, Values::Shorts(one_short(photo_interp.repr()))),
    );
    entries.push(Entry::new(Tag::StripOffsets, Values::Shorts(strip.image_strip_offsets)));
    if let Some(n) = samples_per_pixel {
        entries.push(Entry::new(Tag::SamplesPerPixel, Values::Shorts(one_short(n))));
    }
    entries.push(Entry::new(Tag::RowsPerStrip, Values::Shorts(one_short(height))));
    entries.push(Entry::new(Tag::StripByteCounts, Values::Longs(strip.image_strip_bytecounts)));
    entries.push(Entry::new(Tag::XResolution, Values::Rationals(one_unit())));
    entries.push(Entry::new(Tag::YResolution, Values::Rationals(one_unit())));
    if let Some(map) = color_map {
        entries.push(Entry::new(Tag::ColorMap, Values::Shorts(map)));
    }
    assert(fields_of(entries@) =~= layout_fields(l, offset as int, count as int));
    entries
}

/// The fields of a directory of an image stand in the order of their tags.
pub proof fn lemma_layout_fields_ascending(l: StripLayout, strip_offset: int, strip_len: int)
    ensures
        tags_ascending(layout_fields(l, strip_offset, strip_len)),
        9 <= layout_fields(l, strip_offset, strip_len).len() <= 12,
{
    let fields = layout_fields(l, strip_offset, strip_len);
    assert forall|i: int, j: int| 0 <= i < j < fields.len() implies (#[trigger] fields[i]).tag.spec_repr()
        < (#[trigger] fields[j]).tag.spec_repr() by {
        lemma_layout_tag_at(l, strip_offset, strip_len, i);
        lemma_layout_tag_at(l, strip_offset, strip_len, j);
    }
}

/// Each field of a directory of an image has one of the twelve tags of
/// such a directory, and every field after it has a tag of a later place.
proof fn lemma_layout_tag_at(l: StripLayout, strip_offset: int, strip_len: int, i: int)
    requires
        0 <= i < layout_fields(l, strip_offset, strip_len).len(),
    ensures
        layout_rank(layout_fields(l, strip_offset, strip_len)[i].tag) >= 0,
        forall|j: int|
            i < j < layout_fields(l, strip_offset, strip_len).len() ==> layout_rank(
                layout_fields(l, strip_offset, strip_len)[i].tag,
            ) < layout_rank(#[trigger] layout_fields(l, strip_offset, strip_len)[j].tag),
{
}

/// The place of a tag among the tags of a directory of an image.
pub open spec fn layout_rank(tag: Tag) -> int {
    match tag {
        Tag::ImageWidth => 0,
        Tag::ImageLength => 1,
        Tag::BitsPerSample => 2,
        Tag::Compression => 3,
        Tag::PhotometricInterpretation => 4,
        Tag::StripOffsets => 5,
        Tag::SamplesPerPixel => 6,
        Tag::RowsPerStrip => 7,
        Tag::StripByteCounts => 8,
        Tag::XResolution => 9,
        Tag::YResolution => 10,
        Tag::ColorMap => 11,
        _ => -1,
    }
}

/// Appends the directory of an image whose strip was just appended to
/// `before`. Returns where the directory starts and how many entries it has.
pub(crate) fn append_directory(
    wrt: &mut TiffEncodeBuffer,
    strip: EncodeResult,
    compression: tags::Compression,
    width: u32,
    height: u16,
    bits_per_sample: Vec<Short>,
    photo_interp: tags::PhotometricInterpretation,
    samples_per_pixel: Option<Short>,
    color_map: Option<Vec<Short>>,
    Ghost(l): Ghost<StripLayout>,
    Ghost(before): Ghost<Seq<u8>>,
) -> (info: IfdInfo)
    requires
        l.width == width,
        l.height == height,
        l.bits_per_sample == bits_per_sample@,
        l.compression == compression,
        l.photo_interp == photo_interp,
        l.samples_per_pixel == samples_per_pixel,
        match color_map {
            Some(map) => l.color_map == Some(map@),
            None => l.color_map is None,
        },
        old(wrt)@ == aligned(before) + strip_bytes(l),
        strip.image_strip_offsets@ == seq![strip_start(before) as u16],
        strip.image_strip_bytecounts@ == seq![strip_bytes(l).len() as u32],
        layout_fits(old(wrt).little(), l, before),
    ensures
        final(wrt).little() == old(wrt).little(),
        final(wrt)@ == image_appended(old(wrt).little(), l, before),
        info.inx == ifd_start(l, before),
        info.entry_count == appended_fields(l, before).len(),
        info.entry_count <= 12,
        info.inx + 2 + 12 * info.entry_count + 4 <= final(wrt)@.len(),
{
    let ghost fields = appended_fields(l, before);
    let entries = image_entries(
        width,
        height,
        bits_per_sample,
        compression,
        photo_interp,
        strip,
        samples_per_pixel,
        color_map,
        Ghost(l),
    );
    proof {
        reveal(image_appended);
        lemma_layout_fields_ascending(l, strip_start(before), strip_bytes(l).len() as int);
        assert(fields_of(entries@) == fields);
        crate::encode::ifd::lemma_directory_len(wrt.little(), fields, ifd_start(l, before));
        assert forall|i: int| 0 <= i < entries@.len() implies (#[trigger] entries@[i])@.data.count()
            <= u32::MAX by {
            assert(entries@[i]@ == fields[i]);
            lemma_layout_counts(l, strip_start(before), strip_bytes(l).len() as int, i);
        }
    }
    encode_ifds(wrt, entries.as_slice())
}

/// No field of a directory of an image has more than 768 values.
proof fn lemma_layout_counts(l: StripLayout, strip_offset: int, strip_len: int, i: int)
    requires
        0 <= i < layout_fields(l, strip_offset, strip_len).len(),
        l.bits_per_sample.len() <= 3,
        l.color_map matches Some(map) ==> map.len() <= 768,
    ensures
        layout_fields(l, strip_offset, strip_len)[i].data.count() <= 768,
{
}

/// Appends an image to a buffer.
pub trait ImageEncoderImpl {
    /// The byte order of the file.
    type Endianness: EncodeEndianness;

    /// What the directory of the image says, and its samples.
    spec fn layout(&self) -> StripLayout;

    /// Appends an image to a buffer and returns the index and number of entries in its image field directory.
    /// This may or may not be the only image in the file.
    fn append_image_to_buffer(&self, wrt: &mut TiffEncodeBuffer) -> (info: IfdInfo)
        requires
            old(wrt).little() == Self::Endianness::little(),
            layout_fits(old(wrt).little(), self.layout(), old(wrt)@),
        ensures
            final(wrt).little() == old(wrt).little(),
            final(wrt)@ == image_appended(old(wrt).little(), self.layout(), old(wrt)@),
            info.inx == ifd_start(self.layout(), old(wrt)@),
            info.entry_count == appended_fields(self.layout(), old(wrt)@).len(),
            info.entry_count <= 12,
            info.inx + 2 + 12 * info.entry_count + 4 <= final(wrt)@.len(),
    ;
}

/// Encodes an image into a file.
pub trait ImageEncoder: ImageEncoderImpl {
    /// Encodes image into a file with that single image.
    fn encode(&self) -> (r: Vec<u8>)
        requires
            layout_fits(
                Self::Endianness::little(),
                self.layout(),
                header_bytes(Self::Endianness::little(), 8),
            ),
        ensures
            r@ == encoded_file(Self::Endianness::little(), self.layout()),
    ;
}

/// The file of no images is the header; the file of one image more is
/// the file before with the image appended and the link to its directory
/// written.
pub proof fn lemma_encoded_chain_step(little: bool, images: Seq<StripLayout>, n: int)
    ensures
        n <= 0 ==> encoded_chain(little, images, n) == header_bytes(little, 8),
        n >= 1 ==> encoded_chain(little, images, n) == patched(
            image_appended(little, images[n - 1], encoded_chain(little, images, n - 1)),
            if n == 1 {
                4
            } else {
                next_ifd_link(images[n - 2], encoded_chain(little, images, n - 2))
            },
            long_bytes(
                little,
                ifd_start(images[n - 1], encoded_chain(little, images, n - 1)) as u32,
            ),
        ),
        encoded_file(little, images[0]) == encoded_chain(little, images, 1),
{
    reveal(encoded_chain);
    assert(encoded_chain(little, images, 0) == header_bytes(little, 8));
}

/// Encodes an image into a file with that single image.
pub fn encode_single<E: ImageEncoderImpl>(image: &E) -> (r: Vec<u8>)
    requires
        layout_fits(E::Endianness::little(), image.layout(), header_bytes(E::Endianness::little(), 8)),
    ensures
        r@ == encoded_file(E::Endianness::little(), image.layout()),
{
    let mut encoded = TiffEncodeBuffer::new::<E::Endianness>();
    let ifd_inx = image.append_image_to_buffer(&mut encoded).inx;
    // Update header to point to the correct IDF offset
    encoded.set_first_ifd_offset(ifd_inx as Long);
    encoded.to_bytes()
}

/// The layouts of `images`.
pub open spec fn layouts_of<E: ImageEncoderImpl>(images: Seq<&E>) -> Seq<StripLayout> {
    Seq::new(images.len(), |i: int| images[i].layout())
}

/// Each of `images` can be appended to the file of those before it.
pub open spec fn chain_fits(little: bool, images: Seq<StripLayout>) -> bool {
    forall|n: int|
        0 <= n < images.len() ==> layout_fits(
            little,
            #[trigger] images[n],
            encoded_chain(little, images, n),
        )
}

/// Encodes multiple images into a single file. There must be at least one.
pub fn encode_images<E: ImageEncoder>(images: &[&E]) -> (r: Vec<u8>)
    requires
        images@.len() > 0,
        chain_fits(E::Endianness::little(), layouts_of(images@)),
    ensures
        r@ == encoded_chain(
            E::Endianness::little(),
            layouts_of(images@),
            images@.len() as int,
        ),
{
    let little = E::Endianness::is_little();
    let ghost layouts = layouts_of(images@);
    let mut encoded = TiffEncodeBuffer::new::<E::Endianness>();
    proof {
        assert(layouts[0] == images@[0].layout());
        lemma_encoded_chain_step(little, layouts, 0);
        lemma_encoded_chain_step(little, layouts, 1);
    }
    let mut prev_ifd_info = images[0].append_image_to_buffer(&mut encoded);
    encoded.set_first_ifd_offset(prev_ifd_info.inx as Long);
    let mut n: usize = 1;
    while n < images.len()
        invariant
            1 <= n <= images@.len(),
            little == E::Endianness::little(),
            encoded.little() == little,
            layouts == layouts_of(images@),
            chain_fits(little, layouts),
            encoded@ == encoded_chain(little, layouts, n as int),
            prev_ifd_info.inx + 2 + 12 * prev_ifd_info.entry_count == next_ifd_link(
                layouts[n - 1],
                encoded_chain(little, layouts, n - 1),
            ),
            prev_ifd_info.entry_count <= 12,
            prev_ifd_info.inx + 2 + 12 * prev_ifd_info.entry_count + 4 <= encoded@.len(),
        decreases images.len() - n,
    {
        let ghost before = encoded@;
        proof {
            assert(layouts[n as int] == images@[n as int].layout());
            lemma_encoded_chain_step(little, layouts, n + 1);
        }
        let ifd_info = images[n].append_image_to_buffer(&mut encoded);
        proof {
            lemma_image_appended_len(little, layouts[n as int], before);
        }
        encoded.set_next_ifd_offset(
            prev_ifd_info.inx,
            prev_ifd_info.entry_count,
            ifd_info.inx as Long,
        );
        prev_ifd_info = ifd_info;
        n += 1;
    }
    encoded.to_bytes()
}

/// Appending an image does not shorten the buffer.
pub proof fn lemma_image_appended_len(little: bool, l: StripLayout, before: Seq<u8>)
    ensures
        image_appended(little, l, before).len() >= before.len(),
{
    reveal(image_appended);
}

/// The values after a directory take at most one byte more than their
/// own bytes for each field.
pub proof fn lemma_placed_spill_bound(
    little: bool,
    fields: Seq<Field>,
    base: int,
    i: int,
    bound: int,
)
    requires
        0 <= i <= fields.len(),
        0 <= base,
        forall|k: int| 0 <= k < fields.len() ==> (#[trigger] fields[k]).data.bytes(little).len() <= bound,
    ensures
        crate::encode::ifd::placed(little, fields.take(i), base).spill.len() <= i * (bound + 1),
    decreases i,
{
    if i == 0 {
        assert(fields.take(0) == Seq::<Field>::empty());
        crate::encode::ifd::lemma_placed_none(little, base);
    } else {
        lemma_placed_spill_bound(little, fields, base, i - 1, bound);
        crate::encode::ifd::lemma_placed_step(little, fields, base, i - 1);
        let before = crate::encode::ifd::placed(little, fields.take(i - 1), base).spill;
        let len = base + before.len();
        let spill = crate::encode::buffer::value_spill(little, fields[i - 1].data, len);
        assert(fields[i - 1].data.bytes(little).len() <= bound);
        assert(crate::encode::buffer::zeros(len % 2).len() <= 1);
        assert(spill.len() <= bound + 1);
        assert(i * (bound + 1) == (i - 1) * (bound + 1) + (bound + 1)) by (nonlinear_arith);
    }
}

/// An image whose strip stays 80 000 bytes below 4 GiB, whose width fits
/// in 32 bits and whose height fits in 16 can be written to a file of its
/// own.
pub proof fn lemma_layout_fits(little: bool, l: StripLayout)
    requires
        0 < l.width <= u32::MAX,
        0 < l.height <= u16::MAX,
        l.bits_per_sample.len() <= 3,
        l.color_map matches Some(map) ==> map.len() <= 768,
        l.compression != tags::Compression::Huffman,
        strip_bytes(l).len() + 80000 <= u32::MAX,
    ensures
        layout_fits(little, l, header_bytes(little, 8)),
{
    reveal(image_appended);
    let header = header_bytes(little, 8);
    let at = ifd_start(l, header);
    let fields = appended_fields(l, header);
    let base = at + crate::ifd::spec_get_len(fields.len() as int);
    lemma_layout_fields_ascending(l, strip_start(header), strip_bytes(l).len() as int);
    assert forall|k: int| 0 <= k < fields.len() implies (#[trigger] fields[k]).data.bytes(
        little,
    ).len() <= 6144 by {
        lemma_layout_counts(l, strip_start(header), strip_bytes(l).len() as int, k);
        crate::encode::ifd::lemma_field_bytes_len(little, fields[k].data);
        let count = fields[k].data.count();
        let size = fields[k].data.field_type().spec_size();
        assert(count * size <= 6144) by (nonlinear_arith)
            requires
                0 <= count <= 768,
                0 <= size <= 8,
        ;
    }
    lemma_placed_spill_bound(little, fields, base, fields.len() as int, 6144);
    assert(fields.take(fields.len() as int) == fields);
    crate::encode::ifd::lemma_directory_len(little, fields, at);
    assert(fields.len() * 6145 <= 12 * 6145) by (nonlinear_arith)
        requires
            fields.len() <= 12,
    ;
}

} // verus!
