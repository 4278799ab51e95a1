//! Writing images of colors of a palette: for each pixel the place of its
//! color in the palette, as a byte, or as half a byte where the palette
//! has at most 16 colors.

use crate::colors::{colormap_shorts, palette_bits, PaletteColor};
use crate::compression::Compression;
use crate::encode::buffer::{aligned, TiffEncodeBuffer};
use crate::encode::compression::compressed;
use crate::encode::image_header::EncodeEndianness;
use crate::encode::{
    append_directory, encode_single, encode_strip, strip_start, EncodeResult, IfdInfo,
    ImageEncoder, ImageEncoderImpl, StripLayout,
};
use crate::ifd::tags;
use crate::packers::{pack_half_rows, rows_of_halves};
use crate::{Image, ImageView};
use std::marker::PhantomData;
use vstd::prelude::*;

verus! {

/// Encodes an image of colors of a palette.
pub struct PaletteColorImageEncoder<'a, E, C> where C: Compression<PaletteColor<'a>> {
    image: &'a Image<PaletteColor<'a>>,
    image_compressor: C,
    endianness: PhantomData<E>,
}

/// The places of the colors of the pixels in their palette.
pub open spec fn palette_indices(pixels: Seq<PaletteColor>) -> Seq<u8> {
    Seq::new(pixels.len(), |i: int| pixels[i].inx())
}

/// The samples of an image of colors of a palette: the places of the
/// colors, one to a byte, or two to a byte with each row packed by itself
/// where `bits` is 4.
pub open spec fn palette_samples(image: ImageView<PaletteColor>, bits: u16) -> Seq<u8> {
    if bits == 8 {
        palette_indices(image.pixels)
    } else {
        rows_of_halves(
            Seq::new(image.pixels.len(), |i: int| (image.pixels[i].inx() % 16) as u8),
            image.width as int,
            image.height as int,
        )
    }
}

/// What the directory of an image of colors of a palette says, and its
/// samples. The palette is that of the first pixel.
pub open spec fn palette_layout<'a, C: Compression<PaletteColor<'a>>>(
    image: ImageView<PaletteColor<'a>>,
    image_compressor: C,
) -> StripLayout {
    let map = image.pixels[0].map();
    StripLayout {
        width: image.width as int,
        height: image.height as int,
        bits_per_sample: seq![palette_bits(map@.len() as int)],
        compression: image_compressor.codec(),
        photo_interp: tags::PhotometricInterpretation::PaletteColor,
        samples_per_pixel: None,
        color_map: Some(colormap_shorts(map@)),
        samples: palette_samples(image, palette_bits(map@.len() as int)),
    }
}

impl<'a, E: EncodeEndianness, C: Compression<PaletteColor<'a>>> PaletteColorImageEncoder<
    'a,
    E,
    C,
> {
    /// The image that is encoded.
    pub closed spec fn image(&self) -> ImageView<PaletteColor<'a>> {
        self.image@
    }

    /// How the strip is compressed.
    pub closed spec fn compressor(&self) -> C {
        self.image_compressor
    }

    /// An encoder for `image`.
    pub fn new(image: &'a Image<PaletteColor<'a>>, compression: C) -> (r: Self)
        ensures
            r.image() == image@,
            r.compressor() == compression,
    {
        Self { image, image_compressor: compression, endianness: PhantomData }
    }
}

impl<'a, E, C> ImageEncoder for PaletteColorImageEncoder<'a, E, C> where
    E: EncodeEndianness,
    C: Compression<PaletteColor<'a>>,
 {
    fn encode(&self) -> (r: Vec<u8>) {
        encode_single(self)
    }
}

impl<'a, E, C> ImageEncoderImpl for PaletteColorImageEncoder<'a, E, C> where
    E: EncodeEndianness,
    C: Compression<PaletteColor<'a>>,
 {
    type Endianness = E;

    open spec fn layout(&self) -> StripLayout {
        palette_layout(self.image(), self.compressor())
    }

    fn append_image_to_buffer(&self, wrt: &mut TiffEncodeBuffer) -> (info: IfdInfo) {
        let ghost before = wrt@;
        let bits = self.image.bits_per_palette_sample();
        let strip = encode_palettized_img(wrt, self.image, &self.image_compressor, bits as u8);
        let mut bits_per_sample: Vec<u16> = Vec::new();
        bits_per_sample.push(bits);
        let color_map = self.image.get_colormap().create_colormap_vec();
        append_directory(
            wrt,
            strip,
            self.image_compressor.compression_tag(),
            self.image.width() as u32,
            self.image.height() as u16,
            bits_per_sample,
            tags::PhotometricInterpretation::PaletteColor,
            None,
            Some(color_map),
            Ghost(self.layout()),
            Ghost(before),
        )
    }
}

/// Appends the strip of an image of colors of a palette at the next even
/// offset. Returns the offset of the strip and the number of its bytes.
pub fn encode_palettized_img<'a, C>(
    wrt: &mut TiffEncodeBuffer,
    image: &Image<PaletteColor<'a>>,
    image_compressor: &C,
    bits_per_sample: u8,
) -> (r: EncodeResult) where C: Compression<PaletteColor<'a>>
    requires
        strip_start(old(wrt)@) <= u16::MAX,
        compressed(
            image_compressor.codec(),
            palette_samples(image@, bits_per_sample as u16),
        ).len() <= u32::MAX,
    ensures
        final(wrt).little() == old(wrt).little(),
        final(wrt)@ == aligned(old(wrt)@) + compressed(
            image_compressor.codec(),
            palette_samples(image@, bits_per_sample as u16),
        ),
        r.image_strip_offsets@ == seq![strip_start(old(wrt)@) as u16],
        r.image_strip_bytecounts@ == seq![
            compressed(
                image_compressor.codec(),
                palette_samples(image@, bits_per_sample as u16),
            ).len() as u32,
        ],
{
    let pixels = image.pixels();
    let mut indices: Vec<u8> = Vec::new();
    let mut i: usize = 0;
    while i < pixels.len()
        invariant
            i <= pixels@.len(),
            indices@.len() == i,
            forall|k: int|
                0 <= k < i ==> indices@[k] == if bits_per_sample == 8 {
                    pixels@[k].inx()
                } else {
                    (pixels@[k].inx() % 16) as u8
                },
        decreases pixels.len() - i,
    {
        let inx = pixels[i].get_inx();
        if bits_per_sample == 8 {
            indices.push(inx);
        } else {
            indices.push(inx % 16);
        }
        i += 1;
    }
    if bits_per_sample == 8 {
        assert(indices@ =~= palette_samples(image@, bits_per_sample as u16));
        encode_strip(wrt, indices.as_slice(), image_compressor)
    } else {
        // 4 bits per sample
        assert(indices@ =~= Seq::new(
            image@.pixels.len(),
            |i: int| (image@.pixels[i].inx() % 16) as u8,
        ));
        let samples = pack_half_rows(&indices, image.width(), image.height());
        encode_strip(wrt, samples.as_slice(), image_compressor)
    }
}

} // verus!
