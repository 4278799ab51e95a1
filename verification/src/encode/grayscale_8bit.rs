//! Writing images of 256 shades of gray: one byte for each pixel.

use crate::colors::Grayscale8Bit;
use crate::compression::Compression;
use crate::encode::buffer::{aligned, TiffEncodeBuffer};
use crate::encode::compression::compressed;
use crate::encode::image_header::EncodeEndianness;
use crate::encode::photo_interp::{BlackIsZero, PhotometricInterpretation};
use crate::encode::{
    append_directory, encode_single, encode_strip, strip_start, EncodeResult, IfdInfo,
    ImageEncoder, ImageEncoderImpl, StripLayout,
};
use crate::{Image, ImageView};
use std::marker::PhantomData;
use vstd::prelude::*;

verus! {

/// Encodes an image of 256 shades of gray.
pub struct Grayscale8BitImageEncoder<'a, E, C, P = BlackIsZero> where
    C: Compression<Grayscale8Bit>,
    P: PhotometricInterpretation<Grayscale8Bit>,
 {
    image: &'a Image<Grayscale8Bit>,
    image_compressor: C,
    photo_interp: P,
    endianness: PhantomData<E>,
}

/// The samples of pixels of 256 shades.
pub open spec fn gray8_bytes<P: PhotometricInterpretation<Grayscale8Bit>>(
    photo_interp: P,
    pixels: Seq<Grayscale8Bit>,
) -> Seq<u8> {
    Seq::new(pixels.len(), |i: int| photo_interp.sample(pixels[i]))
}

/// What the directory of an image of 256 shades says, and its samples.
pub open spec fn gray8_layout<
    C: Compression<Grayscale8Bit>,
    P: PhotometricInterpretation<Grayscale8Bit>,
>(image: ImageView<Grayscale8Bit>, image_compressor: C, photo_interp: P) -> StripLayout {
    StripLayout {
        width: image.width as int,
        height: image.height as int,
        bits_per_sample: seq![8u16],
        compression: image_compressor.codec(),
        photo_interp: photo_interp.spec_tag(),
        samples_per_pixel: None,
        color_map: None,
        samples: gray8_bytes(photo_interp, image.pixels),
    }
}

impl<'a, E, C, P> Grayscale8BitImageEncoder<'a, E, C, P> where
    E: EncodeEndianness,
    C: Compression<Grayscale8Bit>,
    P: PhotometricInterpretation<Grayscale8Bit>,
 {
    /// The image that is encoded.
    pub closed spec fn image(&self) -> ImageView<Grayscale8Bit> {
        self.image@
    }

    /// How the strip is compressed.
    pub closed spec fn compressor(&self) -> C {
        self.image_compressor
    }

    /// Which sample is black.
    pub closed spec fn photo_interp(&self) -> P {
        self.photo_interp
    }

    /// An encoder for `image`.
    pub fn new(image: &'a Image<Grayscale8Bit>, compression: C, photo_interp: P) -> (r: Self)
        ensures
            r.image() == image@,
            r.compressor() == compression,
            r.photo_interp() == photo_interp,
    {
        Self { image, image_compressor: compression, photo_interp, endianness: PhantomData }
    }
}

impl<'a, E, C, P> ImageEncoder for Grayscale8BitImageEncoder<'a, E, C, P> where
    E: EncodeEndianness,
    C: Compression<Grayscale8Bit>,
    P: PhotometricInterpretation<Grayscale8Bit>,
 {
    fn encode(&self) -> (r: Vec<u8>) {
        encode_single(self)
    }
}

impl<'a, E, C, P> ImageEncoderImpl for Grayscale8BitImageEncoder<'a, E, C, P> where
    E: EncodeEndianness,
    C: Compression<Grayscale8Bit>,
    P: PhotometricInterpretation<Grayscale8Bit>,
 {
    type Endianness = E;

    open spec fn layout(&self) -> StripLayout {
        gray8_layout(self.image(), self.compressor(), self.photo_interp())
    }

    fn append_image_to_buffer(&self, wrt: &mut TiffEncodeBuffer) -> (info: IfdInfo) {
        let ghost before = wrt@;
        let strip = encode_grayscale_img(
            wrt,
            self.image,
            &self.photo_interp,
            &self.image_compressor,
        );
        let mut bits_per_sample: Vec<u16> = Vec::new();
        bits_per_sample.push(8);
        append_directory(
            wrt,
            strip,
            self.image_compressor.compression_tag(),
            self.image.width() as u32,
            self.image.height() as u16,
            bits_per_sample,
            self.photo_interp.tag(),
            None,
            None,
            Ghost(self.layout()),
            Ghost(before),
        )
    }
}

/// Appends the strip of an image of 256 shades at the next even offset.
/// Returns the offset of the strip and the number of its bytes.
pub fn encode_grayscale_img<C, P>(
    wrt: &mut TiffEncodeBuffer,
    image: &Image<Grayscale8Bit>,
    photo_iterp: &P,
    image_compressor: &C,
) -> (r: EncodeResult) where
    C: Compression<Grayscale8Bit>,
    P: PhotometricInterpretation<Grayscale8Bit>,

    requires
        strip_start(old(wrt)@) <= u16::MAX,
        compressed(
            image_compressor.codec(),
            gray8_layout(image@, *image_compressor, *photo_iterp).samples,
        ).len() <= u32::MAX,
    ensures
        final(wrt).little() == old(wrt).little(),
        final(wrt)@ == aligned(old(wrt)@) + compressed(
            image_compressor.codec(),
            gray8_layout(image@, *image_compressor, *photo_iterp).samples,
        ),
        r.image_strip_offsets@ == seq![strip_start(old(wrt)@) as u16],
        r.image_strip_bytecounts@ == seq![
            compressed(
                image_compressor.codec(),
                gray8_layout(image@, *image_compressor, *photo_iterp).samples,
            ).len() as u32,
        ],
{
    let pixels = image.pixels();
    let mut samples: Vec<u8> = Vec::new();
    let mut i: usize = 0;
    while i < pixels.len()
        invariant
            i <= pixels@.len(),
            samples@.len() == i,
            forall|k: int| 0 <= k < i ==> samples@[k] == photo_iterp.sample(pixels@[k]),
        decreases pixels.len() - i,
    {
        samples.push(photo_iterp.encode_pixel(pixels[i]));
        i += 1;
    }
    assert(samples@ =~= gray8_bytes(*photo_iterp, image@.pixels));
    encode_strip(wrt, samples.as_slice(), image_compressor)
}

} // verus!
