//! Writing images of 16 shades of gray: four bits for each pixel, two
//! pixels to a byte, each row beginning a byte.

use crate::colors::Grayscale4Bit;
use crate::compression::Compression;
use crate::encode::buffer::{aligned, TiffEncodeBuffer};
use crate::encode::compression::compressed;
use crate::encode::image_header::EncodeEndianness;
pub use crate::encode::photo_interp::{
    BlackIsZero, PhotometricInterpretation, PhotometricInterpretationImpl, WhiteIsZero,
};
use crate::encode::{
    append_directory, encode_single, encode_strip, strip_start, EncodeResult, IfdInfo,
    ImageEncoder, ImageEncoderImpl, StripLayout,
};
use crate::packers::{pack_half_rows, rows_of_halves};
use crate::{Image, ImageView};
use std::marker::PhantomData;
use vstd::prelude::*;

verus! {

/// Encodes an image of 16 shades of gray.
pub struct Grayscale4BitImageEncoder<'a, E, C, P = BlackIsZero> where
    C: Compression<Grayscale4Bit>,
    P: PhotometricInterpretation<Grayscale4Bit>,
 {
    image: &'a Image<Grayscale4Bit>,
    image_compressor: C,
    photo_interp: P,
    endianness: PhantomData<E>,
}

/// The samples of pixels of 16 shades, each in the low half of a byte.
pub open spec fn gray4_halves<P: PhotometricInterpretation<Grayscale4Bit>>(
    photo_interp: P,
    pixels: Seq<Grayscale4Bit>,
) -> Seq<u8> {
    Seq::new(pixels.len(), |i: int| (photo_interp.sample(pixels[i]) % 16) as u8)
}

/// What the directory of an image of 16 shades says, and its samples: the
/// half bytes of each row, packed.
pub open spec fn gray4_layout<
    C: Compression<Grayscale4Bit>,
    P: PhotometricInterpretation<Grayscale4Bit>,
>(image: ImageView<Grayscale4Bit>, image_compressor: C, photo_interp: P) -> StripLayout {
    StripLayout {
        width: image.width as int,
        height: image.height as int,
        bits_per_sample: seq![4u16],
        compression: image_compressor.codec(),
        photo_interp: photo_interp.spec_tag(),
        samples_per_pixel: None,
        color_map: None,
        samples: rows_of_halves(
            gray4_halves(photo_interp, image.pixels),
            image.width as int,
            image.height as int,
        ),
    }
}

impl<'a, E, C, P> Grayscale4BitImageEncoder<'a, E, C, P> where
    E: EncodeEndianness,
    C: Compression<Grayscale4Bit>,
    P: PhotometricInterpretation<Grayscale4Bit>,
 {
    /// The image that is encoded.
    pub closed spec fn image(&self) -> ImageView<Grayscale4Bit> {
        self.image@
    }

    /// How the strip is compressed.
    pub closed spec fn compressor(&self) -> C {
        self.image_compressor
    }

    /// Which sample is black.
    pub closed spec fn photo_interp(&self) -> P {
        self.photo_interp
    }

    /// An encoder for `image`.
    pub fn new(image: &'a Image<Grayscale4Bit>, compression: C, photo_interp: P) -> (r: Self)
        ensures
            r.image() == image@,
            r.compressor() == compression,
            r.photo_interp() == photo_interp,
    {
        Self { image, image_compressor: compression, photo_interp, endianness: PhantomData }
    }
}

impl<'a, E, C, P> ImageEncoder for Grayscale4BitImageEncoder<'a, E, C, P> where
    E: EncodeEndianness,
    C: Compression<Grayscale4Bit>,
    P: PhotometricInterpretation<Grayscale4Bit>,
 {
    fn encode(&self) -> (r: Vec<u8>) {
        encode_single(self)
    }
}

impl<'a, E, C, P> ImageEncoderImpl for Grayscale4BitImageEncoder<'a, E, C, P> where
    E: EncodeEndianness,
    C: Compression<Grayscale4Bit>,
    P: PhotometricInterpretation<Grayscale4Bit>,
 {
    type Endianness = E;

    open spec fn layout(&self) -> StripLayout {
        gray4_layout(self.image(), self.compressor(), self.photo_interp())
    }

    fn append_image_to_buffer(&self, wrt: &mut TiffEncodeBuffer) -> (info: IfdInfo) {
        let ghost before = wrt@;
        let strip = encode_grayscale_img(
            wrt,
            self.image,
            &self.photo_interp,
            &self.image_compressor,
        );
        let mut bits_per_sample: Vec<u16> = Vec::new();
        bits_per_sample.push(4);
        append_directory(
            wrt,
            strip,
            self.image_compressor.compression_tag(),
            self.image.width() as u32,
            self.image.height() as u16,
            bits_per_sample,
            self.photo_interp.tag(),
            None,
            None,
            Ghost(self.layout()),
            Ghost(before),
        )
    }
}

/// Appends the strip of an image of 16 shades at the next even offset.
/// Returns the offset of the strip and the number of its bytes.
pub fn encode_grayscale_img<C, P>(
    wrt: &mut TiffEncodeBuffer,
    image: &Image<Grayscale4Bit>,
    photo_iterp: &P,
    image_compressor: &C,
) -> (r: EncodeResult) where
    C: Compression<Grayscale4Bit>,
    P: PhotometricInterpretation<Grayscale4Bit>,

    requires
        strip_start(old(wrt)@) <= u16::MAX,
        compressed(
            image_compressor.codec(),
            gray4_layout(image@, *image_compressor, *photo_iterp).samples,
        ).len() <= u32::MAX,
    ensures
        final(wrt).little() == old(wrt).little(),
        final(wrt)@ == aligned(old(wrt)@) + compressed(
            image_compressor.codec(),
            gray4_layout(image@, *image_compressor, *photo_iterp).samples,
        ),
        r.image_strip_offsets@ == seq![strip_start(old(wrt)@) as u16],
        r.image_strip_bytecounts@ == seq![
            compressed(
                image_compressor.codec(),
                gray4_layout(image@, *image_compressor, *photo_iterp).samples,
            ).len() as u32,
        ],
{
    let pixels = image.pixels();
    let mut halves: Vec<u8> = Vec::new();
    let mut i: usize = 0;
    while i < pixels.len()
        invariant
            i <= pixels@.len(),
            halves@.len() == i,
            forall|k: int|
                0 <= k < i ==> halves@[k] == (photo_iterp.sample(pixels@[k]) % 16) as u8,
        decreases pixels.len() - i,
    {
        halves.push(photo_iterp.encode_pixel(pixels[i]) % 16);
        i += 1;
    }
    assert(halves@ =~= gray4_halves(*photo_iterp, image@.pixels));
    let samples = pack_half_rows(&halves, image.width(), image.height());
    encode_strip(wrt, samples.as_slice(), image_compressor)
}

} // verus!
