//! Writing images of black and white pixels: one bit for each pixel,
//! eight to a byte, each row beginning a byte.

use crate::colors::Bilevel;
use crate::compression::Compression;
use crate::encode::buffer::{aligned, TiffEncodeBuffer};
use crate::encode::compression::compressed;
use crate::encode::image_header::EncodeEndianness;
pub use crate::encode::photo_interp::{
    BlackIsZero, PhotometricInterpretation, PhotometricInterpretationImpl, WhiteIsZero,
};
use crate::encode::{
    append_directory, encode_single, encode_strip, strip_start, EncodeResult, IfdInfo,
    ImageEncoder, ImageEncoderImpl, StripLayout,
};
use crate::packers::{pack_bit_rows, rows_of_bits};
use crate::{Image, ImageView};
use std::marker::PhantomData;
use vstd::prelude::*;

verus! {

/// Encodes an image of black and white pixels.
pub struct BilevelImageEncoder<'a, E, C, P = BlackIsZero> where
    C: Compression<Bilevel>,
    P: PhotometricInterpretation<Bilevel>,
 {
    image: &'a Image<Bilevel>,
    image_compressor: C,
    photo_interp: P,
    endianness: PhantomData<E>,
}

/// The bits of black and white pixels: set where the sample is not zero.
pub open spec fn bilevel_bits<P: PhotometricInterpretation<Bilevel>>(
    photo_interp: P,
    pixels: Seq<Bilevel>,
) -> Seq<bool> {
    Seq::new(pixels.len(), |i: int| photo_interp.sample(pixels[i]) != 0)
}

/// What the directory of an image of black and white pixels says, and its
/// samples: the bits of each row, packed.
pub open spec fn bilevel_layout<C: Compression<Bilevel>, P: PhotometricInterpretation<Bilevel>>(
    image: ImageView<Bilevel>,
    image_compressor: C,
    photo_interp: P,
) -> StripLayout {
    StripLayout {
        width: image.width as int,
        height: image.height as int,
        bits_per_sample: Seq::empty(),
        compression: image_compressor.codec(),
        photo_interp: photo_interp.spec_tag(),
        samples_per_pixel: None,
        color_map: None,
        samples: rows_of_bits(
            bilevel_bits(photo_interp, image.pixels),
            image.width as int,
            image.height as int,
        ),
    }
}

impl<'a, E, C, P> BilevelImageEncoder<'a, E, C, P> where
    E: EncodeEndianness,
    C: Compression<Bilevel>,
    P: PhotometricInterpretation<Bilevel>,
 {
    /// The image that is encoded.
    pub closed spec fn image(&self) -> ImageView<Bilevel> {
        self.image@
    }

    /// How the strip is compressed.
    pub closed spec fn compressor(&self) -> C {
        self.image_compressor
    }

    /// Which sample is black.
    pub closed spec fn photo_interp(&self) -> P {
        self.photo_interp
    }

    /// An encoder for `image`.
    pub fn new(image: &'a Image<Bilevel>, compression: C, photo_interp: P) -> (r: Self)
        ensures
            r.image() == image@,
            r.compressor() == compression,
            r.photo_interp() == photo_interp,
    {
        Self { image, image_compressor: compression, photo_interp, endianness: PhantomData }
    }
}

impl<'a, E, C, P> ImageEncoder for BilevelImageEncoder<'a, E, C, P> where
    E: EncodeEndianness,
    C: Compression<Bilevel>,
    P: PhotometricInterpretation<Bilevel>,
 {
    fn encode(&self) -> (r: Vec<u8>) {
        encode_single(self)
    }
}

impl<'a, E, C, P> ImageEncoderImpl for BilevelImageEncoder<'a, E, C, P> where
    E: EncodeEndianness,
    C: Compression<Bilevel>,
    P: PhotometricInterpretation<Bilevel>,
 {
    type Endianness = E;

    open spec fn layout(&self) -> StripLayout {
        bilevel_layout(self.image(), self.compressor(), self.photo_interp())
    }

    fn append_image_to_buffer(&self, wrt: &mut TiffEncodeBuffer) -> (info: IfdInfo) {
        let ghost before = wrt@;
        let strip = encode_bilevel_img(wrt, self.image, &self.photo_interp, &self.image_compressor);
        append_directory(
            wrt,
            strip,
            self.image_compressor.compression_tag(),
            self.image.width() as u32,
            self.image.height() as u16,
            Vec::new(),
            self.photo_interp.tag(),
            None,
            None,
            Ghost(self.layout()),
            Ghost(before),
        )
    }
}

/// Appends the strip of an image of black and white pixels at the next
/// even offset. Returns the offset of the strip and the number of its bytes.
pub fn encode_bilevel_img<C, P>(
    wrt: &mut TiffEncodeBuffer,
    image: &Image<Bilevel>,
    photo_iterp: &P,
    image_compressor: &C,
) -> (r: EncodeResult) where C: Compression<Bilevel>, P: PhotometricInterpretation<Bilevel>
    requires
        strip_start(old(wrt)@) <= u16::MAX,
        compressed(
            image_compressor.codec(),
            bilevel_layout(image@, *image_compressor, *photo_iterp).samples,
        ).len() <= u32::MAX,
    ensures
        final(wrt).little() == old(wrt).little(),
        final(wrt)@ == aligned(old(wrt)@) + compressed(
            image_compressor.codec(),
            bilevel_layout(image@, *image_compressor, *photo_iterp).samples,
        ),
        r.image_strip_offsets@ == seq![strip_start(old(wrt)@) as u16],
        r.image_strip_bytecounts@ == seq![
            compressed(
                image_compressor.codec(),
                bilevel_layout(image@, *image_compressor, *photo_iterp).samples,
            ).len() as u32,
        ],
{
    let pixels = image.pixels();
    let mut bits: Vec<bool> = Vec::new();
    let mut i: usize = 0;
    while i < pixels.len()
        invariant
            i <= pixels@.len(),
            bits@.len() == i,
            forall|k: int| 0 <= k < i ==> bits@[k] == (photo_iterp.sample(pixels@[k]) != 0),
        decreases pixels.len() - i,
    {
        bits.push(photo_iterp.encode_pixel(pixels[i]) != 0);
        i += 1;
    }
    assert(bits@ =~= bilevel_bits(*photo_iterp, image@.pixels));
    let samples = pack_bit_rows(&bits, image.width(), image.height());
    encode_strip(wrt, samples.as_slice(), image_compressor)
}

} // verus!
