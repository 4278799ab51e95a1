//! Writing images of red, green and blue: three bytes for each pixel.

use crate::colors::RGB;
use crate::compression::Compression;
use crate::encode::buffer::{aligned, TiffEncodeBuffer};
use crate::encode::compression::compressed;
use crate::encode::image_header::EncodeEndianness;
use crate::encode::{
    append_directory, encode_single, encode_strip, strip_start, EncodeResult, IfdInfo,
    ImageEncoder, ImageEncoderImpl, StripLayout,
};
use crate::ifd::tags;
use crate::{Image, ImageView};
use std::marker::PhantomData;
use vstd::prelude::*;

verus! {

/// Encodes an image of red, green and blue.
pub struct RGBImageEncoder<'a, E, C> where C: Compression<RGB> {
    image: &'a Image<RGB>,
    image_compressor: C,
    endianness: PhantomData<E>,
}

/// The samples of pixels of red, green and blue: for each pixel its red,
/// its green and its blue part.
pub open spec fn rgb_bytes(pixels: Seq<RGB>) -> Seq<u8> {
    Seq::new(
        3 * pixels.len(),
        |k: int|
            if k % 3 == 0 {
                pixels[k / 3].r
            } else if k % 3 == 1 {
                pixels[k / 3].g
            } else {
                pixels[k / 3].b
            },
    )
}

/// What the directory of an image of red, green and blue says, and its
/// samples.
pub open spec fn rgb_layout<C: Compression<RGB>>(
    image: ImageView<RGB>,
    image_compressor: C,
) -> StripLayout {
    StripLayout {
        width: image.width as int,
        height: image.height as int,
        bits_per_sample: seq![8u16, 8u16, 8u16],
        compression: image_compressor.codec(),
        photo_interp: tags::PhotometricInterpretation::RGB,
        samples_per_pixel: Some(3u16),
        color_map: None,
        samples: rgb_bytes(image.pixels),
    }
}

impl<'a, E: EncodeEndianness, C: Compression<RGB>> RGBImageEncoder<'a, E, C> {
    /// The image that is encoded.
    pub closed spec fn image(&self) -> ImageView<RGB> {
        self.image@
    }

    /// How the strip is compressed.
    pub closed spec fn compressor(&self) -> C {
        self.image_compressor
    }

    /// An encoder for `image`.
    pub fn new(image: &'a Image<RGB>, compression: C) -> (r: Self)
        ensures
            r.image() == image@,
            r.compressor() == compression,
    {
        Self { image, image_compressor: compression, endianness: PhantomData }
    }
}

impl<'a, E: EncodeEndianness, C: Compression<RGB>> ImageEncoder for RGBImageEncoder<'a, E, C> {
    fn encode(&self) -> (r: Vec<u8>) {
        encode_single(self)
    }
}

impl<'a, E: EncodeEndianness, C: Compression<RGB>> ImageEncoderImpl for RGBImageEncoder<
    'a,
    E,
    C,
> {
    type Endianness = E;

    open spec fn layout(&self) -> StripLayout {
        rgb_layout(self.image(), self.compressor())
    }

    fn append_image_to_buffer(&self, wrt: &mut TiffEncodeBuffer) -> (info: IfdInfo) {
        let ghost before = wrt@;
        let strip = encode_rgb_img(wrt, self.image, &self.image_compressor);
        let mut bits_per_sample: Vec<u16> = Vec::new();
        bits_per_sample.push(8);
        bits_per_sample.push(8);
        bits_per_sample.push(8);
        assert(bits_per_sample@ =~= seq![8u16, 8u16, 8u16]);
        append_directory(
            wrt,
            strip,
            self.image_compressor.compression_tag(),
            self.image.width() as u32,
            self.image.height() as u16,
            bits_per_sample,
            tags::PhotometricInterpretation::RGB,
            Some(3),
            None,
            Ghost(self.layout()),
            Ghost(before),
        )
    }
}

/// Appends the strip of an image of red, green and blue at the next even
/// offset. Returns the offset of the strip and the number of its bytes.
pub fn encode_rgb_img<C: Compression<RGB>>(
    wrt: &mut TiffEncodeBuffer,
    image: &Image<RGB>,
    image_compressor: &C,
) -> (r: EncodeResult)
    requires
        strip_start(old(wrt)@) <= u16::MAX,
        compressed(image_compressor.codec(), rgb_bytes(image@.pixels)).len() <= u32::MAX,
    ensures
        final(wrt).little() == old(wrt).little(),
        final(wrt)@ == aligned(old(wrt)@) + compressed(
            image_compressor.codec(),
            rgb_bytes(image@.pixels),
        ),
        r.image_strip_offsets@ == seq![strip_start(old(wrt)@) as u16],
        r.image_strip_bytecounts@ == seq![
            compressed(image_compressor.codec(), rgb_bytes(image@.pixels)).len() as u32,
        ],
{
    let pixels = image.pixels();
    let mut samples: Vec<u8> = Vec::new();
    let mut i: usize = 0;
    while i < pixels.len()
        invariant
            i <= pixels@.len(),
            samples@.len() == 3 * i,
            forall|k: int| 0 <= k < 3 * i ==> samples@[k] == rgb_bytes(pixels@)[k],
        decreases pixels.len() - i,
    {
        let pixel = pixels[i];
        samples.push(pixel.r);
        samples.push(pixel.g);
        samples.push(pixel.b);
        i += 1;
    }
    assert(samples@ =~= rgb_bytes(image@.pixels));
    encode_strip(wrt, samples.as_slice(), image_compressor)
}

} // verus!
