//! Reading images of 256 shades of gray.

use crate::colors::Grayscale8Bit;
use crate::decode::{samples_of, DecodeError, ImageInfo, InfoView};
use crate::{Image, ImageView};
use vstd::prelude::*;

verus! {

/// The shade of a sample: the sample itself where black is zero, 255 less
/// the sample where white is zero.
pub open spec fn shade_of(white_is_zero: bool, sample: u8) -> Grayscale8Bit {
    if white_is_zero {
        Grayscale8Bit((255 - sample) as u8)
    } else {
        Grayscale8Bit(sample)
    }
}

/// The pixels that the samples stand for.
pub open spec fn pixels_of(samples: Seq<u8>, white_is_zero: bool) -> Seq<Grayscale8Bit> {
    Seq::new(samples.len(), |k: int| shade_of(white_is_zero, samples[k]))
}

/// The image that the samples hold; `CantReadImage` if the image would
/// have no pixels, or there is not one sample for each pixel.
pub open spec fn image_from(samples: Seq<u8>, width: int, height: int, white_is_zero: bool) -> Result<
    ImageView<Grayscale8Bit>,
    DecodeError,
> {
    if width <= 0 || height <= 0 || samples.len() != width * height {
        Err(DecodeError::CantReadImage)
    } else {
        Ok(
            ImageView {
                pixels: pixels_of(samples, white_is_zero),
                width: width as nat,
                height: height as nat,
            },
        )
    }
}

/// The image of 256 shades that the strips of a directory hold.
pub open spec fn image_of(bytes: Seq<u8>, info: InfoView, white_is_zero: bool) -> Result<
    ImageView<Grayscale8Bit>,
    DecodeError,
> {
    match samples_of(bytes, info) {
        Err(e) => Err(e),
        Ok(samples) => image_from(samples, info.width, info.height, white_is_zero),
    }
}

/// Reads an image of 256 shades of gray.
pub fn decode_image(bytes: &[u8], info: &ImageInfo, white_is_zero: bool) -> (r: Result<
    Image<Grayscale8Bit>,
    DecodeError,
>)
    ensures
        match image_of(bytes@, info@, white_is_zero) {
            Ok(image) => r matches Ok(found) && found@ == image,
            Err(e) => r matches Err(f) && f == e,
        },
{
    let samples = match info.read_strips(bytes) {
        Ok(samples) => samples,
        Err(e) => {
            return Err(e);
        },
    };
    let mut pixels: Vec<Grayscale8Bit> = Vec::new();
    let mut k: usize = 0;
    while k < samples.len()
        invariant
            k <= samples@.len(),
            pixels@.len() == k,
            forall|i: int| 0 <= i < k ==> pixels@[i] == shade_of(white_is_zero, samples@[i]),
        decreases samples.len() - k,
    {
        let byte = samples[k];
        pixels.push(
            if white_is_zero {
                Grayscale8Bit(u8::MAX - byte)
            } else {
                Grayscale8Bit(byte)
            },
        );
        k += 1;
    }
    assert(pixels@ =~= pixels_of(samples@, white_is_zero));
    match Image::try_new(pixels, info.width(), info.height()) {
        Ok(image) => Ok(image),
        Err(_) => {
            assert(info@.width * info@.height == 0 ==> info@.width == 0 || info@.height == 0)
                by (nonlinear_arith);
            Err(DecodeError::CantReadImage)
        },
    }
}

} // verus!
