//! Reading images of 16 shades of gray.

use crate::colors::Grayscale4Bit;
use crate::decode::{lemma_cell, samples_of, DecodeError, ImageInfo, InfoView};
use crate::{Image, ImageView};
use vstd::prelude::*;

verus! {

/// The number of bytes of a row of `width` half bytes.
pub open spec fn row_bytes(width: int) -> int {
    (width + 1) / 2
}

/// Half `x` of a row that begins at `byte`: the high half of a byte comes
/// first.
pub open spec fn half_at(samples: Seq<u8>, start: int, x: int) -> u8 {
    if x % 2 == 0 {
        samples[start + x / 2] / 16
    } else {
        samples[start + x / 2] % 16
    }
}

/// The shade of a sample: the sample itself where black is zero, 15 less
/// the sample where white is zero.
pub open spec fn shade_of(white_is_zero: bool, sample: u8) -> Grayscale4Bit {
    if white_is_zero {
        Grayscale4Bit::spec_new((15 - sample) as u8)
    } else {
        Grayscale4Bit::spec_new(sample)
    }
}

/// The pixels of `height` rows of `width` half bytes, each row beginning a
/// byte.
pub open spec fn pixels_of(samples: Seq<u8>, width: int, height: int, white_is_zero: bool) -> Seq<
    Grayscale4Bit,
> {
    Seq::new(
        (width * height) as nat,
        |k: int| shade_of(white_is_zero, half_at(samples, (k / width) * row_bytes(width), k % width)),
    )
}

/// The image that the samples hold; `CantReadImage` if the image would
/// have no pixels or too many for this machine, or the samples are not
/// exactly its rows.
pub open spec fn image_from(samples: Seq<u8>, width: int, height: int, white_is_zero: bool) -> Result<
    ImageView<Grayscale4Bit>,
    DecodeError,
> {
    if width <= 0 || height <= 0 || width * height > usize::MAX || samples.len() != height
        * row_bytes(width) {
        Err(DecodeError::CantReadImage)
    } else {
        Ok(
            ImageView {
                pixels: pixels_of(samples, width, height, white_is_zero),
                width: width as nat,
                height: height as nat,
            },
        )
    }
}

/// The image of 16 shades that the strips of a directory hold.
pub open spec fn image_of(bytes: Seq<u8>, info: InfoView, white_is_zero: bool) -> Result<
    ImageView<Grayscale4Bit>,
    DecodeError,
> {
    match samples_of(bytes, info) {
        Err(e) => Err(e),
        Ok(samples) => image_from(samples, info.width, info.height, white_is_zero),
    }
}

/// Reads an image of 16 shades of gray.
pub fn decode_image(bytes: &[u8], info: &ImageInfo, white_is_zero: bool) -> (r: Result<
    Image<Grayscale4Bit>,
    DecodeError,
>)
    ensures
        match image_of(bytes@, info@, white_is_zero) {
            Ok(image) => r matches Ok(found) && found@ == image,
            Err(e) => r matches Err(f) && f == e,
        },
{
    let samples = match info.read_strips(bytes) {
        Ok(samples) => samples,
        Err(e) => {
            return Err(e);
        },
    };
    let width = info.width();
    let height = info.height();
    let len: usize = samples.len();
    let count: usize = match width.checked_mul(height) {
        Some(count) => count,
        None => {
            return Err(DecodeError::CantReadImage);
        },
    };
    if width == 0 || height == 0 {
        return Err(DecodeError::CantReadImage);
    }
    let row_len: usize = width / 2 + width % 2;
    let fits = match height.checked_mul(row_len) {
        Some(len) => len == samples.len(),
        None => false,
    };
    if !fits {
        return Err(DecodeError::CantReadImage);
    }
    let mut pixels: Vec<Grayscale4Bit> = Vec::new();
    let mut k: usize = 0;
    while k < count
        invariant
            k <= count,
            count == width * height,
            len == samples@.len(),
            0 < width,
            0 < height,
            row_len == row_bytes(width as int),
            samples@.len() == height * row_len,
            pixels@.len() == k,
            forall|i: int|
                0 <= i < k ==> pixels@[i] == pixels_of(
                    samples@,
                    width as int,
                    height as int,
                    white_is_zero,
                )[i],
        decreases count - k,
    {
        proof {
            lemma_cell(width as int, height as int, row_len as int, k as int);
        }
        let y: usize = k / width;
        let x: usize = k % width;
        let byte = samples[y * row_len + x / 2];
        let half: u8 = if x % 2 == 0 {
            byte / 16
        } else {
            byte % 16
        };
        pixels.push(
            if white_is_zero {
                Grayscale4Bit::new(15 - half)
            } else {
                Grayscale4Bit::new(half)
            },
        );
        k += 1;
    }
    assert(pixels@ =~= pixels_of(samples@, width as int, height as int, white_is_zero));
    assert(width * height > 0) by (nonlinear_arith)
        requires
            0 < width,
            0 < height,
    ;
    match Image::try_new(pixels, width, height) {
        Ok(image) => Ok(image),
        Err(_) => Err(DecodeError::CantReadImage),
    }
}

} // verus!
