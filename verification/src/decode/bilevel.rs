//! Reading images of black and white pixels.

use crate::colors::Bilevel;
use crate::decode::{lemma_cell, samples_of, DecodeError, ImageInfo, InfoView};
use crate::packers::{bit_of_byte, weight_of_bit};
use crate::{Image, ImageView};
use vstd::prelude::*;

verus! {

/// The pixel of a bit: a set bit is white where black is zero, and black
/// where white is zero.
pub open spec fn bilevel_pixel(white_is_zero: bool, bit: bool) -> Bilevel {
    if bit == white_is_zero {
        Bilevel::Black
    } else {
        Bilevel::White
    }
}

/// The number of bytes of a row of `width` bits.
pub open spec fn row_bytes(width: int) -> int {
    (width + 7) / 8
}

/// The pixels of `height` rows of `width` bits, each row beginning a byte,
/// the first bit of a byte being its highest.
pub open spec fn pixels_of(samples: Seq<u8>, width: int, height: int, white_is_zero: bool) -> Seq<
    Bilevel,
> {
    Seq::new(
        (width * height) as nat,
        |k: int|
            bilevel_pixel(
                white_is_zero,
                bit_of_byte(
                    samples[(k / width) * row_bytes(width) + (k % width) / 8],
                    (k % width) % 8,
                ),
            ),
    )
}

/// The image that the samples hold; `CantReadImage` if the image would
/// have no pixels or too many for this machine, or the samples are not
/// exactly its rows.
pub open spec fn image_from(samples: Seq<u8>, width: int, height: int, white_is_zero: bool) -> Result<
    ImageView<Bilevel>,
    DecodeError,
> {
    if width <= 0 || height <= 0 || width * height > usize::MAX || samples.len() != height
        * row_bytes(width) {
        Err(DecodeError::CantReadImage)
    } else {
        Ok(
            ImageView {
                pixels: pixels_of(samples, width, height, white_is_zero),
                width: width as nat,
                height: height as nat,
            },
        )
    }
}

/// The image of black and white pixels that the strips of a directory
/// hold.
pub open spec fn image_of(bytes: Seq<u8>, info: InfoView, white_is_zero: bool) -> Result<
    ImageView<Bilevel>,
    DecodeError,
> {
    match samples_of(bytes, info) {
        Err(e) => Err(e),
        Ok(samples) => image_from(samples, info.width, info.height, white_is_zero),
    }
}

/// Reads an image of black and white pixels.
pub fn decode_image(bytes: &[u8], info: &ImageInfo, white_is_zero: bool) -> (r: Result<
    Image<Bilevel>,
    DecodeError,
>)
    ensures
        match image_of(bytes@, info@, white_is_zero) {
            Ok(image) => r matches Ok(found) && found@ == image,
            Err(e) => r matches Err(f) && f == e,
        },
{
    let samples = match info.read_strips(bytes) {
        Ok(samples) => samples,
        Err(e) => {
            return Err(e);
        },
    };
    let width = info.width();
    let height = info.height();
    let len: usize = samples.len();
    let count: usize = match width.checked_mul(height) {
        Some(count) => count,
        None => {
            return Err(DecodeError::CantReadImage);
        },
    };
    if width == 0 || height == 0 {
        return Err(DecodeError::CantReadImage);
    }
    let row_len: usize = if width % 8 == 0 {
        width / 8
    } else {
        width / 8 + 1
    };
    let fits = match height.checked_mul(row_len) {
        Some(len) => len == samples.len(),
        None => false,
    };
    if !fits {
        return Err(DecodeError::CantReadImage);
    }
    let mut pixels: Vec<Bilevel> = Vec::new();
    let mut k: usize = 0;
    while k < count
        invariant
            k <= count,
            count == width * height,
            len == samples@.len(),
            0 < width,
            0 < height,
            row_len == row_bytes(width as int),
            samples@.len() == height * row_len,
            pixels@.len() == k,
            forall|i: int|
                0 <= i < k ==> pixels@[i] == pixels_of(
                    samples@,
                    width as int,
                    height as int,
                    white_is_zero,
                )[i],
        decreases count - k,
    {
        proof {
            lemma_cell(width as int, height as int, row_len as int, k as int);
        }
        let y: usize = k / width;
        let x: usize = k % width;
        let byte = samples[y * row_len + x / 8];
        let bit = (byte / weight_of_bit(x % 8)) % 2 == 1;
        pixels.push(
            if bit == white_is_zero {
                Bilevel::Black
            } else {
                Bilevel::White
            },
        );
        k += 1;
    }
    assert(pixels@ =~= pixels_of(samples@, width as int, height as int, white_is_zero));
    assert(width * height > 0) by (nonlinear_arith)
        requires
            0 < width,
            0 < height,
    ;
    match Image::try_new(pixels, width, height) {
        Ok(image) => Ok(image),
        Err(_) => Err(DecodeError::CantReadImage),
    }
}

} // verus!
