//! Reading images of red, green and blue.

use crate::colors::RGB;
use crate::decode::tiff_field::{
    field_data, find, find_required, read_single_short, required_data, single_short,
};
use crate::decode::{samples_of, DecodeError, ImageInfo, InfoView};
use crate::ifd::{fields_of, Entry, Field, FieldData, Tag, Values};
use crate::{Image, ImageView};
use vstd::prelude::*;

verus! {

/// The pixels that the samples stand for: red, green and blue of each.
pub open spec fn pixels_of(samples: Seq<u8>) -> Seq<RGB> {
    Seq::new(
        samples.len() / 3,
        |k: int| RGB { r: samples[3 * k], g: samples[3 * k + 1], b: samples[3 * k + 2] },
    )
}

/// What a directory must say of the samples of a pixel: that there are
/// three (`MissingRequiredField` if it does not say how many), and, if it
/// gives their bits, that each has eight; else `InvalidTagValues`.
pub open spec fn samples_checked(fields: Seq<Field>) -> Result<(), DecodeError> {
    match required_data(fields, Tag::SamplesPerPixel) {
        Err(e) => Err(e),
        Ok(data) => match single_short(data) {
            Err(e) => Err(e),
            Ok(n) => if n != 3 {
                Err(DecodeError::InvalidTagValues)
            } else {
                match field_data(fields, Tag::BitsPerSample) {
                    None => Ok(()),
                    Some(FieldData::Shorts(bits)) => if bits == seq![8u16, 8u16, 8u16] {
                        Ok(())
                    } else {
                        Err(DecodeError::InvalidTagValues)
                    },
                    Some(_) => Err(DecodeError::InvalidTagValues),
                }
            },
        },
    }
}

/// The image that the samples hold; `CantReadImage` if the image would
/// have no pixels, or there are not three samples for each pixel.
pub open spec fn image_from(samples: Seq<u8>, width: int, height: int) -> Result<
    ImageView<RGB>,
    DecodeError,
> {
    if width <= 0 || height <= 0 || samples.len() != 3 * (width * height) {
        Err(DecodeError::CantReadImage)
    } else {
        Ok(ImageView { pixels: pixels_of(samples), width: width as nat, height: height as nat })
    }
}

/// The image of red, green and blue that the strips of a directory hold.
pub open spec fn image_of(bytes: Seq<u8>, fields: Seq<Field>, info: InfoView) -> Result<
    ImageView<RGB>,
    DecodeError,
> {
    match samples_checked(fields) {
        Err(e) => Err(e),
        Ok(_) => match samples_of(bytes, info) {
            Err(e) => Err(e),
            Ok(samples) => image_from(samples, info.width, info.height),
        },
    }
}

/// Reads an image of red, green and blue.
pub fn decode_image(bytes: &[u8], fields: &[Entry], info: &ImageInfo) -> (r: Result<
    Image<RGB>,
    DecodeError,
>)
    ensures
        match image_of(bytes@, fields_of(fields@), info@) {
            Ok(image) => r matches Ok(found) && found@ == image,
            Err(e) => r matches Err(f) && f == e,
        },
{
    let samples_per_pixel = match find_required(fields, Tag::SamplesPerPixel) {
        Ok(values) => match read_single_short(values) {
            Ok(n) => n,
            Err(e) => {
                return Err(e);
            },
        },
        Err(e) => {
            return Err(e);
        },
    };
    if samples_per_pixel != 3 {
        return Err(DecodeError::InvalidTagValues);
    }
    match find(fields, Tag::BitsPerSample) {
        None => {},
        Some(Values::Shorts(bits)) => {
            if bits.len() != 3 || bits[0] != 8 || bits[1] != 8 || bits[2] != 8 {
                return Err(DecodeError::InvalidTagValues);
            }
            assert(bits@ =~= seq![8u16, 8u16, 8u16]);
        },
        Some(_) => {
            return Err(DecodeError::InvalidTagValues);
        },
    }
    let samples = match info.read_strips(bytes) {
        Ok(samples) => samples,
        Err(e) => {
            return Err(e);
        },
    };
    if samples.len() % 3 != 0 {
        return Err(DecodeError::CantReadImage);
    }
    let len: usize = samples.len();
    let count: usize = len / 3;
    let mut pixels: Vec<RGB> = Vec::new();
    let mut k: usize = 0;
    while k < count
        invariant
            k <= count,
            len == samples@.len(),
            samples@.len() == 3 * count,
            pixels@.len() == k,
            forall|i: int|
                0 <= i < k ==> pixels@[i] == (RGB {
                    r: samples@[3 * i],
                    g: samples@[3 * i + 1],
                    b: samples@[3 * i + 2],
                }),
        decreases count - k,
    {
        pixels.push(RGB::new(samples[3 * k], samples[3 * k + 1], samples[3 * k + 2]));
        k += 1;
    }
    assert(pixels@ =~= pixels_of(samples@));
    match Image::try_new(pixels, info.width(), info.height()) {
        Ok(image) => Ok(image),
        Err(_) => {
            assert(info@.width * info@.height == 0 ==> info@.width == 0 || info@.height == 0)
                by (nonlinear_arith);
            Err(DecodeError::CantReadImage)
        },
    }
}

} // verus!
