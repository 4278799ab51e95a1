//! Reading images of colors of a palette, as images of red, green and
//! blue.

use crate::colors::RGB;
use crate::decode::grayscale_4bit::{half_at, row_bytes};
use crate::decode::tiff_field::{
    find_required, read_single_short, required_data, single_short,
};
use crate::decode::{lemma_cell, samples_of, DecodeError, ImageInfo, InfoView};
use crate::ifd::{fields_of, Entry, Field, FieldData, Tag, Values};
use crate::{Image, ImageView};
use vstd::prelude::*;

verus! {

/// The bits of a palette index that a directory names, which it must: 4
/// or 8, else `InvalidTagValues`.
pub open spec fn index_bits(fields: Seq<Field>) -> Result<u16, DecodeError> {
    match required_data(fields, Tag::BitsPerSample) {
        Err(e) => Err(e),
        Ok(data) => match single_short(data) {
            Err(e) => Err(e),
            Ok(bits) => if bits == 4 || bits == 8 {
                Ok(bits)
            } else {
                Err(DecodeError::InvalidTagValues)
            },
        },
    }
}

/// The number of colors of a palette for indices of `bits` bits.
pub open spec fn palette_places(bits: u16) -> int {
    if bits == 4 {
        16
    } else {
        256
    }
}

/// Every element is at most 255.
pub open spec fn all_bytes(shorts: Seq<u16>) -> bool {
    forall|i: int| 0 <= i < shorts.len() ==> shorts[i] <= 255
}

/// The palette of a directory, which it must have: the red parts of 16 or
/// 256 colors, then the green parts, then the blue parts.
/// `InvalidTagValues` if the field holds no shorts or one above 255,
/// `InvalidTagValueCount` if it does not hold three for each color.
pub open spec fn palette_of(fields: Seq<Field>, bits: u16) -> Result<Seq<u16>, DecodeError> {
    match required_data(fields, Tag::ColorMap) {
        Err(e) => Err(e),
        Ok(FieldData::Shorts(map)) => if map.len() != 3 * palette_places(bits) {
            Err(DecodeError::InvalidTagValueCount)
        } else if !all_bytes(map) {
            Err(DecodeError::InvalidTagValues)
        } else {
            Ok(map)
        },
        Ok(_) => Err(DecodeError::InvalidTagValues),
    }
}

/// The color at `inx` of a palette of `places` colors.
pub open spec fn color_at(map: Seq<u16>, places: int, inx: int) -> RGB {
    RGB { r: map[inx] as u8, g: map[places + inx] as u8, b: map[2 * places + inx] as u8 }
}

/// The palette index of pixel `k`: a byte of its own, or with 4 bits half
/// a byte, each row beginning a byte.
pub open spec fn index_at(samples: Seq<u8>, width: int, bits: u16, k: int) -> u8 {
    if bits == 8 {
        samples[k]
    } else {
        half_at(samples, (k / width) * row_bytes(width), k % width)
    }
}

/// The number of samples of an image of palette indices.
pub open spec fn samples_len(width: int, height: int, bits: u16) -> int {
    if bits == 8 {
        width * height
    } else {
        height * row_bytes(width)
    }
}

/// The pixels that the samples stand for: for each pixel the color of the
/// palette at its index.
pub open spec fn pixels_of(
    samples: Seq<u8>,
    map: Seq<u16>,
    width: int,
    height: int,
    bits: u16,
) -> Seq<RGB> {
    Seq::new(
        (width * height) as nat,
        |k: int| color_at(map, palette_places(bits), index_at(samples, width, bits, k) as int),
    )
}

/// The image that the samples hold; `CantReadImage` if the image would
/// have no pixels or too many for this machine, or the samples are not
/// exactly its rows.
pub open spec fn image_from(
    samples: Seq<u8>,
    map: Seq<u16>,
    width: int,
    height: int,
    bits: u16,
) -> Result<ImageView<RGB>, DecodeError> {
    if width <= 0 || height <= 0 || width * height > usize::MAX || samples.len() != samples_len(
        width,
        height,
        bits,
    ) {
        Err(DecodeError::CantReadImage)
    } else {
        Ok(
            ImageView {
                pixels: pixels_of(samples, map, width, height, bits),
                width: width as nat,
                height: height as nat,
            },
        )
    }
}

/// The image that the strips of a directory of a palette image hold, with
/// the colors of its palette.
pub open spec fn image_of(bytes: Seq<u8>, fields: Seq<Field>, info: InfoView) -> Result<
    ImageView<RGB>,
    DecodeError,
> {
    match index_bits(fields) {
        Err(e) => Err(e),
        Ok(bits) => match palette_of(fields, bits) {
            Err(e) => Err(e),
            Ok(map) => match samples_of(bytes, info) {
                Err(e) => Err(e),
                Ok(samples) => image_from(samples, map, info.width, info.height, bits),
            },
        },
    }
}

/// Reads an image of colors of a palette.
#[verifier::loop_isolation(false)]
pub fn decode_image(bytes: &[u8], fields: &[Entry], info: &ImageInfo) -> (r: Result<
    Image<RGB>,
    DecodeError,
>)
    ensures
        match image_of(bytes@, fields_of(fields@), info@) {
            Ok(image) => r matches Ok(found) && found@ == image,
            Err(e) => r matches Err(f) && f == e,
        },
{
    let bits = match find_required(fields, Tag::BitsPerSample) {
        Ok(values) => match read_single_short(values) {
            Ok(bits) => bits,
            Err(e) => {
                return Err(e);
            },
        },
        Err(e) => {
            return Err(e);
        },
    };
    if bits != 4 && bits != 8 {
        return Err(DecodeError::InvalidTagValues);
    }
    let places: usize = if bits == 4 {
        16
    } else {
        256
    };
    let color_map = match find_required(fields, Tag::ColorMap) {
        Ok(values) => values,
        Err(e) => {
            return Err(e);
        },
    };
    let map: &Vec<u16> = match color_map {
        Values::Shorts(map) => map,
        _ => {
            return Err(DecodeError::InvalidTagValues);
        },
    };
    if map.len() != 3 * places {
        return Err(DecodeError::InvalidTagValueCount);
    }
    let mut i: usize = 0;
    while i < map.len()
        invariant
            i <= map@.len(),
            forall|k: int| 0 <= k < i ==> map@[k] <= 255,
        decreases map.len() - i,
    {
        if map[i] > 255 {
            assert(!all_bytes(map@));
            return Err(DecodeError::InvalidTagValues);
        }
        i += 1;
    }
    assert(all_bytes(map@));
    let samples = match info.read_strips(bytes) {
        Ok(samples) => samples,
        Err(e) => {
            return Err(e);
        },
    };
    let width = info.width();
    let height = info.height();
    let len: usize = samples.len();
    let count: usize = match width.checked_mul(height) {
        Some(count) => count,
        None => {
            return Err(DecodeError::CantReadImage);
        },
    };
    if width == 0 || height == 0 {
        return Err(DecodeError::CantReadImage);
    }
    let row_len: usize = width / 2 + width % 2;
    let fits = if bits == 8 {
        samples.len() == count
    } else {
        match height.checked_mul(row_len) {
            Some(len) => len == samples.len(),
            None => false,
        }
    };
    if !fits {
        return Err(DecodeError::CantReadImage);
    }
    let mut pixels: Vec<RGB> = Vec::new();
    let mut k: usize = 0;
    while k < count
        invariant
            k <= count,
            count == width * height,
            len == samples@.len(),
            0 < width,
            0 < height,
            bits == 4 || bits == 8,
            places == palette_places(bits),
            map@.len() == 3 * places,
            all_bytes(map@),
            row_len == row_bytes(width as int),
            samples@.len() == samples_len(width as int, height as int, bits),
            pixels@.len() == k,
            forall|i: int|
                0 <= i < k ==> pixels@[i] == pixels_of(
                    samples@,
                    map@,
                    width as int,
                    height as int,
                    bits,
                )[i],
        decreases count - k,
    {
        proof {
            lemma_cell(width as int, height as int, row_len as int, k as int);
        }
        let inx: usize = if bits == 8 {
            samples[k] as usize
        } else {
            let y: usize = k / width;
            let x: usize = k % width;
            let byte = samples[y * row_len + x / 2];
            if x % 2 == 0 {
                (byte / 16) as usize
            } else {
                (byte % 16) as usize
            }
        };
        pixels.push(
            RGB::new(map[inx] as u8, map[places + inx] as u8, map[2 * places + inx] as u8),
        );
        k += 1;
    }
    assert(pixels@ =~= pixels_of(samples@, map@, width as int, height as int, bits));
    assert(width * height > 0) by (nonlinear_arith)
        requires
            0 < width,
            0 < height,
    ;
    match Image::try_new(pixels, width, height) {
        Ok(image) => Ok(image),
        Err(_) => Err(DecodeError::CantReadImage),
    }
}

} // verus!
