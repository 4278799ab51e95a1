//! An image that is written to a file and read back is the same image.

use crate::colors::{
    colormap_shorts, lemma_shade_of_value, palette_bits, Bilevel, Grayscale4Bit, Grayscale8Bit,
    PaletteColor, RGB,
};
use crate::compression::Compression;
use crate::decode::tiff_field::single_short;
use crate::decode::{
    bilevel, bw_bits_per_sample, bw_image, decoded, grayscale_4bit, grayscale_8bit, lemma_cell,
    palette_color, rgb, DecodeError, Decoded, DecodedView,
};
use crate::encode::bilevel::{bilevel_bits, bilevel_layout};
use crate::encode::grayscale_4bit::{gray4_halves, gray4_layout};
use crate::encode::grayscale_8bit::gray8_layout;
use crate::encode::image_header::header_bytes;
use crate::encode::palette_color::{palette_layout, palette_samples};
use crate::encode::photo_interp::{
    bilevel_sample, gray4_sample, gray8_sample, PhotometricInterpretation,
};
use crate::encode::rgb::rgb_layout;
use crate::encode::{encoded_file, layout_fields, layout_fits, strip_bytes};
use crate::ifd::{tags, FieldData};
use crate::packers::{
    all_half_bytes, bit_of_byte, byte_of_halves, lemma_bit_of_packed, packed_bits, packed_halves,
    rows_of_bits, rows_of_halves,
};
use crate::round_trip::{
    lemma_file_parts, lemma_file_read_back, lemma_layout_field_data, lemma_layout_info,
    lemma_strip_read_back, layout_info,
};
use crate::{lemma_row_in_bounds, ImageView};
use vstd::prelude::*;

verus! {

// ---------------------------------------------------------------------------
// Rows
// ---------------------------------------------------------------------------

/// Rows of bits that are packed each by itself take a whole number of
/// bytes each.
pub proof fn lemma_rows_of_bits_len(bits: Seq<bool>, width: int, rows: int)
    requires
        0 <= width,
        0 <= rows,
        width * rows <= bits.len(),
    ensures
        rows_of_bits(bits, width, rows).len() == rows * bilevel::row_bytes(width),
    decreases rows,
{
    if rows > 0 {
        lemma_row_in_bounds(width, rows, rows - 1);
        assert(width * (rows - 1) <= width * rows) by (nonlinear_arith)
            requires
                0 <= width,
                0 <= rows,
        ;
        lemma_rows_of_bits_len(bits, width, rows - 1);
        assert(rows * bilevel::row_bytes(width) == (rows - 1) * bilevel::row_bytes(width)
            + bilevel::row_bytes(width)) by (nonlinear_arith);
        assert(rows * width == (rows - 1) * width + width) by (nonlinear_arith);
    }
}

/// Bit `x` of row `y` is found again in the packed rows.
pub proof fn lemma_rows_of_bits_at(bits: Seq<bool>, width: int, rows: int, y: int, x: int)
    requires
        0 < width,
        0 <= y < rows,
        0 <= x < width,
        width * rows <= bits.len(),
    ensures
        0 <= y * bilevel::row_bytes(width) + x / 8 < rows_of_bits(bits, width, rows).len(),
        0 <= y * width + x < bits.len(),
        bit_of_byte(
            rows_of_bits(bits, width, rows)[y * bilevel::row_bytes(width) + x / 8],
            x % 8,
        ) == bits[y * width + x],
    decreases rows,
{
    let row_len = bilevel::row_bytes(width);
    let all = rows_of_bits(bits, width, rows);
    let before = rows_of_bits(bits, width, rows - 1);
    let row = bits.subrange((rows - 1) * width, rows * width);
    lemma_row_in_bounds(width, rows, y);
    lemma_row_in_bounds(width, rows, rows - 1);
    lemma_row_in_bounds(row_len, rows, y);
    assert(width * (rows - 1) <= width * rows) by (nonlinear_arith)
        requires
            0 <= width,
            0 <= rows,
    ;
    lemma_rows_of_bits_len(bits, width, rows);
    lemma_rows_of_bits_len(bits, width, rows - 1);
    assert(rows * width == (rows - 1) * width + width) by (nonlinear_arith);
    assert(rows * row_len == (rows - 1) * row_len + row_len) by (nonlinear_arith);
    assert(all == before + packed_bits(row));
    if y == rows - 1 {
        lemma_bit_of_packed(row, x / 8, x % 8);
        assert(all[y * row_len + x / 8] == packed_bits(row)[x / 8]);
        assert(8 * (x / 8) + x % 8 == x);
        assert(row[x] == bits[(rows - 1) * width + x]);
    } else {
        lemma_rows_of_bits_at(bits, width, rows - 1, y, x);
        assert(all[y * row_len + x / 8] == before[y * row_len + x / 8]);
    }
}

/// Rows of half bytes that are packed each by itself take a whole number
/// of bytes each.
pub proof fn lemma_rows_of_halves_len(halves: Seq<u8>, width: int, rows: int)
    requires
        0 <= width,
        0 <= rows,
        width * rows <= halves.len(),
    ensures
        rows_of_halves(halves, width, rows).len() == rows * grayscale_4bit::row_bytes(width),
    decreases rows,
{
    if rows > 0 {
        lemma_row_in_bounds(width, rows, rows - 1);
        assert(width * (rows - 1) <= width * rows) by (nonlinear_arith)
            requires
                0 <= width,
                0 <= rows,
        ;
        lemma_rows_of_halves_len(halves, width, rows - 1);
        assert(rows * grayscale_4bit::row_bytes(width) == (rows - 1) * grayscale_4bit::row_bytes(
            width,
        ) + grayscale_4bit::row_bytes(width)) by (nonlinear_arith);
        assert(rows * width == (rows - 1) * width + width) by (nonlinear_arith);
    }
}

/// Half byte `x` of row `y` is found again in the packed rows.
pub proof fn lemma_rows_of_halves_at(halves: Seq<u8>, width: int, rows: int, y: int, x: int)
    requires
        0 < width,
        0 <= y < rows,
        0 <= x < width,
        width * rows <= halves.len(),
        all_half_bytes(halves),
    ensures
        0 <= y * grayscale_4bit::row_bytes(width) + x / 2 < rows_of_halves(
            halves,
            width,
            rows,
        ).len(),
        0 <= y * width + x < halves.len(),
        grayscale_4bit::half_at(
            rows_of_halves(halves, width, rows),
            y * grayscale_4bit::row_bytes(width),
            x,
        ) == halves[y * width + x],
    decreases rows,
{
    let row_len = grayscale_4bit::row_bytes(width);
    let all = rows_of_halves(halves, width, rows);
    let before = rows_of_halves(halves, width, rows - 1);
    let row = halves.subrange((rows - 1) * width, rows * width);
    lemma_row_in_bounds(width, rows, y);
    lemma_row_in_bounds(width, rows, rows - 1);
    lemma_row_in_bounds(row_len, rows, y);
    assert(width * (rows - 1) <= width * rows) by (nonlinear_arith)
        requires
            0 <= width,
            0 <= rows,
    ;
    lemma_rows_of_halves_len(halves, width, rows);
    lemma_rows_of_halves_len(halves, width, rows - 1);
    assert(rows * width == (rows - 1) * width + width) by (nonlinear_arith);
    assert(rows * row_len == (rows - 1) * row_len + row_len) by (nonlinear_arith);
    assert(all == before + packed_halves(row));
    if y == rows - 1 {
        let i = x / 2;
        assert(all[y * row_len + i] == packed_halves(row)[i]);
        assert(packed_halves(row)[i] == byte_of_halves(row, i));
        assert(row[2 * i] == halves[(rows - 1) * width + 2 * i]);
        assert(row[2 * i] <= 15);
        if 2 * i + 1 < row.len() {
            assert(row[2 * i + 1] == halves[(rows - 1) * width + 2 * i + 1]);
            assert(row[2 * i + 1] <= 15);
        }
    } else {
        lemma_rows_of_halves_at(halves, width, rows - 1, y, x);
        assert(all[y * row_len + x / 2] == before[y * row_len + x / 2]);
    }
}

// ---------------------------------------------------------------------------
// Images
// ---------------------------------------------------------------------------

/// A file of one image that can be written has at least one pixel, and no
/// more than this machine can hold.
pub open spec fn image_ok<C>(image: ImageView<C>) -> bool {
    &&& image.wf()
    &&& image.pixels.len() <= usize::MAX
}

/// An image of black and white pixels that is written to a file and read
/// back is the same image, in either byte order, with any compression
/// and with black or white as zero.
pub proof fn lemma_bilevel_round_trip<C: Compression<Bilevel>, P: PhotometricInterpretation<Bilevel>>(
    image: ImageView<Bilevel>,
    image_compressor: C,
    photo_interp: P,
    little: bool,
)
    requires
        image_ok(image),
        photo_interp.spec_tag() == tags::PhotometricInterpretation::BlackIsZero
            || photo_interp.spec_tag() == tags::PhotometricInterpretation::WhiteIsZero,
        forall|pixel: Bilevel| #[trigger]
            photo_interp.sample(pixel) == bilevel_sample(photo_interp.spec_tag(), pixel),
        layout_fits(
            little,
            bilevel_layout(image, image_compressor, photo_interp),
            header_bytes(little, 8),
        ),
    ensures
        decoded(encoded_file(little, bilevel_layout(image, image_compressor, photo_interp)))
            == Ok::<Decoded, DecodeError>(
            Decoded { images: seq![DecodedView::BilevelImage(image)], errors: Seq::empty() },
        ),
{
    let l = bilevel_layout(image, image_compressor, photo_interp);
    let file = encoded_file(little, l);
    let len = strip_bytes(l).len() as int;
    let fields = layout_fields(l, 8, len);
    let info = layout_info(l, 8, len);
    let width = image.width as int;
    let height = image.height as int;
    let white_is_zero = photo_interp.spec_tag() == tags::PhotometricInterpretation::WhiteIsZero;
    let bits = bilevel_bits(photo_interp, image.pixels);
    lemma_file_parts(little, l);
    lemma_layout_info(l, 8, len);
    lemma_layout_field_data(l, 8, len);
    lemma_strip_read_back(file, l);
    assert(width * height == height * width) by (nonlinear_arith);
    lemma_rows_of_bits_len(bits, width, height);
    let read = bilevel::pixels_of(l.samples, width, height, white_is_zero);
    assert forall|k: int| 0 <= k < image.pixels.len() implies read[k] == image.pixels[k] by {
        lemma_cell(width, height, bilevel::row_bytes(width), k);
        lemma_rows_of_bits_at(bits, width, height, k / width, k % width);
        assert(bits[k] == (photo_interp.sample(image.pixels[k]) != 0));
    }
    assert(read =~= image.pixels);
    assert(bw_bits_per_sample(fields) == Ok::<u16, DecodeError>(1u16));
    assert(bilevel::image_of(file, info, white_is_zero) == Ok::<ImageView<Bilevel>, DecodeError>(
        image,
    ));
    assert(bw_image(file, fields, info, white_is_zero) == Ok::<DecodedView, DecodeError>(
        DecodedView::BilevelImage(image),
    ));
    lemma_file_read_back(little, l, DecodedView::BilevelImage(image));
}

/// Every pixel has a shade of at most 15.
pub open spec fn shades_in_range(pixels: Seq<Grayscale4Bit>) -> bool {
    forall|i: int| 0 <= i < pixels.len() ==> (#[trigger] pixels[i]).spec_value() <= 15
}

/// The shades that are read from the packed samples of an image of 16
/// shades are the shades of the image.
pub proof fn lemma_gray4_pixels<P: PhotometricInterpretation<Grayscale4Bit>>(
    image: ImageView<Grayscale4Bit>,
    photo_interp: P,
)
    requires
        image_ok(image),
        shades_in_range(image.pixels),
        photo_interp.spec_tag() == tags::PhotometricInterpretation::BlackIsZero
            || photo_interp.spec_tag() == tags::PhotometricInterpretation::WhiteIsZero,
        forall|pixel: Grayscale4Bit| #[trigger]
            photo_interp.sample(pixel) == gray4_sample(photo_interp.spec_tag(), pixel),
    ensures
        grayscale_4bit::image_from(
            rows_of_halves(
                gray4_halves(photo_interp, image.pixels),
                image.width as int,
                image.height as int,
            ),
            image.width as int,
            image.height as int,
            photo_interp.spec_tag() == tags::PhotometricInterpretation::WhiteIsZero,
        ) == Ok::<ImageView<Grayscale4Bit>, DecodeError>(image),
{
    let width = image.width as int;
    let height = image.height as int;
    let white_is_zero = photo_interp.spec_tag() == tags::PhotometricInterpretation::WhiteIsZero;
    let halves = gray4_halves(photo_interp, image.pixels);
    let samples = rows_of_halves(halves, width, height);
    assert(width * height == height * width) by (nonlinear_arith);
    assert(width > 0 && height > 0) by (nonlinear_arith)
        requires
            width * height > 0,
            width >= 0,
            height >= 0,
    ;
    lemma_rows_of_halves_len(halves, width, height);
    assert(all_half_bytes(halves)) by {
        assert forall|i: int| 0 <= i < halves.len() implies halves[i] <= 15 by {}
    }
    let read = grayscale_4bit::pixels_of(samples, width, height, white_is_zero);
    assert forall|k: int| 0 <= k < image.pixels.len() implies read[k] == image.pixels[k] by {
        lemma_cell(width, height, grayscale_4bit::row_bytes(width), k);
        lemma_rows_of_halves_at(halves, width, height, k / width, k % width);
        lemma_gray4_pixel(image.pixels[k], photo_interp);
    }
    assert(read =~= image.pixels);
}

/// The shade that is read from the sample of a shade is that shade.
proof fn lemma_gray4_pixel<P: PhotometricInterpretation<Grayscale4Bit>>(
    pixel: Grayscale4Bit,
    photo_interp: P,
)
    requires
        pixel.spec_value() <= 15,
        photo_interp.spec_tag() == tags::PhotometricInterpretation::BlackIsZero
            || photo_interp.spec_tag() == tags::PhotometricInterpretation::WhiteIsZero,
        photo_interp.sample(pixel) == gray4_sample(photo_interp.spec_tag(), pixel),
    ensures
        grayscale_4bit::shade_of(
            photo_interp.spec_tag() == tags::PhotometricInterpretation::WhiteIsZero,
            (photo_interp.sample(pixel) % 16) as u8,
        ) == pixel,
{
    lemma_shade_of_value(pixel, 0);
}

/// An image of 16 shades of gray that is written to a file and read back
/// is the same image, in either byte order, with any compression and
/// with black or white as zero.
pub proof fn lemma_gray4_round_trip<
    C: Compression<Grayscale4Bit>,
    P: PhotometricInterpretation<Grayscale4Bit>,
>(image: ImageView<Grayscale4Bit>, image_compressor: C, photo_interp: P, little: bool)
    requires
        image_ok(image),
        shades_in_range(image.pixels),
        photo_interp.spec_tag() == tags::PhotometricInterpretation::BlackIsZero
            || photo_interp.spec_tag() == tags::PhotometricInterpretation::WhiteIsZero,
        forall|pixel: Grayscale4Bit| #[trigger]
            photo_interp.sample(pixel) == gray4_sample(photo_interp.spec_tag(), pixel),
        layout_fits(
            little,
            gray4_layout(image, image_compressor, photo_interp),
            header_bytes(little, 8),
        ),
    ensures
        decoded(encoded_file(little, gray4_layout(image, image_compressor, photo_interp)))
            == Ok::<Decoded, DecodeError>(
            Decoded { images: seq![DecodedView::Grayscale4BitImage(image)], errors: Seq::empty() },
        ),
{
    let l = gray4_layout(image, image_compressor, photo_interp);
    let file = encoded_file(little, l);
    let len = strip_bytes(l).len() as int;
    let fields = layout_fields(l, 8, len);
    let info = layout_info(l, 8, len);
    let white_is_zero = photo_interp.spec_tag() == tags::PhotometricInterpretation::WhiteIsZero;
    lemma_file_parts(little, l);
    lemma_layout_info(l, 8, len);
    lemma_layout_field_data(l, 8, len);
    lemma_strip_read_back(file, l);
    lemma_gray4_pixels(image, photo_interp);
    assert(single_short(FieldData::Shorts(seq![4u16])) == Ok::<u16, DecodeError>(4u16));
    assert(bw_bits_per_sample(fields) == Ok::<u16, DecodeError>(4u16));
    assert(grayscale_4bit::image_of(file, info, white_is_zero) == Ok::<
        ImageView<Grayscale4Bit>,
        DecodeError,
    >(image));
    assert(bw_image(file, fields, info, white_is_zero) == Ok::<DecodedView, DecodeError>(
        DecodedView::Grayscale4BitImage(image),
    ));
    lemma_file_read_back(little, l, DecodedView::Grayscale4BitImage(image));
}

/// An image of 256 shades of gray that is written to a file and read back
/// is the same image, in either byte order, with any compression and
/// with black or white as zero.
pub proof fn lemma_gray8_round_trip<
    C: Compression<Grayscale8Bit>,
    P: PhotometricInterpretation<Grayscale8Bit>,
>(image: ImageView<Grayscale8Bit>, image_compressor: C, photo_interp: P, little: bool)
    requires
        image_ok(image),
        photo_interp.spec_tag() == tags::PhotometricInterpretation::BlackIsZero
            || photo_interp.spec_tag() == tags::PhotometricInterpretation::WhiteIsZero,
        forall|pixel: Grayscale8Bit| #[trigger]
            photo_interp.sample(pixel) == gray8_sample(photo_interp.spec_tag(), pixel),
        layout_fits(
            little,
            gray8_layout(image, image_compressor, photo_interp),
            header_bytes(little, 8),
        ),
    ensures
        decoded(encoded_file(little, gray8_layout(image, image_compressor, photo_interp)))
            == Ok::<Decoded, DecodeError>(
            Decoded { images: seq![DecodedView::Grayscale8BitImage(image)], errors: Seq::empty() },
        ),
{
    let l = gray8_layout(image, image_compressor, photo_interp);
    let file = encoded_file(little, l);
    let len = strip_bytes(l).len() as int;
    let fields = layout_fields(l, 8, len);
    let info = layout_info(l, 8, len);
    let white_is_zero = photo_interp.spec_tag() == tags::PhotometricInterpretation::WhiteIsZero;
    lemma_file_parts(little, l);
    lemma_layout_info(l, 8, len);
    lemma_layout_field_data(l, 8, len);
    lemma_strip_read_back(file, l);
    let read = grayscale_8bit::pixels_of(l.samples, white_is_zero);
    assert forall|k: int| 0 <= k < image.pixels.len() implies read[k] == image.pixels[k] by {
        let pixel = image.pixels[k];
        assert(l.samples[k] == photo_interp.sample(pixel));
    }
    assert(read =~= image.pixels);
    assert(single_short(FieldData::Shorts(seq![8u16])) == Ok::<u16, DecodeError>(8u16));
    assert(bw_bits_per_sample(fields) == Ok::<u16, DecodeError>(8u16));
    assert(grayscale_8bit::image_of(file, info, white_is_zero) == Ok::<
        ImageView<Grayscale8Bit>,
        DecodeError,
    >(image));
    assert(bw_image(file, fields, info, white_is_zero) == Ok::<DecodedView, DecodeError>(
        DecodedView::Grayscale8BitImage(image),
    ));
    lemma_file_read_back(little, l, DecodedView::Grayscale8BitImage(image));
}

/// An image of red, green and blue that is written to a file and read
/// back is the same image, in either byte order and with any compression.
pub proof fn lemma_rgb_round_trip<C: Compression<RGB>>(
    image: ImageView<RGB>,
    image_compressor: C,
    little: bool,
)
    requires
        image_ok(image),
        layout_fits(little, rgb_layout(image, image_compressor), header_bytes(little, 8)),
    ensures
        decoded(encoded_file(little, rgb_layout(image, image_compressor))) == Ok::<
            Decoded,
            DecodeError,
        >(Decoded { images: seq![DecodedView::RGBImage(image)], errors: Seq::empty() }),
{
    let l = rgb_layout(image, image_compressor);
    let file = encoded_file(little, l);
    let len = strip_bytes(l).len() as int;
    let fields = layout_fields(l, 8, len);
    let info = layout_info(l, 8, len);
    lemma_file_parts(little, l);
    lemma_layout_info(l, 8, len);
    lemma_layout_field_data(l, 8, len);
    lemma_strip_read_back(file, l);
    let read = rgb::pixels_of(l.samples);
    assert(read =~= image.pixels);
    assert(single_short(FieldData::Shorts(seq![3u16])) == Ok::<u16, DecodeError>(3u16));
    assert(rgb::samples_checked(fields) == Ok::<(), DecodeError>(()));
    assert(rgb::image_of(file, fields, info) == Ok::<ImageView<RGB>, DecodeError>(image));
    lemma_file_read_back(little, l, DecodedView::RGBImage(image));
}

/// All pixels have the same palette, which has at most 256 colors, and
/// each is one of its colors.
pub open spec fn one_palette(pixels: Seq<PaletteColor>) -> bool {
    &&& pixels.len() > 0
    &&& pixels[0].map()@.len() <= 256
    &&& forall|i: int|
        0 <= i < pixels.len() ==> (#[trigger] pixels[i]).map() == pixels[0].map()
            && pixels[i].inx() < pixels[0].map()@.len()
}

/// The colors of the pixels as red, green and blue.
pub open spec fn palette_colors(pixels: Seq<PaletteColor>) -> Seq<RGB> {
    Seq::new(pixels.len(), |i: int| pixels[i].rgb())
}

/// The colors that are read from the samples of an image of colors of a
/// palette, and from the palette as a directory holds it, are the colors
/// of the image.
pub proof fn lemma_palette_pixels(image: ImageView<PaletteColor>)
    requires
        image_ok(image),
        one_palette(image.pixels),
    ensures
        palette_color::image_from(
            palette_samples(image, palette_bits(image.pixels[0].map()@.len() as int)),
            colormap_shorts(image.pixels[0].map()@),
            image.width as int,
            image.height as int,
            palette_bits(image.pixels[0].map()@.len() as int),
        ) == Ok::<ImageView<RGB>, DecodeError>(
            ImageView {
                pixels: palette_colors(image.pixels),
                width: image.width,
                height: image.height,
            },
        ),
        palette_color::all_bytes(colormap_shorts(image.pixels[0].map()@)),
        colormap_shorts(image.pixels[0].map()@).len() == 3 * palette_color::palette_places(
            palette_bits(image.pixels[0].map()@.len() as int),
        ),
{
    let width = image.width as int;
    let height = image.height as int;
    let colors = image.pixels[0].map()@;
    let bits = palette_bits(colors.len() as int);
    let map = colormap_shorts(colors);
    let places = palette_color::palette_places(bits);
    let samples = palette_samples(image, bits);
    assert(width * height == height * width) by (nonlinear_arith);
    assert(width > 0 && height > 0) by (nonlinear_arith)
        requires
            width * height > 0,
            width >= 0,
            height >= 0,
    ;
    let halves = Seq::new(image.pixels.len(), |i: int| (image.pixels[i].inx() % 16) as u8);
    if bits != 8 {
        lemma_rows_of_halves_len(halves, width, height);
        assert(all_half_bytes(halves));
    }
    let read = palette_color::pixels_of(samples, map, width, height, bits);
    assert forall|k: int| 0 <= k < image.pixels.len() implies read[k]
        == image.pixels[k].rgb() by {
        let pixel = image.pixels[k];
        assert(pixel.map() == image.pixels[0].map());
        let inx = pixel.inx() as int;
        assert(inx < colors.len());
        if bits == 8 {
            assert(samples[k] == pixel.inx());
        } else {
            lemma_cell(width, height, grayscale_4bit::row_bytes(width), k);
            lemma_rows_of_halves_at(halves, width, height, k / width, k % width);
            assert(halves[k] == pixel.inx());
        }
        assert(palette_color::index_at(samples, width, bits, k) == pixel.inx());
        lemma_color_in_map(colors, inx);
    }
    assert(read =~= palette_colors(image.pixels));
    assert(palette_color::all_bytes(map)) by {
        assert forall|i: int| 0 <= i < map.len() implies map[i] <= 255 by {}
    }
}

/// A color of a palette is found at its place in the palette as a
/// directory holds it.
proof fn lemma_color_in_map(colors: Seq<RGB>, inx: int)
    requires
        0 <= inx < colors.len() <= 256,
    ensures
        palette_color::color_at(
            colormap_shorts(colors),
            palette_color::palette_places(palette_bits(colors.len() as int)),
            inx,
        ) == colors[inx],
{
    let map = colormap_shorts(colors);
    let places = palette_color::palette_places(palette_bits(colors.len() as int));
    assert(map[inx] == colors[inx].r as u16);
    assert(map[places + inx] == colors[inx].g as u16);
    assert(map[2 * places + inx] == colors[inx].b as u16);
}

/// An image of colors of a palette that is written to a file and read
/// back is the image of the same colors as red, green and blue, in either
/// byte order and with any compression.
pub proof fn lemma_palette_round_trip<'a, C: Compression<PaletteColor<'a>>>(
    image: ImageView<PaletteColor<'a>>,
    image_compressor: C,
    little: bool,
)
    requires
        image_ok(image),
        one_palette(image.pixels),
        layout_fits(little, palette_layout(image, image_compressor), header_bytes(little, 8)),
    ensures
        decoded(encoded_file(little, palette_layout(image, image_compressor))) == Ok::<
            Decoded,
            DecodeError,
        >(
            Decoded {
                images: seq![
                    DecodedView::RGBImage(
                        ImageView {
                            pixels: palette_colors(image.pixels),
                            width: image.width,
                            height: image.height,
                        },
                    ),
                ],
                errors: Seq::empty(),
            },
        ),
{
    let l = palette_layout(image, image_compressor);
    let file = encoded_file(little, l);
    let len = strip_bytes(l).len() as int;
    let fields = layout_fields(l, 8, len);
    let info = layout_info(l, 8, len);
    let colors = image.pixels[0].map()@;
    let bits = palette_bits(colors.len() as int);
    let map = colormap_shorts(colors);
    let expected = ImageView {
        pixels: palette_colors(image.pixels),
        width: image.width,
        height: image.height,
    };
    lemma_file_parts(little, l);
    lemma_layout_info(l, 8, len);
    lemma_layout_field_data(l, 8, len);
    lemma_strip_read_back(file, l);
    lemma_palette_pixels(image);
    assert(single_short(FieldData::Shorts(seq![bits])) == Ok::<u16, DecodeError>(bits));
    assert(palette_color::index_bits(fields) == Ok::<u16, DecodeError>(bits));
    assert(palette_color::palette_of(fields, bits) == Ok::<Seq<u16>, DecodeError>(map));
    assert(palette_color::image_of(file, fields, info) == Ok::<ImageView<RGB>, DecodeError>(
        expected,
    ));
    lemma_file_read_back(little, l, DecodedView::RGBImage(expected));
}

} // verus!
