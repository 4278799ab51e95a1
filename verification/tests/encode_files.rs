use byteorder::{BigEndian, LittleEndian};
use tiff_codec::colors::{Bilevel, ColorMap, Grayscale8Bit, RGB};
use tiff_codec::compression::NoCompression;
use tiff_codec::encode::grayscale_8bit::Grayscale8BitImageEncoder;
use tiff_codec::encode::palette_color::PaletteColorImageEncoder;
use tiff_codec::encode::photo_interp::{BlackIsZero, WhiteIsZero};
use tiff_codec::encode::{BilevelImageEncoder, ImageEncoder};
use tiff_codec::Image;

fn bilevel_2x2() -> Image<Bilevel> {
    Image::new(
        vec![Bilevel::Black, Bilevel::White, Bilevel::White, Bilevel::Black],
        2,
        2,
    )
}

fn le_entry(tag: u16, kind: u16, count: u32, slot: [u8; 4]) -> Vec<u8> {
    let mut v = Vec::new();
    v.extend_from_slice(&tag.to_le_bytes());
    v.extend_from_slice(&kind.to_le_bytes());
    v.extend_from_slice(&count.to_le_bytes());
    v.extend_from_slice(&slot);
    v
}

fn bilevel_file(pixels: [u8; 2], photo: u8) -> Vec<u8> {
    let mut expected: Vec<u8> = vec![0x49, 0x49, 0x2A, 0x00, 0x0A, 0x00, 0x00, 0x00];
    expected.extend_from_slice(&pixels);
    expected.extend_from_slice(&[9, 0]);
    expected.extend(le_entry(256, 4, 1, [2, 0, 0, 0]));
    expected.extend(le_entry(257, 4, 1, [2, 0, 0, 0]));
    expected.extend(le_entry(259, 3, 1, [1, 0, 0, 0]));
    expected.extend(le_entry(262, 3, 1, [photo, 0, 0, 0]));
    expected.extend(le_entry(273, 3, 1, [8, 0, 0, 0]));
    expected.extend(le_entry(278, 3, 1, [2, 0, 0, 0]));
    expected.extend(le_entry(279, 4, 1, [2, 0, 0, 0]));
    expected.extend(le_entry(282, 5, 1, [124, 0, 0, 0]));
    expected.extend(le_entry(283, 5, 1, [132, 0, 0, 0]));
    expected.extend_from_slice(&[0, 0, 0, 0]);
    expected.extend_from_slice(&[1, 0, 0, 0, 1, 0, 0, 0]);
    expected.extend_from_slice(&[1, 0, 0, 0, 1, 0, 0, 0]);
    expected
}

#[test]
fn bilevel_black_is_zero_little_endian() {
    let image = bilevel_2x2();
    let bytes =
        BilevelImageEncoder::<LittleEndian, _, _>::new(&image, NoCompression, BlackIsZero).encode();
    assert_eq!(bytes, bilevel_file([0x40, 0x80], 1));
}

#[test]
fn bilevel_white_is_zero_little_endian() {
    let image = bilevel_2x2();
    let bytes =
        BilevelImageEncoder::<LittleEndian, _, _>::new(&image, NoCompression, WhiteIsZero).encode();
    assert_eq!(bytes, bilevel_file([0x80, 0x40], 0));
}

#[test]
fn grayscale_8bit_big_endian() {
    let image = Image::new(
        vec![Grayscale8Bit(0), Grayscale8Bit(85), Grayscale8Bit(170), Grayscale8Bit(255)],
        1,
        4,
    );
    let bytes =
        Grayscale8BitImageEncoder::<BigEndian, _, _>::new(&image, NoCompression, BlackIsZero)
            .encode();
    assert_eq!(&bytes[0..8], &[0x4D, 0x4D, 0x00, 0x2A, 0x00, 0x00, 0x00, 0x0C]);
    assert_eq!(&bytes[8..12], &[0x00, 0x55, 0xAA, 0xFF]);
    assert_eq!(&bytes[12..14], &[0, 10]);
    // BitsPerSample is the third entry
    assert_eq!(&bytes[14 + 24..14 + 36], &[1, 2, 0, 3, 0, 0, 0, 1, 0, 8, 0, 0]);
    // RowsPerStrip is the seventh entry
    assert_eq!(&bytes[14 + 72..14 + 84], &[1, 22, 0, 3, 0, 0, 0, 1, 0, 4, 0, 0]);
}

#[test]
fn palette_two_colors() {
    let mut map = ColorMap::new();
    assert_eq!(map.try_add_color(RGB::new(255, 0, 0)), Some(1));
    assert_eq!(map.try_add_color(RGB::new(0, 255, 0)), Some(2));
    let image = map
        .try_new_exact_image(&[RGB::new(255, 0, 0), RGB::new(0, 255, 0)], 2, 1)
        .unwrap();
    let bytes = PaletteColorImageEncoder::<LittleEndian, _>::new(&image, NoCompression).encode();
    // the strip: one byte, index 0 in the high half and index 1 in the low half
    assert_eq!(bytes[8], 0x01);
    // the directory starts at 10 and has 11 entries
    assert_eq!(&bytes[4..8], &[10, 0, 0, 0]);
    assert_eq!(&bytes[10..12], &[11, 0]);
    // BitsPerSample = 4
    assert_eq!(&bytes[12 + 24..12 + 36], &[2, 1, 3, 0, 1, 0, 0, 0, 4, 0, 0, 0]);
    // ColorMap: 48 shorts after the two resolutions
    let color_map_entry = &bytes[12 + 120..12 + 132];
    assert_eq!(&color_map_entry[0..8], &[64, 1, 3, 0, 48, 0, 0, 0]);
    let at = u32::from_le_bytes([
        color_map_entry[8],
        color_map_entry[9],
        color_map_entry[10],
        color_map_entry[11],
    ]) as usize;
    assert_eq!(at % 2, 0);
    let shorts: Vec<u16> = (0..48)
        .map(|i| u16::from_le_bytes([bytes[at + 2 * i], bytes[at + 2 * i + 1]]))
        .collect();
    let mut expected = vec![0u16; 48];
    expected[0] = 255;
    expected[16 + 1] = 255;
    assert_eq!(shorts, expected);
    assert_eq!(bytes.len(), at + 96);
}
