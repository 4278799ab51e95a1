use byteorder::{BigEndian, LittleEndian};
use tiff_codec::colors::{Bilevel, ColorMap, Grayscale4Bit, Grayscale8Bit, RGB};
use tiff_codec::compression::{Lzw, NoCompression, PackBits};
use tiff_codec::decode::{decode_images, DecodeError, DecodedImage};
use tiff_codec::encode::grayscale_4bit::Grayscale4BitImageEncoder;
use tiff_codec::encode::grayscale_8bit::Grayscale8BitImageEncoder;
use tiff_codec::encode::palette_color::PaletteColorImageEncoder;
use tiff_codec::encode::photo_interp::{BlackIsZero, WhiteIsZero};
use tiff_codec::encode::rgb::RGBImageEncoder;
use tiff_codec::encode::{encode_images, BilevelImageEncoder, ImageEncoder};
use tiff_codec::Image;

fn pattern(width: usize, height: usize) -> Vec<Bilevel> {
    let mut pixels = Vec::new();
    for y in 0..height {
        for x in 0..width {
            pixels.push(if (x * 7 + y * 3) % 5 < 2 { Bilevel::Black } else { Bilevel::White });
        }
    }
    pixels
}

fn bilevel_of(decoded: DecodedImage) -> Vec<Bilevel> {
    match decoded {
        DecodedImage::BilevelImage(image) => Image::into_pixels(image),
        _ => panic!("not a bilevel image"),
    }
}

#[test]
fn two_bilevel_images_in_one_file() {
    let first = Image::new(
        vec![Bilevel::Black, Bilevel::White, Bilevel::White, Bilevel::Black],
        2,
        2,
    );
    let second = Image::new(pattern(3, 2), 3, 2);
    let a = BilevelImageEncoder::<LittleEndian, _, _>::new(&first, NoCompression, BlackIsZero);
    let b = BilevelImageEncoder::<LittleEndian, _, _>::new(&second, NoCompression, BlackIsZero);
    let bytes = encode_images(&[&a, &b]);
    // the header points to the first directory
    assert_eq!(&bytes[4..8], &[10, 0, 0, 0]);
    // the first directory has 9 entries and points to the second
    let link = 10 + 2 + 9 * 12;
    let second_ifd =
        u32::from_le_bytes([bytes[link], bytes[link + 1], bytes[link + 2], bytes[link + 3]])
            as usize;
    assert!(second_ifd > link);
    assert_eq!(&bytes[second_ifd..second_ifd + 2], &[9, 0]);
    // the second directory ends the chain
    let last = second_ifd + 2 + 9 * 12;
    assert_eq!(&bytes[last..last + 4], &[0, 0, 0, 0]);

    let result = decode_images(&bytes).unwrap();
    assert!(result.errors.is_empty());
    assert_eq!(result.images.len(), 2);
    let mut images = result.images.into_iter();
    assert_eq!(
        bilevel_of(images.next().unwrap()),
        vec![Bilevel::Black, Bilevel::White, Bilevel::White, Bilevel::Black]
    );
    assert_eq!(bilevel_of(images.next().unwrap()), pattern(3, 2));
}

#[test]
fn bilevel_round_trip_every_codec_and_order() {
    let pixels = pattern(13, 5);
    let image = Image::new(pixels.clone(), 13, 5);
    let files = vec![
        BilevelImageEncoder::<LittleEndian, _, _>::new(&image, NoCompression, BlackIsZero).encode(),
        BilevelImageEncoder::<LittleEndian, _, _>::new(&image, PackBits, WhiteIsZero).encode(),
        BilevelImageEncoder::<LittleEndian, _, _>::new(&image, Lzw, BlackIsZero).encode(),
        BilevelImageEncoder::<BigEndian, _, _>::new(&image, NoCompression, WhiteIsZero).encode(),
        BilevelImageEncoder::<BigEndian, _, _>::new(&image, PackBits, BlackIsZero).encode(),
        BilevelImageEncoder::<BigEndian, _, _>::new(&image, Lzw, WhiteIsZero).encode(),
    ];
    for bytes in files {
        let result = decode_images(&bytes).unwrap();
        assert!(result.errors.is_empty());
        assert_eq!(result.images.len(), 1);
        assert_eq!(bilevel_of(result.images.into_iter().next().unwrap()), pixels);
    }
}

#[test]
fn grayscale_4bit_round_trip() {
    let pixels: Vec<Grayscale4Bit> = (0..15u8).map(|v| Grayscale4Bit::new((v * 5) % 16)).collect();
    let image = Image::new(pixels.clone(), 5, 3);
    let files = vec![
        Grayscale4BitImageEncoder::<LittleEndian, _, _>::new(&image, NoCompression, BlackIsZero)
            .encode(),
        Grayscale4BitImageEncoder::<BigEndian, _, _>::new(&image, PackBits, WhiteIsZero).encode(),
        Grayscale4BitImageEncoder::<BigEndian, _, _>::new(&image, Lzw, WhiteIsZero).encode(),
    ];
    for bytes in files {
        let result = decode_images(&bytes).unwrap();
        assert!(result.errors.is_empty());
        match result.images.into_iter().next().unwrap() {
            DecodedImage::Grayscale4BitImage(found) => {
                assert_eq!(found.width(), 5);
                assert_eq!(found.height(), 3);
                assert!(Image::into_pixels(found) == pixels);
            }
            _ => panic!("not a 4-bit grayscale image"),
        }
    }
}

#[test]
fn grayscale_8bit_round_trip() {
    let pixels: Vec<Grayscale8Bit> = (0..24u32).map(|v| Grayscale8Bit((v * 37 % 256) as u8)).collect();
    let image = Image::new(pixels.clone(), 4, 6);
    let files = vec![
        Grayscale8BitImageEncoder::<LittleEndian, _, _>::new(&image, NoCompression, WhiteIsZero)
            .encode(),
        Grayscale8BitImageEncoder::<BigEndian, _, _>::new(&image, PackBits, BlackIsZero).encode(),
        Grayscale8BitImageEncoder::<LittleEndian, _, _>::new(&image, Lzw, BlackIsZero).encode(),
    ];
    for bytes in files {
        let result = decode_images(&bytes).unwrap();
        assert!(result.errors.is_empty());
        match result.images.into_iter().next().unwrap() {
            DecodedImage::Grayscale8BitImage(found) => {
                assert!(Image::into_pixels(found) == pixels);
            }
            _ => panic!("not an 8-bit grayscale image"),
        }
    }
}

#[test]
fn rgb_round_trip() {
    let pixels: Vec<RGB> =
        (0..12u8).map(|v| RGB::new(v.wrapping_mul(21), 255 - v, v / 2)).collect();
    let image = Image::new(pixels.clone(), 3, 4);
    let files = vec![
        RGBImageEncoder::<LittleEndian, _>::new(&image, NoCompression).encode(),
        RGBImageEncoder::<BigEndian, _>::new(&image, PackBits).encode(),
        RGBImageEncoder::<BigEndian, _>::new(&image, Lzw).encode(),
    ];
    for bytes in files {
        let result = decode_images(&bytes).unwrap();
        assert!(result.errors.is_empty());
        match result.images.into_iter().next().unwrap() {
            DecodedImage::RGBImage(found) => {
                assert!(Image::into_pixels(found) == pixels);
            }
            _ => panic!("not an RGB image"),
        }
    }
}

#[test]
fn palette_round_trip_with_4_and_8_bits() {
    for colors in [3usize, 40] {
        let mut map = ColorMap::new();
        let mut pixels: Vec<RGB> = Vec::new();
        for i in 0..colors {
            let color = RGB::new(i as u8, (2 * i) as u8, 255 - i as u8);
            assert_eq!(map.try_add_color(color), Some(i + 1));
            pixels.push(color);
        }
        while pixels.len() % 7 != 0 {
            pixels.push(RGB::new(0, 0, 255));
        }
        let height = pixels.len() / 7;
        let image = map.try_new_exact_image(&pixels, 7, height).unwrap();
        assert_eq!(image.bits_per_palette_sample(), if colors <= 16 { 4 } else { 8 });
        let files = vec![
            PaletteColorImageEncoder::<LittleEndian, _>::new(&image, NoCompression).encode(),
            PaletteColorImageEncoder::<BigEndian, _>::new(&image, PackBits).encode(),
            PaletteColorImageEncoder::<LittleEndian, _>::new(&image, Lzw).encode(),
        ];
        for bytes in files {
            let result = decode_images(&bytes).unwrap();
            assert!(result.errors.is_empty());
            match result.images.into_iter().next().unwrap() {
                DecodedImage::RGBImage(found) => {
                    assert!(Image::into_pixels(found) == pixels);
                }
                _ => panic!("not an RGB image"),
            }
        }
    }
}

#[test]
fn invalid_header_is_refused() {
    assert!(matches!(decode_images(&[]), Err(DecodeError::InvalidFiletype)));
    assert!(matches!(
        decode_images(&[0x49, 0x49, 0x2B, 0x00, 8, 0, 0, 0]),
        Err(DecodeError::InvalidFiletype)
    ));
    assert!(matches!(
        decode_images(&[0x49, 0x4D, 0x2A, 0x00, 8, 0, 0, 0]),
        Err(DecodeError::InvalidFiletype)
    ));
    assert!(matches!(
        decode_images(&[0x4D, 0x4D, 0x00, 0x2A, 0, 0]),
        Err(DecodeError::InvalidFiletype)
    ));
}

#[test]
fn looping_chain_is_refused() {
    let image = Image::new(vec![Bilevel::Black], 1, 1);
    let mut bytes =
        BilevelImageEncoder::<LittleEndian, _, _>::new(&image, NoCompression, BlackIsZero).encode();
    let ifd = u32::from_le_bytes([bytes[4], bytes[5], bytes[6], bytes[7]]) as usize;
    let link = ifd + 2 + 9 * 12;
    bytes[link..link + 4].copy_from_slice(&(ifd as u32).to_le_bytes());
    assert!(matches!(decode_images(&bytes), Err(DecodeError::LoopingIfdIndices)));
}

#[test]
fn directory_outside_the_file_is_refused() {
    let bytes = [0x49, 0x49, 0x2A, 0x00, 200, 0, 0, 0];
    assert!(matches!(
        decode_images(&bytes),
        Err(DecodeError::InvalidImageFieldDirectory(200))
    ));
}

#[test]
fn empty_chain_has_no_images() {
    let bytes = [0x4D, 0x4D, 0x00, 0x2A, 0, 0, 0, 0];
    let result = decode_images(&bytes).unwrap();
    assert!(result.images.is_empty());
    assert!(result.errors.is_empty());
}
