use tiff_codec::colors::{Bilevel, ColorMap, Grayscale4Bit, Grayscale8Bit, RGB};
use tiff_codec::{Image, ImageCreateError};

#[test]
fn image_needs_matching_dimensions() {
    let image = Image::new(vec![Grayscale8Bit(1), Grayscale8Bit(2), Grayscale8Bit(3)], 3, 1);
    assert_eq!(image.width(), 3);
    assert_eq!(image.height(), 1);
    assert_eq!(image.pixels().len(), 3);
    assert!(matches!(
        Image::try_new(vec![Bilevel::Black; 5], 2, 3),
        Err(ImageCreateError::DimensionMismatch { width: 2, height: 3, pixel_count: 5 })
    ));
    assert!(matches!(
        Image::try_new(vec![Bilevel::Black; 5], usize::MAX, 2),
        Err(ImageCreateError::DimensionMismatch { .. })
    ));
    assert!(matches!(
        Image::<Bilevel>::try_new(vec![], 0, 7),
        Err(ImageCreateError::NoPixels)
    ));
    assert!(matches!(
        Image::<Bilevel>::try_new(vec![], 2, 7),
        Err(ImageCreateError::DimensionMismatch { width: 2, height: 7, pixel_count: 0 })
    ));
    assert!(Image::try_new(vec![Bilevel::White; 6], 2, 3).is_ok());
}

#[test]
fn rows_of_an_image() {
    let pixels: Vec<Grayscale8Bit> = (0..6u8).map(Grayscale8Bit).collect();
    let image = Image::new(pixels.clone(), 3, 2);
    let rows = image.iter_pixels();
    assert_eq!(rows.len(), 2);
    assert_eq!(rows[0], vec![Grayscale8Bit(0), Grayscale8Bit(1), Grayscale8Bit(2)]);
    assert_eq!(rows[1], vec![Grayscale8Bit(3), Grayscale8Bit(4), Grayscale8Bit(5)]);
    assert_eq!(Image::into_pixels(image), pixels);
}

#[test]
fn shades_of_four_bits() {
    assert_eq!(Grayscale4Bit::new(15).value(), 15);
    assert_eq!(Grayscale4Bit::new(0).value(), 0);
    assert_eq!(Grayscale4Bit::new_checked(15).map(|shade| shade.value()), Some(15));
    assert!(Grayscale4Bit::new_checked(16).is_none());
    assert!(Grayscale4Bit::new_checked(255).is_none());
}

#[test]
fn color_added_twice_is_held_once() {
    let mut map = ColorMap::new();
    assert_eq!(map.len(), 0);
    assert!(!map.contains_color(RGB::new(1, 2, 3)));
    assert_eq!(map.try_add_color(RGB::new(1, 2, 3)), Some(1));
    assert_eq!(map.try_add_color(RGB::new(4, 5, 6)), Some(2));
    assert_eq!(map.try_add_color(RGB::new(1, 2, 3)), Some(2));
    assert_eq!(map.len(), 2);
    assert!(map.contains_color(RGB::new(1, 2, 3)));
    assert_eq!(map.get(0), Some(RGB::new(1, 2, 3)));
    assert_eq!(map.get(1), Some(RGB::new(4, 5, 6)));
    assert_eq!(map.get(2), None);
    let copy = map.clone();
    assert_eq!(copy.len(), 2);
    assert_eq!(copy.get(1), Some(RGB::new(4, 5, 6)));
}

#[test]
fn palette_holds_256_colors_and_no_more() {
    assert_eq!(ColorMap::MAX_COLORS, 256);
    let mut map = ColorMap::new();
    for i in 0..256usize {
        assert_eq!(map.bits_per_palette_sample(), if i <= 16 { 4 } else { 8 });
        assert_eq!(map.try_add_color(RGB::new(i as u8, 0, 1)), Some(i + 1));
    }
    assert_eq!(map.try_add_color(RGB::new(0, 0, 2)), None);
    assert_eq!(map.len(), 256);
    assert!(!map.contains_color(RGB::new(0, 0, 2)));
    for i in 0..256usize {
        assert_eq!(map.get(i as u8), Some(RGB::new(i as u8, 0, 1)));
    }
    // a color that is there is still found
    assert_eq!(map.try_add_color(RGB::new(77, 0, 1)), Some(256));
    let shorts = map.create_colormap_vec();
    assert_eq!(shorts.len(), 768);
    assert_eq!(shorts[5], 5);
    assert_eq!(shorts[256 + 5], 0);
    assert_eq!(shorts[512 + 5], 1);
}

#[test]
fn palette_as_a_field() {
    let mut map = ColorMap::new();
    map.try_add_color(RGB::new(10, 20, 30));
    map.try_add_color(RGB::new(40, 50, 60));
    let shorts = map.create_colormap_vec();
    let mut expected = vec![0u16; 48];
    expected[0] = 10;
    expected[1] = 40;
    expected[16] = 20;
    expected[17] = 50;
    expected[32] = 30;
    expected[33] = 60;
    assert_eq!(shorts, expected);
}

#[test]
fn image_of_palette_colors() {
    let mut map = ColorMap::new();
    map.try_add_color(RGB::new(1, 1, 1));
    map.try_add_color(RGB::new(2, 2, 2));
    let pixels = [RGB::new(2, 2, 2), RGB::new(1, 1, 1), RGB::new(2, 2, 2)];
    let image = map.try_new_exact_image(&pixels, 3, 1).unwrap();
    assert_eq!(image.bits_per_palette_sample(), 4);
    assert_eq!(image.get_colormap().len(), 2);
    let indices: Vec<u8> = image.pixels().iter().map(|pixel| pixel.get_inx()).collect();
    assert_eq!(indices, vec![1, 0, 1]);
    assert_eq!(image.pixels()[0].bits_per_palette_sample(), 4);
    assert_eq!(image.pixels()[0].get_map().len(), 2);
    assert!(map.try_new_exact_image(&[RGB::new(3, 3, 3)], 1, 1).is_none());
}
