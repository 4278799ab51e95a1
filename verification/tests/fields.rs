use byteorder::{BigEndian, LittleEndian};
use tiff_codec::colors::Grayscale8Bit;
use tiff_codec::compression::NoCompression;
use tiff_codec::decode::tiff_field::{
    as_usizes, find, find_required, read_single, read_single_rational, read_single_short,
    read_values, take, take_required,
};
use tiff_codec::decode::{
    decode_image, decode_images, read_image_field_directory, read_image_info, DecodeError,
    DecodedImage, Ifd,
};
use tiff_codec::encode::buffer::TiffEncodeBuffer;
use tiff_codec::encode::encode_ifds;
use tiff_codec::encode::grayscale_8bit::Grayscale8BitImageEncoder;
use tiff_codec::encode::photo_interp::BlackIsZero;
use tiff_codec::encode::ImageEncoder;
use tiff_codec::ifd::tags::PhotometricInterpretation;
use tiff_codec::ifd::{Entry, Tag, Type, Values};
use tiff_codec::types::URational;
use tiff_codec::Image;

fn shorts(v: &[u16]) -> Values {
    Values::Shorts(v.to_vec())
}

fn longs(v: &[u32]) -> Values {
    Values::Longs(v.to_vec())
}

fn unit() -> Values {
    Values::Rationals(vec![URational::new(1, 1)])
}

/// The entries of a gray image of 2 by 1 pixels whose strip is at 8.
fn gray_entries() -> Vec<Entry> {
    vec![
        Entry::new(Tag::ImageWidth, longs(&[2])),
        Entry::new(Tag::ImageLength, longs(&[1])),
        Entry::new(Tag::BitsPerSample, shorts(&[8])),
        Entry::new(Tag::Compression, shorts(&[1])),
        Entry::new(Tag::PhotometricInterpretation, shorts(&[1])),
        Entry::new(Tag::StripOffsets, shorts(&[8])),
        Entry::new(Tag::RowsPerStrip, shorts(&[1])),
        Entry::new(Tag::StripByteCounts, longs(&[2])),
        Entry::new(Tag::XResolution, unit()),
        Entry::new(Tag::YResolution, unit()),
    ]
}

/// A file with the strip `10 20` and a directory of `entries`.
fn file_of(entries: Vec<Entry>) -> Vec<u8> {
    let mut wrt = TiffEncodeBuffer::new::<LittleEndian>();
    wrt.extend_bytes(&[10, 20]);
    let info = encode_ifds(&mut wrt, &entries);
    wrt.set_first_ifd_offset(info.inx as u32);
    wrt.to_bytes()
}

fn without(tag: Tag) -> Vec<Entry> {
    gray_entries().into_iter().filter(|entry| entry.tag() != tag).collect()
}

fn with(tag: Tag, values: Values) -> Vec<Entry> {
    let mut entries = without(tag);
    let at = entries.iter().position(|entry| entry.tag().repr() > tag.repr());
    entries.insert(at.unwrap_or(entries.len()), Entry::new(tag, values));
    entries
}

fn only_error(bytes: &[u8]) -> DecodeError {
    let result = decode_images(bytes).unwrap();
    assert!(result.images.is_empty());
    assert_eq!(result.errors.len(), 1);
    result.errors[0]
}

fn gray_pixels(bytes: &[u8]) -> Vec<Grayscale8Bit> {
    let result = decode_images(bytes).unwrap();
    assert!(result.errors.is_empty());
    assert_eq!(result.images.len(), 1);
    match result.images.into_iter().next().unwrap() {
        DecodedImage::Grayscale8BitImage(image) => Image::into_pixels(image),
        _ => panic!("not an 8-bit grayscale image"),
    }
}

#[test]
fn file_built_by_hand_is_read() {
    assert_eq!(gray_pixels(&file_of(gray_entries())), vec![Grayscale8Bit(10), Grayscale8Bit(20)]);
    // the file is the one that the encoder writes
    let image = Image::new(vec![Grayscale8Bit(10), Grayscale8Bit(20)], 2, 1);
    let encoded =
        Grayscale8BitImageEncoder::<LittleEndian, _, _>::new(&image, NoCompression, BlackIsZero)
            .encode();
    assert_eq!(encoded, file_of(gray_entries()));
}

#[test]
fn white_is_zero_turns_the_shades_around() {
    let bytes = file_of(with(Tag::PhotometricInterpretation, shorts(&[0])));
    assert_eq!(gray_pixels(&bytes), vec![Grayscale8Bit(245), Grayscale8Bit(235)]);
}

#[test]
fn required_fields_must_be_there() {
    for tag in [
        Tag::ImageWidth,
        Tag::ImageLength,
        Tag::PhotometricInterpretation,
        Tag::StripOffsets,
        Tag::StripByteCounts,
        Tag::XResolution,
        Tag::YResolution,
    ] {
        assert_eq!(only_error(&file_of(without(tag))), DecodeError::MissingRequiredField);
    }
    // without a compression the strip is taken as it is
    assert_eq!(
        gray_pixels(&file_of(without(Tag::Compression))),
        vec![Grayscale8Bit(10), Grayscale8Bit(20)]
    );
    // without the rows per strip the one strip would have to hold 2^32 - 1 rows
    assert_eq!(only_error(&file_of(without(Tag::RowsPerStrip))), DecodeError::CantReadImage);
}

#[test]
fn fields_with_wrong_values_are_refused() {
    assert_eq!(
        only_error(&file_of(with(Tag::ImageWidth, longs(&[2, 2])))),
        DecodeError::InvalidTagValueCount
    );
    assert_eq!(
        only_error(&file_of(with(Tag::ImageWidth, unit()))),
        DecodeError::InvalidTagValues
    );
    assert_eq!(
        only_error(&file_of(with(Tag::Compression, shorts(&[3])))),
        DecodeError::UnsupportedCompressionType
    );
    assert_eq!(
        only_error(&file_of(with(Tag::Compression, shorts(&[6])))),
        DecodeError::UnsupportedCompressionType
    );
    assert_eq!(
        only_error(&file_of(with(Tag::Compression, longs(&[1])))),
        DecodeError::InvalidTagValues
    );
    assert_eq!(
        only_error(&file_of(with(Tag::Compression, shorts(&[2])))),
        DecodeError::UnsupportedCompressionType
    );
    assert_eq!(
        only_error(&file_of(with(Tag::PhotometricInterpretation, shorts(&[4])))),
        DecodeError::InvalidTagValues
    );
    assert_eq!(
        only_error(&file_of(with(Tag::StripOffsets, Values::Bytes(vec![8])))),
        DecodeError::InvalidTagValues
    );
    assert_eq!(
        only_error(&file_of(with(Tag::XResolution, Values::Rationals(vec![])))),
        DecodeError::InvalidTagValueCount
    );
    assert_eq!(
        only_error(&file_of(with(Tag::ResolutionUnit, shorts(&[9])))),
        DecodeError::InvalidTagValues
    );
    assert_eq!(
        only_error(&file_of(with(Tag::BitsPerSample, shorts(&[2])))),
        DecodeError::InvalidTagValues
    );
    assert_eq!(
        only_error(&file_of(with(Tag::BitsPerSample, shorts(&[8, 8])))),
        DecodeError::InvalidTagValueCount
    );
}

#[test]
fn strips_must_hold_the_image() {
    // two rows per strip, one row in the image
    assert_eq!(
        only_error(&file_of(with(Tag::RowsPerStrip, shorts(&[2])))),
        DecodeError::CantReadImage
    );
    // the strip lies outside the file
    assert_eq!(
        only_error(&file_of(with(Tag::StripOffsets, longs(&[4000])))),
        DecodeError::CantReadImage
    );
    // one byte for two pixels
    assert_eq!(
        only_error(&file_of(with(Tag::StripByteCounts, longs(&[1])))),
        DecodeError::CantReadImage
    );
    // an offset without a byte count
    assert_eq!(
        only_error(&file_of(with(Tag::StripByteCounts, longs(&[])))),
        DecodeError::CantReadImage
    );
    // a strip that is no PackBits data
    assert_eq!(
        only_error(&file_of(with(Tag::Compression, shorts(&[32773])))),
        DecodeError::CantReadImage
    );
    // a strip that is no LZW data
    assert_eq!(
        only_error(&file_of(with(Tag::Compression, shorts(&[5])))),
        DecodeError::CantReadImage
    );
    // no pixels
    assert_eq!(
        only_error(&file_of(with(Tag::ImageWidth, longs(&[0])))),
        DecodeError::CantReadImage
    );
    // 4 bits for each of two pixels are one byte, not two
    assert_eq!(
        only_error(&file_of(with(Tag::BitsPerSample, shorts(&[4])))),
        DecodeError::CantReadImage
    );
}

#[test]
fn two_strips_are_read_one_after_the_other() {
    let mut entries = with(Tag::ImageLength, longs(&[2]));
    entries = entries
        .into_iter()
        .map(|entry| match entry.tag() {
            Tag::ImageWidth => Entry::new(Tag::ImageWidth, longs(&[1])),
            Tag::StripOffsets => Entry::new(Tag::StripOffsets, shorts(&[9, 8])),
            Tag::StripByteCounts => Entry::new(Tag::StripByteCounts, shorts(&[1, 1])),
            _ => entry,
        })
        .collect();
    assert_eq!(gray_pixels(&file_of(entries)), vec![Grayscale8Bit(20), Grayscale8Bit(10)]);
}

#[test]
fn rgb_and_palette_need_their_fields() {
    let rgb = with(Tag::PhotometricInterpretation, shorts(&[2]));
    assert_eq!(only_error(&file_of(rgb)), DecodeError::MissingRequiredField);
    let mut rgb = with(Tag::PhotometricInterpretation, shorts(&[2]));
    rgb.insert(6, Entry::new(Tag::SamplesPerPixel, shorts(&[4])));
    assert_eq!(only_error(&file_of(rgb)), DecodeError::InvalidTagValues);
    let mut rgb = with(Tag::PhotometricInterpretation, shorts(&[2]));
    rgb.insert(6, Entry::new(Tag::SamplesPerPixel, shorts(&[3])));
    // bits per sample of 8 alone are not 8, 8, 8
    assert_eq!(only_error(&file_of(rgb)), DecodeError::InvalidTagValues);

    let palette = with(Tag::PhotometricInterpretation, shorts(&[3]));
    assert_eq!(only_error(&file_of(palette)), DecodeError::MissingRequiredField);
    let mut palette = with(Tag::PhotometricInterpretation, shorts(&[3]));
    palette.push(Entry::new(Tag::ColorMap, shorts(&[0; 48])));
    assert_eq!(only_error(&file_of(palette)), DecodeError::InvalidTagValueCount);
    let mut palette = with(Tag::PhotometricInterpretation, shorts(&[3]));
    let mut map = vec![0u16; 768];
    map[10] = 256;
    palette.push(Entry::new(Tag::ColorMap, Values::Shorts(map)));
    assert_eq!(only_error(&file_of(palette)), DecodeError::InvalidTagValues);
    let mut palette = with(Tag::PhotometricInterpretation, shorts(&[3]));
    palette.push(Entry::new(Tag::ColorMap, Values::Longs(vec![0; 768])));
    assert_eq!(only_error(&file_of(palette)), DecodeError::InvalidTagValues);
    let palette = without(Tag::BitsPerSample)
        .into_iter()
        .map(|entry| match entry.tag() {
            Tag::PhotometricInterpretation => {
                Entry::new(Tag::PhotometricInterpretation, shorts(&[3]))
            }
            _ => entry,
        })
        .collect();
    assert_eq!(only_error(&file_of(palette)), DecodeError::MissingRequiredField);
}

#[test]
fn unknown_fields_are_reported_beside_the_image() {
    let mut entries = gray_entries();
    entries.insert(0, Entry::new(Tag::NewSubFileType, longs(&[0])));
    entries.push(Entry::new(Tag::TileWidth, shorts(&[1])));
    entries.push(Entry::new(Tag::TileLength, Values::Bytes(vec![1, 2, 3, 4, 5])));
    let mut bytes = file_of(entries);
    let ifd = u32::from_le_bytes([bytes[4], bytes[5], bytes[6], bytes[7]]) as usize;
    assert_eq!(&bytes[ifd..ifd + 2], &[13, 0]);
    // the first entry gets the tag 255, which is no tag
    bytes[ifd + 2] = 255;
    bytes[ifd + 3] = 0;
    // the entry before the last gets the type 9
    bytes[ifd + 2 + 12 * 11 + 2] = 9;
    // the values of the last entry are said to be outside the file
    bytes[ifd + 2 + 12 * 12 + 8] = 0xFF;
    bytes[ifd + 2 + 12 * 12 + 9] = 0xFF;
    let result = decode_images(&bytes).unwrap();
    assert_eq!(result.images.len(), 1);
    assert_eq!(
        result.errors,
        vec![
            DecodeError::UnknownFieldTag(255),
            DecodeError::UnknownFieldType(9),
            DecodeError::CantReadField
        ]
    );
}

#[test]
fn directory_is_read_as_it_was_written() {
    let entries = vec![
        Entry::new(Tag::NewSubFileType, Values::ASCII(String::from("ab"))),
        Entry::new(Tag::ImageWidth, Values::ASCII(String::from("a long string"))),
        Entry::new(Tag::ImageLength, Values::Bytes(vec![1, 2, 3, 4, 5, 6])),
        Entry::new(Tag::BitsPerSample, shorts(&[8, 9, 10])),
        Entry::new(Tag::Compression, shorts(&[7, 8])),
        Entry::new(Tag::StripOffsets, longs(&[1, 2, 3])),
        Entry::new(
            Tag::XResolution,
            Values::Rationals(vec![URational::new(1, 2), URational::new(3, 4)]),
        ),
    ];
    for little in [true, false] {
        let mut wrt = if little {
            TiffEncodeBuffer::new::<LittleEndian>()
        } else {
            TiffEncodeBuffer::new::<BigEndian>()
        };
        wrt.append_byte(1);
        let info = encode_ifds(&mut wrt, &entries);
        let bytes = wrt.to_bytes();
        let ifd = Ifd::new(&bytes, info.inx, little).unwrap();
        assert_eq!(ifd.entry_count(), 7);
        assert_eq!(ifd.next_ifd_index(), 0);
        assert_eq!(ifd.field(&bytes, 0).len(), 12);
        let (fields, errors) = read_image_field_directory(&bytes, little, ifd);
        assert!(errors.is_empty());
        assert_eq!(fields.len(), 7);
        assert!(matches!(fields[0].values(), Values::ASCII(s) if s == "ab"));
        assert!(matches!(fields[1].values(), Values::ASCII(s) if s == "a long string"));
        assert!(matches!(fields[2].values(), Values::Bytes(v) if v == &vec![1u8, 2, 3, 4, 5, 6]));
        assert!(matches!(fields[3].values(), Values::Shorts(v) if v == &vec![8u16, 9, 10]));
        assert!(matches!(fields[4].values(), Values::Shorts(v) if v == &vec![7u16, 8]));
        assert!(matches!(fields[5].values(), Values::Longs(v) if v == &vec![1u32, 2, 3]));
        assert!(matches!(
            fields[6].values(),
            Values::Rationals(v) if v == &vec![URational::new(1, 2), URational::new(3, 4)]
        ));
        let tags: Vec<Tag> = fields.iter().map(|field| field.tag()).collect();
        assert_eq!(
            tags,
            vec![
                Tag::NewSubFileType,
                Tag::ImageWidth,
                Tag::ImageLength,
                Tag::BitsPerSample,
                Tag::Compression,
                Tag::StripOffsets,
                Tag::XResolution
            ]
        );
    }
    assert_eq!(
        Ifd::new(&[0, 0, 0], 2, true).err(),
        Some(DecodeError::InvalidImageFieldDirectory(2))
    );
    assert_eq!(
        Ifd::new(&[1, 0, 0, 0, 0, 0], 0, true).err(),
        Some(DecodeError::InvalidImageFieldDirectory(0))
    );
}

#[test]
fn values_are_read_from_the_entry_or_from_the_file() {
    let file = [0u8, 1, 2, 3, 4, 5, 6, 7, 8, 9, 10, 11];
    assert!(matches!(
        read_values(&file, true, Type::Byte, 3, &[7, 8, 9, 10]),
        Ok(Values::Bytes(v)) if v == vec![7u8, 8, 9]
    ));
    assert!(matches!(
        read_values(&file, true, Type::Byte, 5, &[2, 0, 0, 0]),
        Ok(Values::Bytes(v)) if v == vec![2u8, 3, 4, 5, 6]
    ));
    assert!(matches!(
        read_values(&file, false, Type::Byte, 5, &[0, 0, 0, 2]),
        Ok(Values::Bytes(v)) if v == vec![2u8, 3, 4, 5, 6]
    ));
    assert!(matches!(
        read_values(&file, true, Type::Short, 2, &[1, 2, 3, 4]),
        Ok(Values::Shorts(v)) if v == vec![0x0201u16, 0x0403]
    ));
    assert!(matches!(
        read_values(&file, false, Type::Short, 1, &[1, 2, 3, 4]),
        Ok(Values::Shorts(v)) if v == vec![0x0102u16]
    ));
    assert!(matches!(
        read_values(&file, false, Type::Short, 3, &[0, 0, 0, 4]),
        Ok(Values::Shorts(v)) if v == vec![0x0405u16, 0x0607, 0x0809]
    ));
    assert!(matches!(
        read_values(&file, true, Type::Long, 1, &[1, 2, 3, 4]),
        Ok(Values::Longs(v)) if v == vec![0x04030201u32]
    ));
    assert!(matches!(
        read_values(&file, true, Type::Long, 0, &[1, 2, 3, 4]),
        Ok(Values::Longs(v)) if v.is_empty()
    ));
    assert!(matches!(
        read_values(&file, false, Type::Long, 2, &[0, 0, 0, 4]),
        Ok(Values::Longs(v)) if v == vec![0x04050607u32, 0x08090A0B]
    ));
    assert!(matches!(
        read_values(&file, true, Type::Rational, 1, &[4, 0, 0, 0]),
        Ok(Values::Rationals(v)) if v == vec![URational::new(0x07060504, 0x0B0A0908)]
    ));
    assert!(matches!(
        read_values(&file, true, Type::Rational, 2, &[0, 0, 0, 0]),
        Err(DecodeError::CantReadField)
    ));
    assert!(matches!(
        read_values(&file, true, Type::Byte, 5, &[8, 0, 0, 0]),
        Err(DecodeError::CantReadField)
    ));
}

#[test]
fn strings_must_be_one_string_of_seven_bit_bytes() {
    let file = [b'h', b'e', b'l', b'l', b'o', 0, b'a', 0, b'b', 0, 200, 0];
    assert!(matches!(
        read_values(&file, true, Type::ASCII, 6, &[0, 0, 0, 0]),
        Ok(Values::ASCII(s)) if s == "hello"
    ));
    assert!(matches!(
        read_values(&file, true, Type::ASCII, 3, &[b'h', b'i', 0, 9]),
        Ok(Values::ASCII(s)) if s == "hi"
    ));
    assert!(matches!(
        read_values(&file, true, Type::ASCII, 1, &[0, 1, 2, 3]),
        Ok(Values::ASCII(s)) if s.is_empty()
    ));
    // no NUL at the end
    assert!(matches!(
        read_values(&file, true, Type::ASCII, 5, &[0, 0, 0, 0]),
        Err(DecodeError::CantReadField)
    ));
    assert!(matches!(
        read_values(&file, true, Type::ASCII, 0, &[0, 0, 0, 0]),
        Err(DecodeError::CantReadField)
    ));
    // two strings
    assert!(matches!(
        read_values(&file, true, Type::ASCII, 8, &[0, 0, 0, 0]),
        Err(DecodeError::UnknownFieldType(2))
    ));
    assert!(matches!(
        read_values(&file, true, Type::ASCII, 4, &[b'a', 0, b'b', 0]),
        Err(DecodeError::UnknownFieldType(2))
    ));
    // a byte above 127
    assert!(matches!(
        read_values(&file, true, Type::ASCII, 2, &[200, 0, 0, 0]),
        Err(DecodeError::CantReadField)
    ));
}

#[test]
fn fields_are_found_by_their_tags() {
    let mut entries = gray_entries();
    entries.push(Entry::new(Tag::ImageWidth, longs(&[99])));
    assert!(matches!(find(&entries, Tag::ImageWidth), Some(Values::Longs(v)) if v == &vec![2u32]));
    assert!(find(&entries, Tag::ColorMap).is_none());
    assert!(matches!(
        find_required(&entries, Tag::BitsPerSample),
        Ok(Values::Shorts(v)) if v == &vec![8u16]
    ));
    assert!(matches!(
        find_required(&entries, Tag::ColorMap),
        Err(DecodeError::MissingRequiredField)
    ));
    // the first width is taken, and the last entry takes its place
    assert!(matches!(take(&mut entries, Tag::ImageWidth), Some(Values::Longs(v)) if v == vec![2u32]));
    assert_eq!(entries.len(), 10);
    assert_eq!(entries[0].tag(), Tag::ImageWidth);
    assert!(matches!(entries[0].values(), Values::Longs(v) if v == &vec![99u32]));
    assert_eq!(entries[1].tag(), Tag::ImageLength);
    assert!(take(&mut entries, Tag::ColorMap).is_none());
    assert_eq!(entries.len(), 10);
    assert!(matches!(
        take_required(&mut entries, Tag::YResolution),
        Ok(Values::Rationals(v)) if v == vec![URational::new(1, 1)]
    ));
    assert_eq!(entries.len(), 9);
    assert!(matches!(
        take_required(&mut entries, Tag::YResolution),
        Err(DecodeError::MissingRequiredField)
    ));
    assert_eq!(entries.len(), 9);
}

#[test]
fn single_values() {
    assert_eq!(read_single_short(&shorts(&[7])), Ok(7));
    assert_eq!(read_single_short(&shorts(&[])), Err(DecodeError::InvalidTagValueCount));
    assert_eq!(read_single_short(&shorts(&[7, 8])), Err(DecodeError::InvalidTagValueCount));
    assert_eq!(read_single_short(&longs(&[7])), Err(DecodeError::InvalidTagValues));
    assert_eq!(read_single(&shorts(&[7])), Ok(7));
    assert_eq!(read_single(&longs(&[70000])), Ok(70000));
    assert_eq!(read_single(&longs(&[1, 2])), Err(DecodeError::InvalidTagValueCount));
    assert_eq!(read_single(&shorts(&[])), Err(DecodeError::InvalidTagValueCount));
    assert_eq!(read_single(&Values::Bytes(vec![1])), Err(DecodeError::InvalidTagValues));
    assert_eq!(read_single_rational(&unit()), Ok(URational::new(1, 1)));
    assert_eq!(
        read_single_rational(&Values::Rationals(vec![])),
        Err(DecodeError::InvalidTagValueCount)
    );
    assert_eq!(read_single_rational(&longs(&[1])), Err(DecodeError::InvalidTagValues));
    assert_eq!(as_usizes(&shorts(&[1, 2])), Ok(vec![1usize, 2]));
    assert_eq!(as_usizes(&longs(&[70000])), Ok(vec![70000usize]));
    assert_eq!(as_usizes(&unit()), Err(DecodeError::InvalidTagValues));
}

#[test]
fn image_of_fields() {
    let bytes = file_of(gray_entries());
    let entries = gray_entries();
    let (info, photo_interp) = read_image_info(&entries).unwrap();
    assert_eq!(info.width(), 2);
    assert_eq!(info.height(), 1);
    assert_eq!(photo_interp, PhotometricInterpretation::BlackIsZero);
    assert_eq!(info.read_strips(&bytes), Ok(vec![10, 20]));
    assert!(matches!(
        decode_image(&bytes, &entries),
        Ok(DecodedImage::Grayscale8BitImage(_))
    ));
    assert!(matches!(
        decode_image(&bytes, &without(Tag::ImageWidth)),
        Err(DecodeError::MissingRequiredField)
    ));
}
