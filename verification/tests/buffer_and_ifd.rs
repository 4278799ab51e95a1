use byteorder::{BigEndian, LittleEndian};
use tiff_codec::byte_order::{append_bytes, push_long, push_short};
use tiff_codec::encode::buffer::{overwrite, TiffEncodeBuffer};
use tiff_codec::encode::image_header::{EndiannessSentinel, HEADER_SIZE, MAGIC};
use tiff_codec::encode::{encode_ifds, IfdInfo};
use tiff_codec::ifd::tags::{Compression, PhotometricInterpretation, ResolutionUnit};
use tiff_codec::ifd::{get_len, Entry, Tag, Type, Values, ENTRY_COUNT_LEN, ENTRY_LEN, NEXT_IFD_OFFSET_LEN};
use tiff_codec::types::URational;

#[test]
fn numbers_in_both_byte_orders() {
    let mut bytes = Vec::new();
    push_short(&mut bytes, true, 0x1234);
    push_short(&mut bytes, false, 0x1234);
    push_long(&mut bytes, true, 0x89ABCDEF);
    push_long(&mut bytes, false, 0x89ABCDEF);
    append_bytes(&mut bytes, &[1, 2, 3]);
    assert_eq!(
        bytes,
        vec![0x34, 0x12, 0x12, 0x34, 0xEF, 0xCD, 0xAB, 0x89, 0x89, 0xAB, 0xCD, 0xEF, 1, 2, 3]
    );
}

#[test]
fn header_of_a_new_buffer() {
    assert_eq!(HEADER_SIZE, 8);
    assert_eq!(MAGIC, 42);
    assert_eq!(<LittleEndian as EndiannessSentinel>::get_sentinel(), 0x4949);
    assert_eq!(<BigEndian as EndiannessSentinel>::get_sentinel(), 0x4D4D);
    assert!(<LittleEndian as EndiannessSentinel>::is_little());
    assert!(!<BigEndian as EndiannessSentinel>::is_little());
    let little = TiffEncodeBuffer::new::<LittleEndian>();
    assert!(little.is_little());
    assert_eq!(little.len(), 8);
    assert_eq!(little.to_bytes(), vec![b'I', b'I', 42, 0, 8, 0, 0, 0]);
    let big = TiffEncodeBuffer::new::<BigEndian>();
    assert!(!big.is_little());
    assert_eq!(big.to_bytes(), vec![b'M', b'M', 0, 42, 0, 0, 0, 8]);
}

#[test]
fn aligning_twice_adds_nothing() {
    let mut wrt = TiffEncodeBuffer::new::<LittleEndian>();
    assert_eq!(wrt.align_and_get_len(), 8);
    wrt.append_byte(7);
    assert_eq!(wrt.len(), 9);
    assert_eq!(wrt.align_and_get_len(), 10);
    assert_eq!(wrt.align_and_get_len(), 10);
    assert_eq!(wrt.len(), 10);
    assert_eq!(wrt.get(8), Some(7));
    assert_eq!(wrt.get(9), Some(0));
    assert_eq!(wrt.get(10), None);
}

#[test]
fn appending_and_overwriting() {
    let mut wrt = TiffEncodeBuffer::new::<BigEndian>();
    wrt.append_short(0x0102);
    wrt.append_long(0x03040506);
    wrt.append_urational(URational::new(1, 2));
    wrt.extend_bytes(&[9, 9]);
    assert!(wrt.set(8, 0xFF));
    assert!(!wrt.set(100, 0xFF));
    wrt.set_first_ifd_offset(0x0A0B0C0D);
    wrt.write_at(20, &[7, 8]);
    assert_eq!(
        wrt.to_bytes(),
        vec![
            b'M', b'M', 0, 42, 0x0A, 0x0B, 0x0C, 0x0D, 0xFF, 2, 3, 4, 5, 6, 0, 0, 0, 1, 0, 0, 7, 8,
            9, 9
        ]
    );
    let mut bytes = vec![1, 2, 3, 4, 5];
    overwrite(&mut bytes, 1, &[8, 9]);
    assert_eq!(bytes, vec![1, 8, 9, 4, 5]);
}

#[test]
fn values_that_fit_stand_in_the_entry() {
    let mut wrt = TiffEncodeBuffer::new::<LittleEndian>();
    assert_eq!(wrt.append_ifd_value(&Values::Bytes(vec![])), [0, 0, 0, 0]);
    assert_eq!(wrt.append_ifd_value(&Values::Bytes(vec![1, 2, 3])), [1, 2, 3, 0]);
    assert_eq!(wrt.append_ifd_value(&Values::Bytes(vec![1, 2, 3, 4])), [1, 2, 3, 4]);
    assert_eq!(wrt.append_ifd_value(&Values::Shorts(vec![])), [0, 0, 0, 0]);
    assert_eq!(wrt.append_ifd_value(&Values::Shorts(vec![0x0102])), [2, 1, 0, 0]);
    assert_eq!(wrt.append_ifd_value(&Values::Shorts(vec![0x0102, 0x0304])), [2, 1, 4, 3]);
    assert_eq!(wrt.append_ifd_value(&Values::Longs(vec![])), [0, 0, 0, 0]);
    assert_eq!(wrt.append_ifd_value(&Values::Longs(vec![0x01020304])), [4, 3, 2, 1]);
    assert_eq!(wrt.append_ifd_value(&Values::ASCII(String::new())), [0, 0, 0, 0]);
    assert_eq!(wrt.append_ifd_value(&Values::ASCII(String::from("abc"))), [b'a', b'b', b'c', 0]);
    assert_eq!(wrt.len(), 8);

    let mut big = TiffEncodeBuffer::new::<BigEndian>();
    assert_eq!(big.append_ifd_value(&Values::Shorts(vec![0x0102, 0x0304])), [1, 2, 3, 4]);
    assert_eq!(big.append_ifd_value(&Values::Longs(vec![0x01020304])), [1, 2, 3, 4]);
    assert_eq!(big.len(), 8);
}

#[test]
fn values_that_do_not_fit_stand_at_an_even_offset() {
    let mut wrt = TiffEncodeBuffer::new::<LittleEndian>();
    wrt.append_byte(0xEE);
    // 9 bytes so far: one zero byte is put before the values
    assert_eq!(wrt.append_ifd_value(&Values::Bytes(vec![1, 2, 3, 4, 5])), [10, 0, 0, 0]);
    assert_eq!(wrt.len(), 15);
    assert_eq!(wrt.append_ifd_value(&Values::Shorts(vec![1, 2, 3])), [16, 0, 0, 0]);
    assert_eq!(wrt.len(), 22);
    assert_eq!(wrt.append_ifd_value(&Values::Longs(vec![1, 2])), [22, 0, 0, 0]);
    assert_eq!(wrt.len(), 30);
    assert_eq!(
        wrt.append_ifd_value(&Values::Rationals(vec![URational::new(3, 4)])),
        [30, 0, 0, 0]
    );
    assert_eq!(wrt.len(), 38);
    assert_eq!(wrt.append_ifd_value(&Values::ASCII(String::from("abcd"))), [38, 0, 0, 0]);
    assert_eq!(wrt.len(), 43);
    assert_eq!(wrt.append_ifd_value(&Values::Rationals(vec![])), [44, 0, 0, 0]);
    assert_eq!(wrt.len(), 44);
    let bytes = wrt.to_bytes();
    assert_eq!(&bytes[8..15], &[0xEE, 0, 1, 2, 3, 4, 5]);
    assert_eq!(&bytes[15..22], &[0, 1, 0, 2, 0, 3, 0]);
    assert_eq!(&bytes[22..30], &[1, 0, 0, 0, 2, 0, 0, 0]);
    assert_eq!(&bytes[30..38], &[3, 0, 0, 0, 4, 0, 0, 0]);
    assert_eq!(&bytes[38..44], &[b'a', b'b', b'c', b'd', 0, 0]);
}

#[test]
fn field_types_and_counts() {
    assert_eq!(Values::Bytes(vec![1, 2]).field_type_tag(), Type::Byte);
    assert_eq!(Values::ASCII(String::from("ab")).field_type_tag(), Type::ASCII);
    assert_eq!(Values::Shorts(vec![1]).field_type_tag(), Type::Short);
    assert_eq!(Values::Longs(vec![1]).field_type_tag(), Type::Long);
    assert_eq!(Values::Rationals(vec![]).field_type_tag(), Type::Rational);
    assert_eq!(Values::Bytes(vec![1, 2]).num_values(), 2);
    assert_eq!(Values::ASCII(String::from("ab")).num_values(), 3);
    assert_eq!(Values::Shorts(vec![1, 2, 3]).num_values(), 3);
    assert_eq!(Values::Longs(vec![]).num_values(), 0);
    assert_eq!(Values::Rationals(vec![URational::new(1, 1)]).num_values(), 1);
    for (repr, kind) in
        [(1, Type::Byte), (2, Type::ASCII), (3, Type::Short), (4, Type::Long), (5, Type::Rational)]
    {
        assert_eq!(kind.repr(), repr);
        assert_eq!(Type::from_repr(repr), Some(kind));
    }
    assert_eq!(Type::from_repr(0), None);
    assert_eq!(Type::from_repr(6), None);
}

#[test]
fn tags_and_their_numbers() {
    let tags = [
        (254, Tag::NewSubFileType),
        (256, Tag::ImageWidth),
        (257, Tag::ImageLength),
        (258, Tag::BitsPerSample),
        (259, Tag::Compression),
        (262, Tag::PhotometricInterpretation),
        (273, Tag::StripOffsets),
        (277, Tag::SamplesPerPixel),
        (278, Tag::RowsPerStrip),
        (279, Tag::StripByteCounts),
        (282, Tag::XResolution),
        (283, Tag::YResolution),
        (284, Tag::PlanarConfiguration),
        (296, Tag::ResolutionUnit),
        (320, Tag::ColorMap),
        (322, Tag::TileWidth),
        (323, Tag::TileLength),
        (324, Tag::TileOffsets),
        (325, Tag::TileByteCounts),
        (512, Tag::JPEGProc),
        (519, Tag::JPEGQTables),
        (520, Tag::JPEGDCTables),
        (521, Tag::JPEGACTables),
    ];
    for (repr, tag) in tags {
        assert_eq!(tag.repr(), repr);
        assert_eq!(Tag::from_repr(repr), Some(tag));
    }
    assert_eq!(Tag::from_repr(255), None);
    assert_eq!(Tag::from_repr(0), None);

    assert_eq!(PhotometricInterpretation::from_repr(0), Some(PhotometricInterpretation::WhiteIsZero));
    assert_eq!(PhotometricInterpretation::from_repr(1), Some(PhotometricInterpretation::BlackIsZero));
    assert_eq!(PhotometricInterpretation::from_repr(2), Some(PhotometricInterpretation::RGB));
    assert_eq!(PhotometricInterpretation::from_repr(3), Some(PhotometricInterpretation::PaletteColor));
    assert_eq!(PhotometricInterpretation::from_repr(4), None);
    assert_eq!(PhotometricInterpretation::PaletteColor.repr(), 3);
    assert_eq!(Compression::from_repr(1), Some(Compression::NoCompression));
    assert_eq!(Compression::from_repr(2), Some(Compression::Huffman));
    assert_eq!(Compression::from_repr(5), Some(Compression::Lzw));
    assert_eq!(Compression::from_repr(32773), Some(Compression::PackBits));
    assert_eq!(Compression::from_repr(3), None);
    assert_eq!(Compression::PackBits.repr(), 32773);
    assert_eq!(Compression::default(), Compression::NoCompression);
    assert_eq!(ResolutionUnit::from_repr(1), Some(ResolutionUnit::NoUnit));
    assert_eq!(ResolutionUnit::from_repr(2), Some(ResolutionUnit::Inch));
    assert_eq!(ResolutionUnit::from_repr(3), Some(ResolutionUnit::Centimeter));
    assert_eq!(ResolutionUnit::from_repr(0), None);
    assert_eq!(ResolutionUnit::Centimeter.repr(), 3);
    assert_eq!(ResolutionUnit::default(), ResolutionUnit::Inch);
}

#[test]
fn length_of_a_directory() {
    assert_eq!(ENTRY_COUNT_LEN, 2);
    assert_eq!(ENTRY_LEN, 12);
    assert_eq!(NEXT_IFD_OFFSET_LEN, 4);
    assert_eq!(get_len(0), 6);
    assert_eq!(get_len(9), 114);
}

fn some_entries() -> Vec<Entry> {
    vec![
        Entry::new(Tag::ImageWidth, Values::Longs(vec![5])),
        Entry::new(Tag::BitsPerSample, Values::Shorts(vec![8, 8, 8])),
        Entry::new(Tag::XResolution, Values::Rationals(vec![URational::new(72, 1)])),
        Entry::new(Tag::ColorMap, Values::Bytes(vec![1, 2, 3, 4, 5])),
    ]
}

#[test]
fn directory_is_written_in_the_order_of_the_tags() {
    let mut wrt = TiffEncodeBuffer::new::<LittleEndian>();
    wrt.append_byte(1);
    let IfdInfo { inx, entry_count } = encode_ifds(&mut wrt, &some_entries());
    assert_eq!(inx, 10);
    assert_eq!(entry_count, 4);
    let bytes = wrt.to_bytes();
    let mut expected: Vec<u8> = vec![b'I', b'I', 42, 0, 8, 0, 0, 0, 1, 0];
    expected.extend_from_slice(&[4, 0]);
    // the directory ends at 10 + 2 + 48 + 4 = 64
    expected.extend_from_slice(&[0, 1, 4, 0, 1, 0, 0, 0, 5, 0, 0, 0]);
    expected.extend_from_slice(&[2, 1, 3, 0, 3, 0, 0, 0, 64, 0, 0, 0]);
    expected.extend_from_slice(&[26, 1, 5, 0, 1, 0, 0, 0, 70, 0, 0, 0]);
    expected.extend_from_slice(&[64, 1, 1, 0, 5, 0, 0, 0, 78, 0, 0, 0]);
    expected.extend_from_slice(&[0, 0, 0, 0]);
    expected.extend_from_slice(&[8, 0, 8, 0, 8, 0]);
    expected.extend_from_slice(&[72, 0, 0, 0, 1, 0, 0, 0]);
    expected.extend_from_slice(&[1, 2, 3, 4, 5]);
    assert_eq!(bytes, expected);
    // the tags ascend strictly
    let tags: Vec<u16> = (0..entry_count)
        .map(|i| u16::from_le_bytes([bytes[inx + 2 + 12 * i], bytes[inx + 3 + 12 * i]]))
        .collect();
    assert!(tags.windows(2).all(|pair| pair[0] < pair[1]));
}

#[test]
fn entry_written_in_place() {
    let mut wrt = TiffEncodeBuffer::new::<BigEndian>();
    let inx = wrt.append_new_ifd(1);
    assert_eq!(inx, 8);
    assert_eq!(wrt.len(), 8 + 2 + 12 + 4);
    let entry = Entry::new(Tag::StripOffsets, Values::Longs(vec![7, 9]));
    assert_eq!(entry.tag(), Tag::StripOffsets);
    assert!(matches!(entry.values(), Values::Longs(v) if v == &vec![7u32, 9]));
    entry.encode(&mut wrt, inx + 2);
    wrt.set_next_ifd_offset(inx, 1, 0x01020304);
    let bytes = wrt.to_bytes();
    assert_eq!(&bytes[8..10], &[0, 1]);
    assert_eq!(&bytes[10..22], &[1, 17, 0, 4, 0, 0, 0, 2, 0, 0, 0, 26]);
    assert_eq!(&bytes[22..26], &[1, 2, 3, 4]);
    assert_eq!(&bytes[26..], &[0, 0, 0, 7, 0, 0, 0, 9]);

    // the values alone leave the tag as it is
    let mut wrt = TiffEncodeBuffer::new::<LittleEndian>();
    let inx = wrt.append_new_ifd(1);
    Values::Shorts(vec![3]).encode(&mut wrt, inx + 2);
    let bytes = wrt.to_bytes();
    assert_eq!(&bytes[10..22], &[0, 0, 3, 0, 1, 0, 0, 0, 3, 0, 0, 0]);
    assert!(matches!(
        Entry::new(Tag::ImageWidth, Values::Bytes(vec![1])).into_values(),
        Values::Bytes(v) if v == vec![1u8]
    ));
}
