use byteorder::LittleEndian;
use tiff_codec::compression::{Compression, Lzw, NoCompression, PackBits};
use tiff_codec::colors::Bilevel;
use tiff_codec::decode::compression::{tag_to_decompressor, DecompressionImpl, Decompressor};
use tiff_codec::decode::DecodeError;
use tiff_codec::encode::buffer::TiffEncodeBuffer;
use tiff_codec::encode::compression::{lzw, packbits, CompressionImpl};
use tiff_codec::ifd::tags;
use tiff_codec::lzw::{append_code, get_bitcount, lzw_bits, lzw_decode, lzw_encode};
use tiff_codec::packbits::{encode_replicate_run, encode_run, pack_bytes, unpack_bytes, Run};
use tiff_codec::packers::{
    pack_bit_rows, pack_bits, pack_half_rows, pack_halves, unpack_bits, unpack_halves, BitPacker,
    HalfBytePacker,
};

fn noise(len: usize, symbols: u32) -> Vec<u8> {
    let mut out = Vec::new();
    let mut x: u32 = 12345;
    for _ in 0..len {
        x = x.wrapping_mul(1103515245).wrapping_add(12345);
        out.push(((x >> 16) % symbols) as u8);
    }
    out
}

#[test]
fn packbits_packs_runs_and_literals() {
    let input = [0xAA, 0xAA, 0xAA, 0xAA, 0xBB, 0xCC, 0xCC, 0xCC, 0xCC, 0xCC];
    let packed = pack_bytes(&input);
    // four times AA, then BB alone as literal data, then five times CC
    assert_eq!(packed, vec![0xFD, 0xAA, 0x00, 0xBB, 0xFC, 0xCC]);
    assert_eq!(unpack_bytes(&packed), Some(input.to_vec()));
}

#[test]
fn packbits_of_nothing_and_of_one_byte() {
    assert_eq!(pack_bytes(&[]), Vec::<u8>::new());
    assert_eq!(unpack_bytes(&[]), Some(vec![]));
    assert_eq!(pack_bytes(&[9]), vec![0, 9]);
    assert_eq!(pack_bytes(&[9, 9]), vec![0xFF, 9]);
    assert_eq!(pack_bytes(&[9, 9, 9]), vec![0xFE, 9]);
}

#[test]
fn packbits_splits_long_runs() {
    assert_eq!(pack_bytes(&[5u8; 128]), vec![0x81, 5]);
    assert_eq!(pack_bytes(&[5u8; 129]), vec![0x81, 5, 0, 5]);
    assert_eq!(pack_bytes(&[5u8; 130]), vec![0x81, 5, 0xFF, 5]);
    assert_eq!(pack_bytes(&[5u8; 300]), vec![0x81, 5, 0x81, 5, 0xD5, 5]);
    assert_eq!(unpack_bytes(&pack_bytes(&[5u8; 300])), Some(vec![5u8; 300]));
}

#[test]
fn packbits_takes_two_equal_bytes_into_an_open_literal_run() {
    // a literal run is open after 1: the two 2s join it
    assert_eq!(pack_bytes(&[1, 2, 2, 3]), vec![3, 1, 2, 2, 3]);
    // no literal run is open after the three 1s: the two 2s are a run
    assert_eq!(pack_bytes(&[1, 1, 1, 2, 2, 3]), vec![0xFE, 1, 0xFF, 2, 0, 3]);
}

#[test]
fn packbits_literal_runs_hold_at_most_128_bytes() {
    let input: Vec<u8> = (0..200u32).map(|i| (i % 251) as u8).collect();
    let packed = pack_bytes(&input);
    assert_eq!(packed[0], 127);
    assert_eq!(&packed[1..129], &input[0..128]);
    assert_eq!(packed[129], 71);
    assert_eq!(&packed[130..], &input[128..]);
    assert_eq!(unpack_bytes(&packed), Some(input));

    // 127 different bytes, then two equal ones: the first fills the literal
    // run, the second opens a new one
    let mut input: Vec<u8> = (0..127u8).collect();
    input.extend_from_slice(&[200, 200, 7]);
    let packed = pack_bytes(&input);
    assert_eq!(packed[0], 127);
    assert_eq!(packed[128], 200);
    assert_eq!(&packed[129..], &[1, 200, 7]);
    assert_eq!(unpack_bytes(&packed), Some(input));

    // 128 different bytes, then two equal ones: the literal run is full
    let mut input: Vec<u8> = (0..128u8).collect();
    input.extend_from_slice(&[200, 200, 7]);
    let packed = pack_bytes(&input);
    assert_eq!(packed[0], 127);
    assert_eq!(&packed[129..], &[0xFF, 200, 0, 7]);
    assert_eq!(unpack_bytes(&packed), Some(input));
}

#[test]
fn packbits_single_runs() {
    let mut out = vec![9];
    encode_replicate_run(&mut out, Run { byte: 7, len: 2 });
    encode_replicate_run(&mut out, Run { byte: 8, len: 128 });
    assert_eq!(out, vec![9, 0xFF, 7, 0x81, 8]);
    assert_eq!(encode_run(&mut out, Run { byte: 1, len: 1 }, None), Some(5));
    assert_eq!(encode_run(&mut out, Run { byte: 2, len: 1 }, Some(5)), Some(5));
    assert_eq!(encode_run(&mut out, Run { byte: 3, len: 2 }, Some(5)), Some(5));
    assert_eq!(encode_run(&mut out, Run { byte: 4, len: 3 }, Some(5)), None);
    assert_eq!(encode_run(&mut out, Run { byte: 5, len: 2 }, None), None);
    assert_eq!(out, vec![9, 0xFF, 7, 0x81, 8, 3, 1, 2, 3, 3, 0xFE, 4, 0xFF, 5]);
}

#[test]
fn packbits_round_trip_of_noise() {
    for symbols in [2, 3, 256] {
        let input = noise(5000, symbols);
        assert_eq!(unpack_bytes(&pack_bytes(&input)), Some(input));
    }
}

#[test]
fn unpacking_skips_the_empty_packet_and_refuses_cut_packets() {
    assert_eq!(unpack_bytes(&[0x80, 0x80, 0, 7, 0x80]), Some(vec![7]));
    assert_eq!(unpack_bytes(&[0xFD, 1, 2, 5, 6, 7]), Some(vec![1, 1, 1, 1, 5, 6, 7]));
    assert_eq!(unpack_bytes(&[2, 5, 6]), None);
    assert_eq!(unpack_bytes(&[0]), None);
    assert_eq!(unpack_bytes(&[0xFE]), None);
}

#[test]
fn lzw_begins_with_clear_and_ends_with_end_of_information() {
    // 100000000 100000001, then zeros
    assert_eq!(lzw_encode(&[]), vec![0x80, 0x40, 0x40]);
    // 100000000 000000111 100000001, then zeros
    assert_eq!(lzw_encode(&[7]), vec![0x80, 0x01, 0xE0, 0x20]);
    let bits = lzw_bits(&[7, 7, 7]);
    // clear, 7, 258, end of information
    assert_eq!(bits.len(), 36);
    let code = |i: usize| bits[9 * i..9 * i + 9].iter().fold(0u16, |v, b| 2 * v + *b as u16);
    assert_eq!(code(0), 256);
    assert_eq!(code(1), 7);
    assert_eq!(code(2), 258);
    assert_eq!(code(3), 257);
    assert_eq!(lzw_decode(&lzw_encode(&[])), Some(vec![]));
    assert_eq!(lzw_decode(&lzw_encode(&[7])), Some(vec![7]));
    assert_eq!(lzw_decode(&lzw_encode(&[7, 7, 7])), Some(vec![7, 7, 7]));
}

#[test]
fn lzw_code_widths() {
    assert_eq!(get_bitcount(258), 9);
    assert_eq!(get_bitcount(511), 9);
    assert_eq!(get_bitcount(512), 10);
    assert_eq!(get_bitcount(1023), 10);
    assert_eq!(get_bitcount(1024), 11);
    assert_eq!(get_bitcount(2047), 11);
    assert_eq!(get_bitcount(2048), 12);
    assert_eq!(get_bitcount(4094), 12);
    let mut bits = vec![true];
    append_code(&mut bits, 0b101, 4);
    append_code(&mut bits, 256, 9);
    assert_eq!(
        bits,
        vec![
            true, false, true, false, true, true, false, false, false, false, false, false, false,
            false
        ]
    );
}

#[test]
fn lzw_round_trip_small() {
    let input = [7u8, 7, 7, 8, 8, 7, 7, 6, 6, 5, 5, 6, 6, 7, 7];
    let packed = lzw_encode(&input);
    assert_eq!(lzw_decode(&packed), Some(input.to_vec()));
}

#[test]
fn lzw_round_trip_of_every_length_near_the_width_changes() {
    // with 256 symbols nearly every byte adds a string to the dictionary, so
    // the widths change near 254, 766 and 1790 bytes, and the dictionary is
    // emptied near 3837
    let input = noise(4200, 256);
    for len in (240..270).chain(750..790).chain(1780..1800).chain(3820..3860) {
        let part = &input[..len];
        assert_eq!(lzw_decode(&lzw_encode(part)), Some(part.to_vec()));
    }
    let ones = vec![1u8; 3000];
    for len in 0..300 {
        assert_eq!(lzw_decode(&lzw_encode(&ones[..len])), Some(ones[..len].to_vec()));
    }
}

#[test]
fn lzw_round_trip_crosses_clear() {
    let mut input = noise(200000, 7);
    input.extend(noise(60000, 256));
    let packed = lzw_encode(&input);
    assert!(packed.len() < input.len());
    assert_eq!(lzw_decode(&packed), Some(input));
}

#[test]
fn lzw_refuses_what_is_no_stream() {
    assert_eq!(lzw_decode(&[]), None);
    // clear alone, no end of information
    assert_eq!(lzw_decode(&[0x80]), None);
    assert_eq!(lzw_decode(&[0x80, 0x00]), None);
    // clear, then the code 300, which stands for nothing yet
    // 100000000 100101100
    assert_eq!(lzw_decode(&[0x80, 0x4B, 0x00]), None);
    // clear, 7, then the code 259 where only 258 can follow
    // 100000000 000000111 100000011
    assert_eq!(lzw_decode(&[0x80, 0x01, 0xE0, 0x60]), None);
    // cut before the end of information
    let packed = lzw_encode(&[1, 2, 3, 4, 5, 6]);
    assert_eq!(lzw_decode(&packed[..packed.len() - 2]), None);
}

#[test]
fn lzw_reads_a_stream_without_a_first_clear_and_with_clear_in_between() {
    // 7, end of information: 000000111 100000001
    assert_eq!(lzw_decode(&[0x03, 0xC0, 0x40]), Some(vec![7]));
    // clear, 7, clear, 8, end: 100000000 000000111 100000000 000001000 100000001
    assert_eq!(lzw_decode(&[0x80, 0x01, 0xE0, 0x00, 0x88, 0x08]), Some(vec![7, 8]));
}

#[test]
fn bits_and_half_bytes_are_packed_high_first() {
    assert_eq!(pack_bits(&vec![]), Vec::<u8>::new());
    assert_eq!(pack_bits(&vec![true]), vec![0x80]);
    assert_eq!(
        pack_bits(&vec![false, true, false, false, false, false, false, true, true, true]),
        vec![0x41, 0xC0]
    );
    assert_eq!(BitPacker::new(vec![true, true, false, true]).pack(), vec![0xD0]);
    assert_eq!(
        unpack_bits(&[0xA1]),
        vec![true, false, true, false, false, false, false, true]
    );
    assert_eq!(pack_halves(&vec![]), Vec::<u8>::new());
    assert_eq!(pack_halves(&vec![1, 2, 3]), vec![0x12, 0x30]);
    assert_eq!(HalfBytePacker::new(vec![15, 0, 9, 9]).pack(), vec![0xF0, 0x99]);
    assert_eq!(unpack_halves(&[0x12, 0x30]), vec![1, 2, 3, 0]);
}

#[test]
fn rows_begin_a_byte() {
    let bits = vec![true, false, true, false, true, true];
    assert_eq!(pack_bit_rows(&bits, 3, 2), vec![0xA0, 0x60]);
    assert_eq!(pack_bit_rows(&bits, 6, 1), vec![0xAC]);
    assert_eq!(pack_bit_rows(&bits, 1, 6), vec![0x80, 0, 0x80, 0, 0x80, 0x80]);
    let halves = vec![1, 2, 3, 4, 5, 6];
    assert_eq!(pack_half_rows(&halves, 3, 2), vec![0x12, 0x30, 0x45, 0x60]);
    assert_eq!(pack_half_rows(&halves, 2, 3), vec![0x12, 0x34, 0x56]);
}

#[test]
fn compression_as_types() {
    assert_eq!(CompressionImpl::compression_tag(&NoCompression), tags::Compression::NoCompression);
    assert_eq!(CompressionImpl::compression_tag(&PackBits), tags::Compression::PackBits);
    assert_eq!(CompressionImpl::compression_tag(&Lzw), tags::Compression::Lzw);
    assert_eq!(
        <NoCompression as Compression<Bilevel>>::compression_type_tag(&NoCompression),
        tags::Compression::NoCompression
    );
    assert_eq!(
        <PackBits as Compression<Bilevel>>::compression_type_tag(&PackBits),
        tags::Compression::PackBits
    );
    assert_eq!(
        <Lzw as Compression<Bilevel>>::compression_type_tag(&Lzw),
        tags::Compression::Lzw
    );
    let input = [4u8, 4, 4, 4, 9];
    let mut wrt = TiffEncodeBuffer::new::<LittleEndian>();
    NoCompression.encode(&mut wrt, &input);
    PackBits.encode(&mut wrt, &input);
    packbits(&mut wrt, &input);
    let at = wrt.len();
    Lzw.encode(&mut wrt, &input);
    lzw(&mut wrt, &input);
    let bytes = wrt.to_bytes();
    assert_eq!(&bytes[8..13], &input);
    assert_eq!(&bytes[13..17], &[0xFD, 4, 0, 9]);
    assert_eq!(&bytes[17..21], &[0xFD, 4, 0, 9]);
    let packed = lzw_encode(&input);
    assert_eq!(&bytes[at..at + packed.len()], &packed[..]);
    assert_eq!(&bytes[at + packed.len()..], &packed[..]);

    assert_eq!(NoCompression.decompress(&input), Some(input.to_vec()));
    assert_eq!(PackBits.decompress(&[0xFD, 4, 0, 9]), Some(input.to_vec()));
    assert_eq!(Lzw.decompress(&packed), Some(input.to_vec()));
    assert_eq!(PackBits.decompress(&[0xFD]), None);
}

#[test]
fn decompressor_for_a_tag() {
    assert_eq!(tag_to_decompressor(tags::Compression::NoCompression), Ok(Decompressor::NoCompression));
    assert_eq!(tag_to_decompressor(tags::Compression::PackBits), Ok(Decompressor::PackBits));
    assert_eq!(tag_to_decompressor(tags::Compression::Lzw), Ok(Decompressor::Lzw));
    assert_eq!(
        tag_to_decompressor(tags::Compression::Huffman),
        Err(DecodeError::UnsupportedCompressionType)
    );
    assert_eq!(Decompressor::PackBits.decompress(&[0xFE, 3]), Some(vec![3, 3, 3]));
    assert_eq!(Decompressor::NoCompression.decompress(&[1, 2]), Some(vec![1, 2]));
    assert_eq!(Decompressor::Lzw.decompress(&lzw_encode(&[1, 2])), Some(vec![1, 2]));
}
