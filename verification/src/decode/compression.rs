//! Decompressing the bytes of a strip.

use crate::compression::{Lzw, NoCompression, PackBits};
use crate::decode::DecodeError;
use crate::encode::compression::compressed;
use crate::ifd::tags;
use crate::lzw::{lemma_lzw_round_trip, lzw_decode, lzw_decompressed};
use crate::packbits::{lemma_packbits_round_trip, unpack_bytes, unpacked};
use vstd::prelude::*;

verus! {

/// The samples that the bytes of a strip hold under the given compression;
/// `None` if the bytes are no such strip, or the compression is CCITT
/// Huffman coding, which this library does not read.
pub open spec fn decompressed(codec: tags::Compression, strip: Seq<u8>) -> Option<Seq<u8>> {
    match codec {
        tags::Compression::NoCompression => Some(strip),
        tags::Compression::PackBits => unpacked(strip),
        tags::Compression::Lzw => lzw_decompressed(strip),
        tags::Compression::Huffman => None,
    }
}

/// Decompressing a compressed strip gives the samples back.
pub proof fn lemma_codec_round_trip(codec: tags::Compression, samples: Seq<u8>)
    requires
        codec != tags::Compression::Huffman,
    ensures
        decompressed(codec, compressed(codec, samples)) == Some(samples),
{
    match codec {
        tags::Compression::NoCompression => {},
        tags::Compression::PackBits => {
            lemma_packbits_round_trip(samples);
        },
        tags::Compression::Lzw => {
            lemma_lzw_round_trip(samples);
        },
        tags::Compression::Huffman => {},
    }
}

/// A way to decompress the bytes of a strip.
pub trait DecompressionImpl {
    /// The value of the compression field that stands for this way.
    spec fn decoder(&self) -> tags::Compression;

    /// The samples that the strip holds; `None` if the bytes are no strip of
    /// this compression.
    fn decompress(&self, bytes: &[u8]) -> (r: Option<Vec<u8>>)
        ensures
            match decompressed(self.decoder(), bytes@) {
                Some(samples) => r matches Some(v) && v@ == samples,
                None => r is None,
            },
    ;
}

impl DecompressionImpl for NoCompression {
    open spec fn decoder(&self) -> tags::Compression {
        tags::Compression::NoCompression
    }

    fn decompress(&self, bytes: &[u8]) -> (r: Option<Vec<u8>>) {
        let mut samples: Vec<u8> = Vec::new();
        crate::byte_order::append_bytes(&mut samples, bytes);
        Some(samples)
    }
}

impl DecompressionImpl for PackBits {
    open spec fn decoder(&self) -> tags::Compression {
        tags::Compression::PackBits
    }

    fn decompress(&self, bytes: &[u8]) -> (r: Option<Vec<u8>>) {
        unpack_bytes(bytes)
    }
}

impl DecompressionImpl for Lzw {
    open spec fn decoder(&self) -> tags::Compression {
        tags::Compression::Lzw
    }

    fn decompress(&self, bytes: &[u8]) -> (r: Option<Vec<u8>>) {
        lzw_decode(bytes)
    }
}

/// The three ways in which this library reads a strip.
#[derive(Clone, Copy, Debug, PartialEq, Eq, Structural)]
pub enum Decompressor {
    NoCompression,
    PackBits,
    Lzw,
}

impl DecompressionImpl for Decompressor {
    open spec fn decoder(&self) -> tags::Compression {
        match self {
            Decompressor::NoCompression => tags::Compression::NoCompression,
            Decompressor::PackBits => tags::Compression::PackBits,
            Decompressor::Lzw => tags::Compression::Lzw,
        }
    }

    fn decompress(&self, bytes: &[u8]) -> (r: Option<Vec<u8>>) {
        match self {
            Decompressor::NoCompression => NoCompression.decompress(bytes),
            Decompressor::PackBits => PackBits.decompress(bytes),
            Decompressor::Lzw => Lzw.decompress(bytes),
        }
    }
}

/// The decompressor for a value of the compression field. CCITT Huffman
/// coding is not supported.
pub fn tag_to_decompressor(tag: tags::Compression) -> (r: Result<Decompressor, DecodeError>)
    ensures
        match r {
            Ok(d) => d.decoder() == tag && tag != tags::Compression::Huffman,
            Err(e) => tag == tags::Compression::Huffman && e
                == DecodeError::UnsupportedCompressionType,
        },
{
    match tag {
        tags::Compression::NoCompression => Ok(Decompressor::NoCompression),
        tags::Compression::Huffman => Err(DecodeError::UnsupportedCompressionType),
        tags::Compression::Lzw => Ok(Decompressor::Lzw),
        tags::Compression::PackBits => Ok(Decompressor::PackBits),
    }
}

} // verus!
