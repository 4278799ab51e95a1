//! Compressing the samples of a strip into the buffer.

pub use crate::compression::{Compression, Lzw, NoCompression, PackBits};
use crate::encode::buffer::TiffEncodeBuffer;
use crate::ifd::tags;
use crate::lzw::{lzw_compressed, lzw_encode};
use crate::packbits::{pack_bytes, packed};
use vstd::prelude::*;

verus! {

/// The strip that holds `samples` under the given compression. CCITT
/// Huffman coding is not written by this library.
pub open spec fn compressed(codec: tags::Compression, samples: Seq<u8>) -> Seq<u8>
    recommends
        codec != tags::Compression::Huffman,
{
    match codec {
        tags::Compression::NoCompression => samples,
        tags::Compression::PackBits => packed(samples),
        tags::Compression::Lzw => lzw_compressed(samples),
        tags::Compression::Huffman => samples,
    }
}

/// Writes bytes using PackBit compression.
pub fn packbits(wrt: &mut TiffEncodeBuffer, bytes: &[u8])
    ensures
        final(wrt).little() == old(wrt).little(),
        final(wrt)@ == old(wrt)@ + packed(bytes@),
{
    let packed = pack_bytes(bytes);
    wrt.extend_bytes(packed.as_slice());
}

/// Writes bytes using LZW compression.
pub fn lzw(wrt: &mut TiffEncodeBuffer, bytes: &[u8])
    ensures
        final(wrt).little() == old(wrt).little(),
        final(wrt)@ == old(wrt)@ + lzw_compressed(bytes@),
{
    let compressed = lzw_encode(bytes);
    wrt.extend_bytes(compressed.as_slice());
}

/// A way to compress samples into the buffer.
pub trait CompressionImpl {
    /// The value of the compression field that stands for this way.
    spec fn codec(&self) -> tags::Compression;

    /// The value of the compression field that stands for this way. It is
    /// never CCITT Huffman coding.
    fn compression_tag(&self) -> (tag: tags::Compression)
        ensures
            tag == self.codec(),
            tag != tags::Compression::Huffman,
    ;

    /// Appends the compressed form of `bytes` to the buffer.
    fn encode(&self, wrt: &mut TiffEncodeBuffer, bytes: &[u8])
        ensures
            final(wrt).little() == old(wrt).little(),
            final(wrt)@ == old(wrt)@ + compressed(self.codec(), bytes@),
    ;
}

impl CompressionImpl for NoCompression {
    open spec fn codec(&self) -> tags::Compression {
        tags::Compression::NoCompression
    }

    fn compression_tag(&self) -> (tag: tags::Compression) {
        tags::Compression::NoCompression
    }

    fn encode(&self, wrt: &mut TiffEncodeBuffer, bytes: &[u8]) {
        wrt.extend_bytes(bytes)
    }
}

impl CompressionImpl for PackBits {
    open spec fn codec(&self) -> tags::Compression {
        tags::Compression::PackBits
    }

    fn compression_tag(&self) -> (tag: tags::Compression) {
        tags::Compression::PackBits
    }

    fn encode(&self, wrt: &mut TiffEncodeBuffer, bytes: &[u8]) {
        packbits(wrt, bytes)
    }
}

impl CompressionImpl for Lzw {
    open spec fn codec(&self) -> tags::Compression {
        tags::Compression::Lzw
    }

    fn compression_tag(&self) -> (tag: tags::Compression) {
        tags::Compression::Lzw
    }

    fn encode(&self, wrt: &mut TiffEncodeBuffer, bytes: &[u8]) {
        lzw(wrt, bytes)
    }
}

} // verus!
