//! The ways a strip can be compressed, as types.

use crate::colors::Color;
use crate::decode::compression::DecompressionImpl;
use crate::encode::compression::CompressionImpl;
use crate::ifd::tags;
use vstd::prelude::*;

verus! {

/// A way to compress the strip of an image of colors `C`, and to
/// decompress it again.
pub trait Compression<C: Color>: CompressionImpl + DecompressionImpl {
    /// The value of the compression field that stands for this way.
    fn compression_type_tag(&self) -> (tag: tags::Compression)
        ensures
            tag == self.codec(),
    ;
}

/// The strip holds the samples as they are.
#[derive(Clone, Copy)]
pub struct NoCompression;

/// The strip holds the samples as PackBits runs.
#[derive(Clone, Copy)]
pub struct PackBits;

/// The strip holds the samples as LZW codes.
#[derive(Clone, Copy)]
pub struct Lzw;

impl<C: Color> Compression<C> for NoCompression {
    fn compression_type_tag(&self) -> (tag: tags::Compression) {
        tags::Compression::NoCompression
    }
}

impl<C: Color> Compression<C> for PackBits {
    fn compression_type_tag(&self) -> (tag: tags::Compression) {
        tags::Compression::PackBits
    }
}

impl<C: Color> Compression<C> for Lzw {
    fn compression_type_tag(&self) -> (tag: tags::Compression) {
        tags::Compression::Lzw
    }
}

} // verus!
