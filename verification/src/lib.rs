//! Reading and writing baseline TIFF files, on byte buffers.
//!
//! The container (header, chain of image file directories), the strip
//! codecs (uncompressed, PackBits, LZW) and the photometric pipelines
//! (bilevel, 4-bit and 8-bit grayscale, RGB, palette) are executable code
//! whose behaviour is stated in contracts over sequences of bytes.

pub mod byte_order;
pub mod colors;
pub mod compression;
pub mod decode;
pub mod encode;
pub mod ifd;
pub mod lzw;
pub mod packbits;
pub mod packers;
pub mod round_trip;
pub mod types;

use colors::Color;
use vstd::prelude::*;

verus! {

/// An image as a sequence of pixels, left to right, then top to bottom.
pub struct ImageView<C> {
    pub pixels: Seq<C>,
    pub width: nat,
    pub height: nat,
}

/// A matrix of pixels that is not empty.
pub struct Image<C: Color> {
    /// Pixels arranged left to right, then top to bottom
    pixels: Vec<C>,
    width: usize,
    height: usize,
}

/// Why pixels do not make an image.
#[derive(Debug)]
pub enum ImageCreateError {
    DimensionMismatch { width: usize, height: usize, pixel_count: usize },
    NoPixels,
}

impl<C: Color> View for Image<C> {
    type V = ImageView<C>;

    closed spec fn view(&self) -> ImageView<C> {
        ImageView { pixels: self.pixels@, width: self.width as nat, height: self.height as nat }
    }
}

impl<C> ImageView<C> {
    /// There are `width` times `height` pixels, and at least one.
    pub open spec fn wf(self) -> bool {
        &&& self.pixels.len() == self.width * self.height
        &&& self.pixels.len() > 0
    }

    /// Row `i` of the image.
    pub open spec fn row(self, i: int) -> Seq<C> {
        self.pixels.subrange(i * self.width, (i + 1) * self.width)
    }
}

impl<C: Color> Image<C> {
    #[verifier::type_invariant]
    spec fn inv(self) -> bool {
        self@.wf()
    }

    /// Pixels are arranged left to right, then top to bottom. There must be
    /// `width * height` of them, and at least one.
    pub fn new(pixels: Vec<C>, width: usize, height: usize) -> (r: Self)
        requires
            pixels@.len() == width * height,
            pixels@.len() > 0,
        ensures
            r@ == (ImageView { pixels: pixels@, width: width as nat, height: height as nat }),
            r@.wf(),
    {
        Self { pixels, width, height }
    }

    /// Pixels are arranged left to right, then top to bottom.
    pub fn try_new(pixels: Vec<C>, width: usize, height: usize) -> (r: Result<
        Self,
        ImageCreateError,
    >)
        ensures
            match r {
                Ok(image) => {
                    &&& pixels@.len() == width * height
                    &&& pixels@.len() > 0
                    &&& image@ == (ImageView {
                        pixels: pixels@,
                        width: width as nat,
                        height: height as nat,
                    })
                    &&& image@.wf()
                },
                Err(ImageCreateError::DimensionMismatch { width: w, height: h, pixel_count }) => {
                    &&& pixels@.len() != width * height
                    &&& w == width
                    &&& h == height
                    &&& pixel_count == pixels@.len()
                },
                Err(ImageCreateError::NoPixels) => {
                    &&& pixels@.len() == width * height
                    &&& pixels@.len() == 0
                },
            },
    {
        let matches = match width.checked_mul(height) {
            Some(product) => product == pixels.len(),
            None => false,
        };
        if !matches {
            Err(ImageCreateError::DimensionMismatch { width, height, pixel_count: pixels.len() })
        } else if pixels.len() == 0 {
            Err(ImageCreateError::NoPixels)
        } else {
            Ok(Self { pixels, width, height })
        }
    }

    /// The number of pixels in a row.
    pub fn width(&self) -> (r: usize)
        ensures
            r == self@.width,
            self@.wf(),
    {
        proof {
            use_type_invariant(self);
        }
        self.width
    }

    /// The number of rows.
    pub fn height(&self) -> (r: usize)
        ensures
            r == self@.height,
            self@.wf(),
    {
        proof {
            use_type_invariant(self);
        }
        self.height
    }

    /// The pixels, left to right, then top to bottom.
    pub fn pixels(&self) -> (r: &Vec<C>)
        ensures
            r@ == self@.pixels,
            self@.wf(),
    {
        proof {
            use_type_invariant(self);
        }
        &self.pixels
    }

    /// The pixels, left to right, then top to bottom.
    pub fn into_pixels(self) -> (r: Vec<C>)
        ensures
            r@ == self@.pixels,
    {
        self.pixels
    }
}

impl<C: Color + Copy> Image<C> {
    /// The rows of the image, top to bottom, each left to right.
    pub fn iter_pixels(&self) -> (r: Vec<Vec<C>>)
        ensures
            r@.len() == self@.height,
            forall|i: int| 0 <= i < r@.len() ==> (#[trigger] r@[i])@ == self@.row(i),
    {
        proof {
            use_type_invariant(self);
        }
        let mut rows: Vec<Vec<C>> = Vec::new();
        let count: usize = self.pixels.len();
        let mut y: usize = 0;
        while y < self.height
            invariant
                y <= self.height,
                self@.wf(),
                count == self.pixels@.len(),
                rows@.len() == y,
                forall|i: int| 0 <= i < rows@.len() ==> (#[trigger] rows@[i])@ == self@.row(i),
            decreases self.height - y,
        {
            let mut row: Vec<C> = Vec::new();
            let mut x: usize = 0;
            proof {
                lemma_row_in_bounds(self.width as int, self.height as int, y as int);
            }
            let start: usize = y * self.width;
            while x < self.width
                invariant
                    x <= self.width,
                    y < self.height,
                    self@.wf(),
                    count == self.pixels@.len(),
                    start == y * self.width,
                    start + self.width <= self.pixels@.len(),
                    row@ == self.pixels@.subrange(start as int, start + x),
                decreases self.width - x,
            {
                row.push(self.pixels[start + x]);
                assert(row@ =~= self.pixels@.subrange(start as int, start + x + 1));
                x += 1;
            }
            assert((y + 1) * self.width == start + self.width) by (nonlinear_arith)
                requires
                    start == y * self.width,
            ;
            rows.push(row);
            y += 1;
        }
        rows
    }
}

/// Row `y` of `height` rows of `width` lies within the `width * height`
/// pixels.
pub proof fn lemma_row_in_bounds(width: int, height: int, y: int)
    requires
        0 <= y < height,
        0 <= width,
    ensures
        0 <= y * width,
        y * width + width <= width * height,
        (y + 1) * width == y * width + width,
{
    assert(y * width + width == (y + 1) * width) by (nonlinear_arith);
    assert((y + 1) * width <= height * width) by (nonlinear_arith)
        requires
            y + 1 <= height,
            0 <= width,
    ;
    assert(height * width == width * height) by (nonlinear_arith);
    assert(0 <= y * width) by (nonlinear_arith)
        requires
            0 <= y,
            0 <= width,
    ;
}

} // verus!
