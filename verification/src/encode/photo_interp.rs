//! Which sample value stands for black and which for white, as types.

use crate::colors::{Bilevel, Color, Grayscale4Bit, Grayscale8Bit};
use crate::ifd::tags;
use vstd::prelude::*;

verus! {

/// The sample of a black or white pixel: 0 for the color that is zero, 1
/// for the other.
pub open spec fn bilevel_sample(photo: tags::PhotometricInterpretation, pixel: Bilevel) -> u8 {
    match photo {
        tags::PhotometricInterpretation::WhiteIsZero => match pixel {
            Bilevel::Black => 1,
            Bilevel::White => 0,
        },
        _ => match pixel {
            Bilevel::Black => 0,
            Bilevel::White => 1,
        },
    }
}

/// The sample of a shade of 0 to 15: the shade itself where black is
/// zero, 15 less the shade where white is zero.
pub open spec fn gray4_sample(photo: tags::PhotometricInterpretation, pixel: Grayscale4Bit) -> u8 {
    match photo {
        tags::PhotometricInterpretation::WhiteIsZero => (15 - pixel.spec_value()) as u8,
        _ => pixel.spec_value(),
    }
}

/// The sample of a shade of 0 to 255: the shade itself where black is
/// zero, 255 less the shade where white is zero.
pub open spec fn gray8_sample(photo: tags::PhotometricInterpretation, pixel: Grayscale8Bit) -> u8 {
    match photo {
        tags::PhotometricInterpretation::WhiteIsZero => (255 - pixel.0) as u8,
        _ => pixel.0,
    }
}

/// A photometric interpretation for images of colors `C`.
pub trait PhotometricInterpretation<C: Color>: PhotometricInterpretationImpl<C> {

}

/// Sample 0 is black.
#[derive(Clone, Copy)]
pub struct BlackIsZero;

/// Sample 0 is white.
#[derive(Clone, Copy)]
pub struct WhiteIsZero;

impl PhotometricInterpretation<Bilevel> for BlackIsZero {

}

impl PhotometricInterpretation<Bilevel> for WhiteIsZero {

}

impl PhotometricInterpretation<Grayscale4Bit> for BlackIsZero {

}

impl PhotometricInterpretation<Grayscale4Bit> for WhiteIsZero {

}

impl PhotometricInterpretation<Grayscale8Bit> for BlackIsZero {

}

impl PhotometricInterpretation<Grayscale8Bit> for WhiteIsZero {

}

/// The value of the photometric interpretation field.
pub trait PhotometricInterpretationTag {
    /// The value of the field; black is zero or white is zero.
    spec fn spec_tag(&self) -> tags::PhotometricInterpretation;

    /// The value of the field; black is zero or white is zero.
    fn tag(&self) -> (t: tags::PhotometricInterpretation)
        ensures
            t == self.spec_tag(),
            t == tags::PhotometricInterpretation::BlackIsZero || t
                == tags::PhotometricInterpretation::WhiteIsZero,
    ;
}

/// How a pixel of color `C` becomes a sample.
pub trait PhotometricInterpretationImpl<C: Color>: PhotometricInterpretationTag {
    /// The sample of a pixel.
    spec fn sample(&self, pixel: C) -> u8;

    /// The sample of a pixel.
    fn encode_pixel(&self, pixel: C) -> (s: u8)
        ensures
            s == self.sample(pixel),
    ;
}

impl PhotometricInterpretationTag for BlackIsZero {
    open spec fn spec_tag(&self) -> tags::PhotometricInterpretation {
        tags::PhotometricInterpretation::BlackIsZero
    }

    fn tag(&self) -> (t: tags::PhotometricInterpretation) {
        tags::PhotometricInterpretation::BlackIsZero
    }
}

impl PhotometricInterpretationTag for WhiteIsZero {
    open spec fn spec_tag(&self) -> tags::PhotometricInterpretation {
        tags::PhotometricInterpretation::WhiteIsZero
    }

    fn tag(&self) -> (t: tags::PhotometricInterpretation) {
        tags::PhotometricInterpretation::WhiteIsZero
    }
}

impl PhotometricInterpretationImpl<Bilevel> for BlackIsZero {
    open spec fn sample(&self, pixel: Bilevel) -> u8 {
        bilevel_sample(self.spec_tag(), pixel)
    }

    fn encode_pixel(&self, pixel: Bilevel) -> (s: u8) {
        match pixel {
            Bilevel::Black => 0,
            Bilevel::White => 1,
        }
    }
}

impl PhotometricInterpretationImpl<Bilevel> for WhiteIsZero {
    open spec fn sample(&self, pixel: Bilevel) -> u8 {
        bilevel_sample(self.spec_tag(), pixel)
    }

    fn encode_pixel(&self, pixel: Bilevel) -> (s: u8) {
        match pixel {
            Bilevel::Black => 1,
            Bilevel::White => 0,
        }
    }
}

impl PhotometricInterpretationImpl<Grayscale4Bit> for BlackIsZero {
    open spec fn sample(&self, pixel: Grayscale4Bit) -> u8 {
        gray4_sample(self.spec_tag(), pixel)
    }

    fn encode_pixel(&self, pixel: Grayscale4Bit) -> (s: u8) {
        pixel.value()
    }
}

impl PhotometricInterpretationImpl<Grayscale4Bit> for WhiteIsZero {
    open spec fn sample(&self, pixel: Grayscale4Bit) -> u8 {
        gray4_sample(self.spec_tag(), pixel)
    }

    fn encode_pixel(&self, pixel: Grayscale4Bit) -> (s: u8) {
        15 - pixel.value()
    }
}

impl PhotometricInterpretationImpl<Grayscale8Bit> for BlackIsZero {
    open spec fn sample(&self, pixel: Grayscale8Bit) -> u8 {
        gray8_sample(self.spec_tag(), pixel)
    }

    fn encode_pixel(&self, pixel: Grayscale8Bit) -> (s: u8) {
        pixel.0
    }
}

impl PhotometricInterpretationImpl<Grayscale8Bit> for WhiteIsZero {
    open spec fn sample(&self, pixel: Grayscale8Bit) -> u8 {
        gray8_sample(self.spec_tag(), pixel)
    }

    fn encode_pixel(&self, pixel: Grayscale8Bit) -> (s: u8) {
        u8::MAX - pixel.0
    }
}

} // verus!
