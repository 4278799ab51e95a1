//! The colors a pixel can have, and the palette of a palette image.

use crate::types::Short;
use crate::Image;
use vstd::prelude::*;

verus! {

/// What a pixel of an image can be.
pub trait Color {

}

/// Black or white.
#[derive(Clone, Copy, Debug, Eq, Hash, PartialEq, Structural)]
pub enum Bilevel {
    Black,
    White,
}

impl Color for Bilevel {

}

/// A shade of gray from 0 to 255.
#[derive(Clone, Copy, Debug, Eq, Hash, PartialEq, Structural)]
pub struct Grayscale8Bit(pub u8);

impl Color for Grayscale8Bit {

}

/// A shade of gray from 0 to 15.
#[derive(Clone, Copy, Debug, Eq, Hash, PartialEq, Structural)]
pub struct Grayscale4Bit(u8);

impl Color for Grayscale4Bit {

}

impl Grayscale4Bit {
    /// The shade as a number.
    pub closed spec fn spec_value(self) -> u8 {
        self.0
    }

    #[verifier::type_invariant]
    spec fn inv(self) -> bool {
        self.0 <= 15
    }

    /// The shade with the number `pixel`.
    pub closed spec fn spec_new(pixel: u8) -> Self {
        Grayscale4Bit(pixel)
    }

    /// The shade `pixel`, which is at most 15.
    pub fn new(pixel: u8) -> (r: Self)
        requires
            pixel <= 15,
        ensures
            r == Self::spec_new(pixel),
            r.spec_value() == pixel,
    {
        Self(pixel)
    }

    /// The shade `pixel`, if it is at most 15.
    pub fn new_checked(pixel: u8) -> (r: Option<Self>)
        ensures
            match r {
                Some(shade) => pixel <= 15 && shade.spec_value() == pixel,
                None => pixel > 15,
            },
    {
        if pixel > 15 {
            None
        } else {
            Some(Self(pixel))
        }
    }

    /// The shade as a number, at most 15.
    pub fn value(self) -> (r: u8)
        ensures
            r == self.spec_value(),
            r <= 15,
    {
        proof {
            use_type_invariant(self);
        }
        self.0
    }
}

/// A shade is the shade with its number.
pub proof fn lemma_shade_of_value(a: Grayscale4Bit, v: u8)
    ensures
        Grayscale4Bit::spec_new(a.spec_value()) == a,
        Grayscale4Bit::spec_new(v).spec_value() == v,
{
}

/// A color of red, green and blue parts.
#[derive(Clone, Copy, Debug, Eq, Hash, PartialEq, Structural)]
pub struct RGB {
    pub r: u8,
    pub g: u8,
    pub b: u8,
}

impl Color for RGB {

}

impl RGB {
    /// The color with the given parts.
    pub fn new(r: u8, g: u8, b: u8) -> (c: Self)
        ensures
            c == (RGB { r, g, b }),
    {
        Self { r, g, b }
    }
}

/// No color occurs twice.
pub open spec fn no_color_twice(colors: Seq<RGB>) -> bool {
    forall|i: int, j: int| 0 <= i < j < colors.len() ==> colors[i] != colors[j]
}

/// The palette of an image: up to 256 colors, each at the place where it
/// was first added.
pub struct ColorMap {
    to_rgb: Vec<RGB>,
}

impl View for ColorMap {
    type V = Seq<RGB>;

    closed spec fn view(&self) -> Seq<RGB> {
        self.to_rgb@
    }
}

impl Clone for ColorMap {
    fn clone(&self) -> (r: Self)
        ensures
            r@ == self@,
    {
        proof {
            use_type_invariant(self);
        }
        let mut to_rgb: Vec<RGB> = Vec::new();
        let mut i: usize = 0;
        while i < self.to_rgb.len()
            invariant
                i <= self.to_rgb@.len(),
                to_rgb@ == self.to_rgb@.take(i as int),
            decreases self.to_rgb.len() - i,
        {
            to_rgb.push(self.to_rgb[i]);
            assert(to_rgb@ =~= self.to_rgb@.take(i + 1));
            i += 1;
        }
        assert(self.to_rgb@.take(i as int) == self.to_rgb@);
        Self { to_rgb }
    }
}

/// The number of bits of a palette index for a palette of `colors` colors.
pub open spec fn palette_bits(colors: int) -> u16 {
    if colors <= 16 {
        4
    } else {
        8
    }
}

/// The palette as a field of a directory holds it: for each of 16 or 256
/// places the red parts, then the green parts, then the blue parts; zero
/// where the palette has no color.
pub open spec fn colormap_shorts(colors: Seq<RGB>) -> Seq<u16> {
    let places = if colors.len() <= 16 {
        16int
    } else {
        256int
    };
    Seq::new(
        (3 * places) as nat,
        |k: int|
            {
                let i = k % places;
                if i >= colors.len() {
                    0u16
                } else if k < places {
                    colors[i].r as u16
                } else if k < 2 * places {
                    colors[i].g as u16
                } else {
                    colors[i].b as u16
                }
            },
    )
}

impl ColorMap {
    /// The most colors that a palette can hold.
    pub const MAX_COLORS: usize = 256;

    /// At most 256 colors, none twice.
    pub open spec fn wf(&self) -> bool {
        &&& self@.len() <= 256
        &&& no_color_twice(self@)
    }

    #[verifier::type_invariant]
    spec fn inv(&self) -> bool {
        self.wf()
    }

    /// A palette without colors.
    pub fn new() -> (r: Self)
        ensures
            r@ == Seq::<RGB>::empty(),
            r.wf(),
    {
        Self { to_rgb: Vec::new() }
    }

    /// The number of colors.
    pub fn len(&self) -> (r: usize)
        ensures
            r == self@.len(),
            self.wf(),
    {
        proof {
            use_type_invariant(self);
        }
        self.to_rgb.len()
    }

    /// The color at `inx`.
    pub fn get(&self, inx: u8) -> (r: Option<RGB>)
        ensures
            r == if inx < self@.len() {
                Some(self@[inx as int])
            } else {
                None
            },
    {
        if (inx as usize) < self.to_rgb.len() {
            Some(self.to_rgb[inx as usize])
        } else {
            None
        }
    }

    /// Returns a palettized image with the given pixels, using only colors in
    /// the palette. There must be `width * height` pixels, and at least one.
    ///
    /// Returns `None` if a pixel is not in the palette.
    pub fn try_new_exact_image<'a>(&'a self, pixels: &[RGB], width: usize, height: usize) -> (r:
        Option<Image<PaletteColor<'a>>>)
        requires
            pixels@.len() == width * height,
            pixels@.len() > 0,
        ensures
            match r {
                Some(image) => {
                    &&& image@.width == width
                    &&& image@.height == height
                    &&& image@.pixels.len() == pixels@.len()
                    &&& image@.wf()
                    &&& forall|i: int|
                        0 <= i < pixels@.len() ==> {
                            &&& (#[trigger] image@.pixels[i]).map() == *self
                            &&& image@.pixels[i].inx() < self@.len()
                            &&& self@[image@.pixels[i].inx() as int] == pixels@[i]
                        }
                },
                None => exists|i: int| 0 <= i < pixels@.len() && !self@.contains(pixels@[i]),
            },
    {
        match self.try_match_exact_pixels(pixels) {
            Some(palettized_pixels) => Some(Image::new(palettized_pixels, width, height)),
            None => None,
        }
    }

    /// Adds a color to the palette if it is not already in the palette, and
    /// there is space. Returns how many colors the palette has if the color
    /// was added or was already in the palette, and `None` if the palette
    /// is full and does not have the color; the palette is then unchanged.
    pub fn try_add_color(&mut self, c: RGB) -> (r: Option<usize>)
        ensures
            final(self).wf(),
            old(self)@.contains(c) ==> final(self)@ == old(self)@ && r == Some(
                old(self)@.len() as usize,
            ),
            !old(self)@.contains(c) && old(self)@.len() < 256 ==> final(self)@ == old(self)@.push(c)
                && r == Some((old(self)@.len() + 1) as usize),
            !old(self)@.contains(c) && old(self)@.len() >= 256 ==> final(self)@ == old(self)@
                && r is None,
    {
        match self.get_or_create_inx(c) {
            Some(_) => Some(self.to_rgb.len()),
            None => None,
        }
    }

    /// Whether the palette has the color.
    pub fn contains_color(&self, c: RGB) -> (r: bool)
        ensures
            r == self@.contains(c),
    {
        self.get_inx(c).is_some()
    }

    /// The number of bits of a palette index: 4 for up to 16 colors, else 8.
    pub fn bits_per_palette_sample(&self) -> (r: Short)
        ensures
            r == palette_bits(self@.len() as int),
    {
        if self.to_rgb.len() <= 16 {
            4
        } else {
            8
        }
    }

    /// The palette as a field of a directory holds it.
    pub fn create_colormap_vec(&self) -> (r: Vec<Short>)
        ensures
            r@ == colormap_shorts(self@),
    {
        proof {
            use_type_invariant(self);
        }
        let places: usize = if self.to_rgb.len() <= 16 {
            16
        } else {
            256
        };
        let mut shorts: Vec<Short> = Vec::new();
        let mut k: usize = 0;
        while k < 3 * places
            invariant
                k <= 3 * places,
                places == 16 || places == 256,
                places == if self@.len() <= 16 {
                    16int
                } else {
                    256int
                },
                self@.len() <= 256,
                shorts@.len() == k,
                forall|t: int| 0 <= t < k ==> shorts@[t] == colormap_shorts(self@)[t],
            decreases 3 * places - k,
        {
            let i: usize = k % places;
            let value: Short = if i >= self.to_rgb.len() {
                0
            } else if k < places {
                self.to_rgb[i].r as Short
            } else if k < 2 * places {
                self.to_rgb[i].g as Short
            } else {
                self.to_rgb[i].b as Short
            };
            shorts.push(value);
            k += 1;
        }
        assert(shorts@ =~= colormap_shorts(self@));
        shorts
    }

    /// The pixels as colors of the palette; `None` if a pixel is not in the
    /// palette.
    fn try_match_exact_pixels<'a>(&'a self, pixels: &[RGB]) -> (r: Option<Vec<PaletteColor<'a>>>)
        ensures
            match r {
                Some(colors) => {
                    &&& colors@.len() == pixels@.len()
                    &&& forall|i: int|
                        0 <= i < pixels@.len() ==> {
                            &&& (#[trigger] colors@[i]).map() == *self
                            &&& colors@[i].inx() < self@.len()
                            &&& self@[colors@[i].inx() as int] == pixels@[i]
                        }
                },
                None => exists|i: int| 0 <= i < pixels@.len() && !self@.contains(pixels@[i]),
            },
    {
        let mut colors: Vec<PaletteColor<'a>> = Vec::new();
        let mut i: usize = 0;
        while i < pixels.len()
            invariant
                i <= pixels.len(),
                colors@.len() == i,
                forall|k: int|
                    0 <= k < i ==> {
                        &&& (#[trigger] colors@[k]).map() == *self
                        &&& colors@[k].inx() < self@.len()
                        &&& self@[colors@[k].inx() as int] == pixels@[k]
                    },
            decreases pixels.len() - i,
        {
            match self.get_inx(pixels[i]) {
                Some(color) => colors.push(PaletteColor::new(self, color)),
                None => {
                    return None;
                },
            }
            i += 1;
        }
        Some(colors)
    }

    /// Where the color is in the palette, if it is there.
    fn get_inx(&self, c: RGB) -> (r: Option<u8>)
        ensures
            match r {
                Some(inx) => inx < self@.len() && self@[inx as int] == c,
                None => !self@.contains(c),
            },
            self.wf(),
    {
        proof {
            use_type_invariant(self);
        }
        let mut inx: usize = 0;
        while inx < self.to_rgb.len()
            invariant
                inx <= self.to_rgb@.len() <= 256,
                self.wf(),
                forall|k: int| 0 <= k < inx ==> self.to_rgb@[k] != c,
            decreases self.to_rgb.len() - inx,
        {
            if self.to_rgb[inx] == c {
                return Some(inx as u8);
            }
            inx += 1;
        }
        None
    }

    /// Where the color is in the palette, after adding it if it was not
    /// there; `None` if it was not there and the palette is full.
    fn get_or_create_inx(&mut self, c: RGB) -> (r: Option<u8>)
        ensures
            final(self).wf(),
            old(self)@.contains(c) ==> final(self)@ == old(self)@ && r is Some,
            !old(self)@.contains(c) && old(self)@.len() < 256 ==> final(self)@ == old(self)@.push(c)
                && r == Some(old(self)@.len() as u8),
            !old(self)@.contains(c) && old(self)@.len() >= 256 ==> final(self)@ == old(self)@
                && r is None,
            r matches Some(inx) ==> inx < final(self)@.len() && final(self)@[inx as int] == c,
    {
        match self.get_inx(c) {
            None => {
                if self.to_rgb.len() >= Self::MAX_COLORS {
                    None
                } else {
                    let mut grown: Vec<RGB> = Vec::new();
                    let mut i: usize = 0;
                    while i < self.to_rgb.len()
                        invariant
                            i <= self.to_rgb@.len(),
                            grown@ == self.to_rgb@.take(i as int),
                        decreases self.to_rgb.len() - i,
                    {
                        grown.push(self.to_rgb[i]);
                        assert(grown@ =~= self.to_rgb@.take(i + 1));
                        i += 1;
                    }
                    assert(self.to_rgb@.take(i as int) == self.to_rgb@);
                    grown.push(c);
                    self.to_rgb = grown;
                    Some((self.to_rgb.len() - 1) as u8)
                }
            },
            inx => inx,
        }
    }
}

/// A color referencing a [`ColorMap`].
/// An [`Image<PaletteColor>`] must be created using a [`ColorMap`].
pub struct PaletteColor<'a> {
    map: &'a ColorMap,
    inx: u8,
}

impl<'a> Color for PaletteColor<'a> {

}

impl<'a> PaletteColor<'a> {
    /// The palette of the color.
    pub closed spec fn map(&self) -> ColorMap {
        *self.map
    }

    /// The place of the color in its palette.
    pub closed spec fn inx(&self) -> u8 {
        self.inx
    }

    /// The color as red, green and blue.
    pub open spec fn rgb(&self) -> RGB {
        self.map()@[self.inx() as int]
    }

    #[verifier::type_invariant]
    spec fn inv(&self) -> bool {
        self.inx < self.map@.len()
    }

    fn new(map: &'a ColorMap, inx: u8) -> (r: Self)
        requires
            inx < map@.len(),
        ensures
            r.map() == *map,
            r.inx() == inx,
    {
        Self { map, inx }
    }

    /// The place of the color in its palette.
    pub fn get_inx(&self) -> (r: u8)
        ensures
            r == self.inx(),
            r < self.map()@.len(),
    {
        proof {
            use_type_invariant(self);
        }
        self.inx
    }

    /// The palette of the color.
    pub fn get_map(&self) -> (r: &'a ColorMap)
        ensures
            *r == self.map(),
    {
        self.map
    }

    /// The number of bits of a palette index in the palette of the color.
    pub fn bits_per_palette_sample(&self) -> (r: Short)
        ensures
            r == palette_bits(self.map()@.len() as int),
    {
        self.map.bits_per_palette_sample()
    }
}

impl<'a> Image<PaletteColor<'a>> {
    /// The number of bits of a palette index of the image.
    pub fn bits_per_palette_sample(&self) -> (r: Short)
        ensures
            r == palette_bits(self@.pixels[0].map()@.len() as int),
    {
        self.pixels()[0].bits_per_palette_sample()
    }

    /// The palette of the image.
    pub fn get_colormap(&self) -> (r: &ColorMap)
        ensures
            *r == self@.pixels[0].map(),
    {
        self.pixels()[0].get_map()
    }
}

} // verus!
