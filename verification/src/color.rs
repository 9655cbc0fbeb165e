//! Colors of four 8-bit channels.

use vstd::prelude::*;

verus! {

/// A color with red, green, blue and alpha channels, each in `0..=255`.
///
/// For a coverage sample the alpha channel is the coverage of the pixel:
/// 0 leaves the pixel as it is, 255 replaces it.
#[derive(Clone, Copy, Debug, PartialEq, Eq, Structural)]
pub struct Color {
    pub r: u8,
    pub g: u8,
    pub b: u8,
    pub a: u8,
}

impl Color {
    /// The four bytes of the color as a pixel holds them: blue, green, red,
    /// alpha.
    pub open spec fn bgra(self) -> Seq<u8> {
        seq![self.b, self.g, self.r, self.a]
    }

    /// An opaque color.
    pub fn rgb(r: u8, g: u8, b: u8) -> (color: Color)
        ensures
            color == (Color { r, g, b, a: 255 }),
    {
        Color { r, g, b, a: 255 }
    }

    /// A color with the given coverage.
    pub fn rgba(r: u8, g: u8, b: u8, a: u8) -> (color: Color)
        ensures
            color == (Color { r, g, b, a }),
    {
        Color { r, g, b, a }
    }

    /// The color's bytes in pixel order.
    pub fn to_bgra(self) -> (bytes: [u8; 4])
        ensures
            bytes@ == self.bgra(),
    {
        [self.b, self.g, self.r, self.a]
    }
}

} // verus!
