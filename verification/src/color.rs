//! 8-bit RGB colors and their relative luminance.

use vstd::prelude::*;

verus! {

/// An 8-bit RGB triple.
#[derive(Clone, Copy, Debug, PartialEq, Eq, Structural)]
pub struct Color {
    pub r: u8,
    pub g: u8,
    pub b: u8,
}

/// Relative luminance of a color, scaled by 2_560_000: the weighted sum
/// `0.2126*(r/256) + 0.7152*(g/256) + 0.0722*(b/256)` times 10_000 * 256.
/// Only comparisons between luminances matter to the library, and the
/// scaling preserves the exact ordering of the weighted sums.
pub open spec fn spec_luminance(c: Color) -> int {
    2126 * c.r + 7152 * c.g + 722 * c.b
}

impl Color {
    pub fn from_rgb(r: u8, g: u8, b: u8) -> (c: Self)
        ensures
            c.r == r && c.g == g && c.b == b,
    {
        Self { r, g, b }
    }

    pub fn r(&self) -> (v: u8)
        ensures
            v == self.r,
    {
        self.r
    }

    pub fn g(&self) -> (v: u8)
        ensures
            v == self.g,
    {
        self.g
    }

    pub fn b(&self) -> (v: u8)
        ensures
            v == self.b,
    {
        self.b
    }

    /// Relative luminance, scaled by 2_560_000 (see [`spec_luminance`]).
    pub fn luminance(&self) -> (l: u32)
        ensures
            l == spec_luminance(*self),
    {
        2126 * (self.r as u32) + 7152 * (self.g as u32) + 722 * (self.b as u32)
    }

    /// The color packed in the low 24 bits of a word: `0x00RRGGBB`.
    pub fn from_rgb_u32(c: u32) -> (r: Self)
        ensures
            r.r == (c >> 16) & 0xff,
            r.g == (c >> 8) & 0xff,
            r.b == c & 0xff,
    {
        proof {
            assert((c >> 16) & 0xff <= 0xff && (c >> 8) & 0xff <= 0xff && c & 0xff <= 0xff)
                by (bit_vector);
        }
        Self::from_rgb(((c >> 16) & 0xff) as u8, ((c >> 8) & 0xff) as u8, (c & 0xff) as u8)
    }
}

} // verus!
