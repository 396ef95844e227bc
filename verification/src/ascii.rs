//! The pixel-to-character kernel of the ASCII renderer.
//!
//! Decoding an image file is I/O and stays in the shell; what reaches the
//! library are plain channel values.  The kernel maps a pixel's intensity
//! to one of eight glyphs, darker pixels to sparser glyphs.

use vstd::prelude::*;

verus! {

/// The glyph for an intensity: one of eight characters, chosen by the
/// intensity's band of width 32.
pub open spec fn glyph_of(intensity: u8) -> Seq<char> {
    let band = intensity / 32;
    if band == 0 {
        " "@
    } else if band == 1 {
        "."@
    } else if band == 2 {
        ","@
    } else if band == 3 {
        "-"@
    } else if band == 4 {
        "~"@
    } else if band == 5 {
        "+"@
    } else if band == 6 {
        "="@
    } else {
        "@"@
    }
}

/// Picks the display glyph for a pixel of the given intensity.
pub fn get_str_ascii(intensity: u8) -> (r: &'static str)
    ensures
        r@ == glyph_of(intensity),
{
    let index = intensity / 32;
    if index == 0 {
        " "
    } else if index == 1 {
        "."
    } else if index == 2 {
        ","
    } else if index == 3 {
        "-"
    } else if index == 4 {
        "~"
    } else if index == 5 {
        "+"
    } else if index == 6 {
        "="
    } else {
        "@"
    }
}

/// A pixel's intensity: the mean of the colour channels, computed
/// per-channel to stay within a byte, and zero wherever the pixel is fully
/// transparent.
pub fn pixel_intensity(red: u8, green: u8, blue: u8, alpha: u8) -> (r: u8)
    ensures
        alpha == 0 ==> r == 0,
        alpha != 0 ==> r == red / 3 + green / 3 + blue / 3,
{
    if alpha == 0 {
        0
    } else {
        red / 3 + green / 3 + blue / 3
    }
}

} // verus!
