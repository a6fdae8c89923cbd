//! Color values shared by materials and the palette.
use vstd::prelude::*;

verus! {

/// An 8-bit-per-channel RGBA color.
#[derive(Clone, Copy, Debug, Default, PartialEq, Eq, Structural)]
pub struct Rgba {
    pub red: u8,
    pub green: u8,
    pub blue: u8,
    pub alpha: u8,
}

impl Rgba {
    /// Creates a color from its four channels.
    pub fn new(red: u8, green: u8, blue: u8, alpha: u8) -> (c: Self)
        ensures
            c == (Rgba { red, green, blue, alpha }),
    {
        Rgba { red, green, blue, alpha }
    }
}

/// An opaque color (alpha 255).
pub fn rgb(red: u8, green: u8, blue: u8) -> (c: Rgba)
    ensures
        c == (Rgba { red, green, blue, alpha: 255 }),
{
    Rgba { red, green, blue, alpha: 255 }
}

} // verus!
