//! Pixel flag bit positions.
use vstd::prelude::*;

verus! {

/// Pixel is active and needs simulation this tick.
pub const DIRTY: u8 = 0b0000_0001;

/// Pixel's material is solid or powder (not liquid/gas).
pub const SOLID: u8 = 0b0000_0010;

/// Pixel has downward momentum.
pub const FALLING: u8 = 0b0000_0100;

} // verus!
