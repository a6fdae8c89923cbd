//! Built-in material IDs (the number a `MaterialId` wraps).
use vstd::prelude::*;

verus! {

/// Empty space.
pub const VOID: u8 = 0;

/// Brown powder that falls and piles.
pub const SOIL: u8 = 1;

/// Gray solid that does not move.
pub const STONE: u8 = 2;

/// Tan powder that falls and piles.
pub const SAND: u8 = 3;

/// Blue liquid that flows.
pub const WATER: u8 = 4;

} // verus!
