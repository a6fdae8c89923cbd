//! Simulation pixel format.
use vstd::prelude::*;

use crate::coords::{ColorIndex, MaterialId};

pub mod flags;

verus! {

/// Simulation pixel - 4 bytes for cache efficiency.
#[derive(Clone, Copy, Default, Debug, PartialEq, Eq, Structural)]
pub struct Pixel {
    pub material: MaterialId,
    pub color: ColorIndex,
    pub damage: u8,
    pub flags: u8,
}

/// Whether the flag bits `flag` share a set bit with `flags`.
pub open spec fn flag_set(flags: u8, flag: u8) -> bool {
    flags & flag != 0
}

impl Pixel {
    /// The empty-space pixel: material 0, color 0, no damage, no flags.
    pub open spec fn spec_air() -> Pixel {
        Pixel { material: MaterialId(0), color: ColorIndex(0), damage: 0, flags: 0 }
    }

    /// The empty-space pixel: material 0, color 0, no damage, no flags.
    pub fn air() -> (p: Pixel)
        ensures
            p == Pixel::spec_air(),
    {
        Pixel { material: MaterialId(0), color: ColorIndex(0), damage: 0, flags: 0 }
    }

    /// Creates a pixel of the given material and color, undamaged, no flags.
    pub fn new(material: MaterialId, color: ColorIndex) -> (p: Self)
        ensures
            p == (Pixel { material, color, damage: 0, flags: 0 }),
    {
        Self { material, color, damage: 0, flags: 0 }
    }

    /// Returns true if the pixel is air (empty space).
    pub fn is_air(&self) -> (b: bool)
        ensures
            b == (self.material.0 == 0),
    {
        self.material.0 == 0
    }

    /// Returns true if the given flag is set.
    pub fn has_flag(&self, flag: u8) -> (b: bool)
        ensures
            b == flag_set(self.flags, flag),
    {
        self.flags & flag != 0
    }

    /// Sets the given flag.
    pub fn set_flag(&mut self, flag: u8)
        ensures
            final(self).flags == old(self).flags | flag,
            final(self).material == old(self).material,
            final(self).color == old(self).color,
            final(self).damage == old(self).damage,
    {
        self.flags = self.flags | flag;
    }

    /// Clears the given flag.
    pub fn clear_flag(&mut self, flag: u8)
        ensures
            final(self).flags == old(self).flags & !flag,
            final(self).material == old(self).material,
            final(self).color == old(self).color,
            final(self).damage == old(self).damage,
    {
        self.flags = self.flags & !flag;
    }
}

/// After a flag is set it reads as set, and every other bit is kept.
pub proof fn lemma_set_flag_sets(flags: u8, flag: u8, other: u8)
    requires
        flag != 0,
        flag & other == 0,
    ensures
        flag_set(flags | flag, flag),
        flag_set(flags | flag, other) == flag_set(flags, other),
{
    assert(flag != 0 ==> (flags | flag) & flag != 0) by (bit_vector);
    assert(flag & other == 0 ==> (((flags | flag) & other != 0) == (flags & other != 0)))
        by (bit_vector);
}

/// After a flag is cleared it reads as clear, and every other bit is kept.
pub proof fn lemma_clear_flag_clears(flags: u8, flag: u8, other: u8)
    requires
        flag & other == 0,
    ensures
        !flag_set(flags & !flag, flag),
        flag_set(flags & !flag, other) == flag_set(flags, other),
{
    assert((flags & !flag) & flag == 0) by (bit_vector);
    assert(flag & other == 0 ==> (((flags & !flag) & other != 0) == (flags & other != 0)))
        by (bit_vector);
}

/// Clearing a flag that was not set, after setting it, restores the flags.
pub proof fn lemma_set_then_clear_restores(flags: u8, flag: u8)
    requires
        flags & flag == 0,
    ensures
        (flags | flag) & !flag == flags,
{
    assert(flags & flag == 0 ==> (flags | flag) & !flag == flags) by (bit_vector);
}

} // verus!
