//! Material definitions and registry.
use vstd::prelude::*;

use crate::coords::{ColorIndex, MaterialId};
use crate::render::{rgb, Rgba};

/// Built-in material IDs.
pub mod ids;

verus! {

/// Physics state determines movement behavior.
#[derive(Clone, Copy, Debug, PartialEq, Eq, Structural)]
pub enum PhysicsState {
    /// Does not move.
    Solid,
    /// Falls, piles, slides.
    Powder,
    /// Falls, flows horizontally.
    Liquid,
    /// Rises, disperses.
    Gas,
}

/// Material properties.
pub struct Material {
    pub name: &'static str,
    /// 8-color gradient from surface to deep.
    pub palette: [Rgba; 8],
    /// Physics behavior.
    pub state: PhysicsState,
    /// Density for liquid displacement (higher sinks into lower-density liquids).
    pub density: u8,
    /// Horizontal spread per tick (liquids).
    pub dispersion: u8,
    /// Air resistance: 1/N chance to skip falling (0 = disabled).
    pub air_resistance: u8,
    /// Air drift: 1/N chance to drift horizontally while falling (0 = disabled).
    pub air_drift: u8,
}

/// The palette slot (0-7) that a color index selects.
pub open spec fn palette_slot(color: ColorIndex) -> int {
    color.0 * 7 / 255
}

impl Material {
    /// Sample color from palette using ColorIndex.
    pub fn sample(&self, color: ColorIndex) -> (c: Rgba)
        ensures
            0 <= palette_slot(color) <= 7,
            c == self.palette@[palette_slot(color)],
    {
        let scaled = color.0 as usize * 7 / 255;
        let idx = if scaled < 7 {
            scaled
        } else {
            7
        };
        self.palette[idx]
    }
}

/// An opaque color, for stating palettes.
pub open spec fn opaque(red: u8, green: u8, blue: u8) -> Rgba {
    Rgba { red, green, blue, alpha: 255 }
}

/// The built-in materials, by id: void, soil, stone, sand, water.
pub open spec fn builtin_material_spec(id: int) -> (PhysicsState, u8, u8, u8, u8) {
    if id == 0 {
        (PhysicsState::Gas, 0, 0, 0, 0)
    } else if id == 1 {
        (PhysicsState::Powder, 150, 0, 12, 6)
    } else if id == 2 {
        (PhysicsState::Solid, 200, 0, 0, 0)
    } else if id == 3 {
        (PhysicsState::Powder, 160, 0, 8, 4)
    } else {
        (PhysicsState::Liquid, 100, 5, 16, 12)
    }
}

/// The physical parameters of a material: state, density, dispersion, air
/// resistance and air drift.
pub open spec fn params(m: &Material) -> (PhysicsState, u8, u8, u8, u8) {
    (m.state, m.density, m.dispersion, m.air_resistance, m.air_drift)
}

/// The built-in materials' palettes, by id.
pub open spec fn builtin_palette_spec(id: int) -> Seq<Rgba> {
    if id == 0 {
        Seq::new(8, |i: int| Rgba { red: 135, green: 206, blue: 235, alpha: 0 })
    } else if id == 1 {
        seq![
            opaque(139, 90, 43),
            opaque(130, 82, 38),
            opaque(121, 74, 33),
            opaque(112, 66, 28),
            opaque(103, 58, 23),
            opaque(94, 50, 18),
            opaque(85, 42, 13),
            opaque(76, 34, 8),
        ]
    } else if id == 2 {
        seq![
            opaque(128, 128, 128),
            opaque(118, 118, 118),
            opaque(108, 108, 108),
            opaque(98, 98, 98),
            opaque(88, 88, 88),
            opaque(78, 78, 78),
            opaque(68, 68, 68),
            opaque(58, 58, 58),
        ]
    } else if id == 3 {
        seq![
            opaque(237, 201, 175),
            opaque(225, 191, 146),
            opaque(218, 180, 130),
            opaque(210, 170, 115),
            opaque(200, 160, 100),
            opaque(190, 150, 85),
            opaque(180, 140, 70),
            opaque(170, 130, 60),
        ]
    } else {
        seq![
            Rgba { red: 64, green: 164, blue: 223, alpha: 180 },
            Rgba { red: 55, green: 145, blue: 205, alpha: 190 },
            Rgba { red: 46, green: 126, blue: 187, alpha: 200 },
            Rgba { red: 37, green: 107, blue: 169, alpha: 210 },
            Rgba { red: 28, green: 88, blue: 151, alpha: 220 },
            Rgba { red: 19, green: 69, blue: 133, alpha: 230 },
            Rgba { red: 10, green: 50, blue: 115, alpha: 240 },
            Rgba { red: 5, green: 35, blue: 100, alpha: 250 },
        ]
    }
}

/// Material registry with built-in definitions.
pub struct Materials {
    entries: Vec<Material>,
}

impl Materials {
    /// The registered materials, by id.
    pub closed spec fn entries(&self) -> Seq<Material> {
        self.entries@
    }

    /// Creates the registry of the five built-in materials: void, soil,
    /// stone, sand and water, at ids 0 to 4.
    pub fn new() -> (m: Self)
        ensures
            m.entries().len() == 5,
            forall|i: int|
                0 <= i < 5 ==> params(&#[trigger] m.entries()[i]) == builtin_material_spec(i)
                    && m.entries()[i].palette@ == builtin_palette_spec(i),
            m.entries()[0].name@ == "Void"@,
            m.entries()[1].name@ == "Soil"@,
            m.entries()[2].name@ == "Stone"@,
            m.entries()[3].name@ == "Sand"@,
            m.entries()[4].name@ == "Water"@,
    {
        let void_color = Rgba::new(135, 206, 235, 0);
        let entries = vec![
            Material {
                name: "Void",
                palette: [void_color; 8],
                state: PhysicsState::Gas,
                density: 0,
                dispersion: 0,
                air_resistance: 0,
                air_drift: 0,
            },
            Material {
                name: "Soil",
                palette: [
                    rgb(139, 90, 43),
                    rgb(130, 82, 38),
                    rgb(121, 74, 33),
                    rgb(112, 66, 28),
                    rgb(103, 58, 23),
                    rgb(94, 50, 18),
                    rgb(85, 42, 13),
                    rgb(76, 34, 8),
                ],
                state: PhysicsState::Powder,
                density: 150,
                dispersion: 0,
                air_resistance: 12,
                air_drift: 6,
            },
            Material {
                name: "Stone",
                palette: [
                    rgb(128, 128, 128),
                    rgb(118, 118, 118),
                    rgb(108, 108, 108),
                    rgb(98, 98, 98),
                    rgb(88, 88, 88),
                    rgb(78, 78, 78),
                    rgb(68, 68, 68),
                    rgb(58, 58, 58),
                ],
                state: PhysicsState::Solid,
                density: 200,
                dispersion: 0,
                air_resistance: 0,
                air_drift: 0,
            },
            Material {
                name: "Sand",
                palette: [
                    rgb(237, 201, 175),
                    rgb(225, 191, 146),
                    rgb(218, 180, 130),
                    rgb(210, 170, 115),
                    rgb(200, 160, 100),
                    rgb(190, 150, 85),
                    rgb(180, 140, 70),
                    rgb(170, 130, 60),
                ],
                state: PhysicsState::Powder,
                density: 160,
                dispersion: 0,
                air_resistance: 8,
                air_drift: 4,
            },
            Material {
                name: "Water",
                palette: [
                    Rgba::new(64, 164, 223, 180),
                    Rgba::new(55, 145, 205, 190),
                    Rgba::new(46, 126, 187, 200),
                    Rgba::new(37, 107, 169, 210),
                    Rgba::new(28, 88, 151, 220),
                    Rgba::new(19, 69, 133, 230),
                    Rgba::new(10, 50, 115, 240),
                    Rgba::new(5, 35, 100, 250),
                ],
                state: PhysicsState::Liquid,
                density: 100,
                dispersion: 5,
                air_resistance: 16,
                air_drift: 12,
            },
        ];
        let m = Self { entries };
        proof {
            assert(m.entries()[0].palette@ =~= builtin_palette_spec(0));
            assert(m.entries()[1].palette@ =~= builtin_palette_spec(1));
            assert(m.entries()[2].palette@ =~= builtin_palette_spec(2));
            assert(m.entries()[3].palette@ =~= builtin_palette_spec(3));
            assert(m.entries()[4].palette@ =~= builtin_palette_spec(4));
        }
        m
    }

    /// The material registered under `id`.
    pub fn get(&self, id: MaterialId) -> (m: &Material)
        requires
            (id.0 as int) < self.entries().len(),
        ensures
            *m == self.entries()[id.0 as int],
    {
        &self.entries[id.0 as usize]
    }

    /// Returns the number of registered materials.
    pub fn len(&self) -> (n: usize)
        ensures
            n == self.entries().len(),
    {
        self.entries.len()
    }
}

impl Default for Materials {
    fn default() -> (m: Self)
        ensures
            m.entries().len() == 5,
            forall|i: int|
                0 <= i < 5 ==> params(&#[trigger] m.entries()[i]) == builtin_material_spec(i)
                    && m.entries()[i].palette@ == builtin_palette_spec(i),
    {
        Self::new()
    }
}

} // verus!
