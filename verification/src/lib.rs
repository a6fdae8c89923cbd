//! Pixel world simulation core: coordinates, pixels, materials, palettes,
//! persistence indices, pixel bodies and contour joining.
pub mod collision;
pub mod coords;
pub mod pixel;
pub mod persistence;
pub mod render;
pub mod material;
pub mod palette;
pub mod pixel_body;
