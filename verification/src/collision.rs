//! Collision mesh primitives.
use vstd::prelude::*;

pub mod contour;

verus! {

/// A triangle represented by three vertex indices.
#[derive(Clone, Copy, Debug, PartialEq, Eq, Structural)]
pub struct Triangle {
    pub a: usize,
    pub b: usize,
    pub c: usize,
}

} // verus!
