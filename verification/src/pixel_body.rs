//! Pixel bodies - dynamic physics objects with pixel content.
//!
//! A pixel body is a rectangular grid of pixels with a shape mask telling
//! which cells belong to the object, and an origin offset that centres the
//! grid on the body's transform.
use vstd::prelude::*;

use crate::pixel::Pixel;

pub mod collider;
pub mod loader;
pub mod readback;
pub mod split;


verus! {

/// Stable identifier for pixel bodies across sessions.
///
/// Each pixel body gets a unique ID when spawned. This ID persists across
/// save/load cycles and is used to track bodies for persistence.
#[derive(Clone, Copy, Debug, PartialEq, Eq, Hash, Structural)]
pub struct PixelBodyId(pub u64);

impl PixelBodyId {
    /// Creates a new pixel body ID.
    pub fn new(id: u64) -> (r: Self)
        ensures
            r.0 == id,
    {
        Self(id)
    }

    /// Returns the raw ID value.
    pub fn value(&self) -> (v: u64)
        ensures
            v == self.0,
    {
        self.0
    }
}

/// Rust's `i32` division by two, which rounds toward zero.
pub open spec fn half_toward_zero(v: int) -> int {
    if v >= 0 {
        v / 2
    } else {
        -((-v) / 2)
    }
}

/// The `i32` that `w as i32` gives: `w` wrapped into the signed range.
pub open spec fn wrap_i32(w: u32) -> int {
    if w <= 0x7fff_ffff {
        w as int
    } else {
        w - 0x1_0000_0000
    }
}

/// The linear (row-major) index of cell `(x, y)` in a grid `w` wide.
pub open spec fn cell_index(w: int, x: int, y: int) -> int {
    y * w + x
}

/// Number of `true` values in a mask.
pub open spec fn count_true(s: Seq<bool>) -> nat
    decreases s.len(),
{
    if s.len() == 0 {
        0
    } else {
        count_true(s.drop_last()) + if s.last() {
            1nat
        } else {
            0nat
        }
    }
}

/// A cell of a `w` by `h` grid has an index inside the grid.
pub proof fn lemma_cell_index_bounds(w: int, h: int, x: int, y: int)
    requires
        0 <= x < w,
        0 <= y < h,
    ensures
        0 <= cell_index(w, x, y) < w * h,
        cell_index(w, x, y) + w - x <= w * h,
{
    assert(y * w + x < w * h && (y + 1) * w <= w * h && y * w >= 0 && y * w + w == (y + 1) * w)
        by (nonlinear_arith)
        requires
            0 <= x < w,
            0 <= y < h,
    ;
}

/// Distinct cells of a grid have distinct indices.
pub proof fn lemma_cell_index_injective(w: int, x1: int, y1: int, x2: int, y2: int)
    requires
        0 <= x1 < w,
        0 <= x2 < w,
        0 <= y1,
        0 <= y2,
        cell_index(w, x1, y1) == cell_index(w, x2, y2),
    ensures
        x1 == x2,
        y1 == y2,
{
    vstd::arithmetic::div_mod::lemma_fundamental_div_mod_converse(y1 * w + x1, w, y1, x1);
    vstd::arithmetic::div_mod::lemma_fundamental_div_mod_converse(y2 * w + x2, w, y2, x2);
}

/// A physics object composed of pixels.
///
/// The surface buffer contains object-local pixel data. The shape mask tracks
/// which pixels belong to the object (vs void). Transform determines world
/// position.
pub struct PixelBody {
    /// Width of the pixel grid.
    pub width: u32,
    /// Height of the pixel grid.
    pub height: u32,
    /// Object-local pixel buffer (row-major).
    pub surface: Vec<Pixel>,
    /// Which pixels belong to the object (row-major, true = solid).
    pub shape_mask: Vec<bool>,
    /// Offset from entity transform origin to pixel grid corner.
    pub origin: (i32, i32),
}

impl PixelBody {
    /// The surface and the shape mask both hold one entry per cell.
    pub open spec fn wf(&self) -> bool {
        &&& self.surface@.len() == self.width * self.height
        &&& self.shape_mask@.len() == self.width * self.height
    }

    /// Whether cell `(x, y)` lies in the grid and belongs to the object.
    pub open spec fn solid_at(&self, x: int, y: int) -> bool {
        0 <= x < self.width && 0 <= y < self.height && self.shape_mask@[cell_index(
            self.width as int,
            x,
            y,
        )]
    }

    /// Creates a new pixel body with the given dimensions: every pixel air,
    /// nothing solid, the origin centring the grid on the entity origin.
    pub fn new(width: u32, height: u32) -> (b: Self)
        requires
            width * height <= usize::MAX,
            width != 0x8000_0000,
            height != 0x8000_0000,
        ensures
            b.wf(),
            b.width == width,
            b.height == height,
            forall|i: int| 0 <= i < width * height ==> #[trigger] b.surface@[i] == Pixel::spec_air(),
            forall|i: int| 0 <= i < width * height ==> !#[trigger] b.shape_mask@[i],
            b.origin.0 == half_toward_zero(-wrap_i32(width)),
            b.origin.1 == half_toward_zero(-wrap_i32(height)),
    {
        let len = (width as usize) * (height as usize);
        let mut surface: Vec<Pixel> = Vec::new();
        let mut shape_mask: Vec<bool> = Vec::new();
        let mut i: usize = 0;
        while i < len
            invariant
                i <= len,
                surface@.len() == i,
                shape_mask@.len() == i,
                forall|t: int| 0 <= t < i ==> #[trigger] surface@[t] == Pixel::spec_air(),
                forall|t: int| 0 <= t < i ==> !#[trigger] shape_mask@[t],
            decreases len - i,
        {
            surface.push(Pixel::air());
            shape_mask.push(false);
            i = i + 1;
        }
        let wi: i32 = if width <= 0x7fff_ffff {
            width as i32
        } else {
            (width as i64 - 0x1_0000_0000i64) as i32
        };
        let hi: i32 = if height <= 0x7fff_ffff {
            height as i32
        } else {
            (height as i64 - 0x1_0000_0000i64) as i32
        };
        PixelBody { width, height, surface, shape_mask, origin: (-wi / 2, -hi / 2) }
    }

    /// Returns the width of the pixel grid.
    pub fn width(&self) -> (w: u32)
        ensures
            w == self.width,
    {
        self.width
    }

    /// Returns the height of the pixel grid.
    pub fn height(&self) -> (h: u32)
        ensures
            h == self.height,
    {
        self.height
    }

    /// Returns the linear index for local coordinates, or None if out of
    /// bounds.
    fn index_of(&self, x: u32, y: u32) -> (i: Option<usize>)
        requires
            self.wf(),
        ensures
            i is Some <==> (x < self.width && y < self.height),
            i matches Some(k) ==> k as int == cell_index(self.width as int, x as int, y as int) && k
                < self.width * self.height,
    {
        let n = self.surface.len();
        if x < self.width && y < self.height {
            proof {
                lemma_cell_index_bounds(self.width as int, self.height as int, x as int, y as int);
            }
            Some((y as usize) * (self.width as usize) + (x as usize))
        } else {
            None
        }
    }

    /// Returns whether the pixel at local (x, y) belongs to the object.
    pub fn is_solid(&self, x: u32, y: u32) -> (b: bool)
        requires
            self.wf(),
        ensures
            b == self.solid_at(x as int, y as int),
    {
        match self.index_of(x, y) {
            Some(i) => self.shape_mask[i],
            None => false,
        }
    }

    /// Sets whether the pixel at local (x, y) belongs to the object; cells
    /// outside the grid are ignored.
    pub fn set_solid(&mut self, x: u32, y: u32, solid: bool)
        requires
            old(self).wf(),
        ensures
            final(self).wf(),
            final(self).width == old(self).width,
            final(self).height == old(self).height,
            final(self).origin == old(self).origin,
            final(self).surface@ == old(self).surface@,
            final(self).shape_mask@ == if x < old(self).width && y < old(self).height {
                old(self).shape_mask@.update(
                    cell_index(old(self).width as int, x as int, y as int),
                    solid,
                )
            } else {
                old(self).shape_mask@
            },
    {
        match self.index_of(x, y) {
            Some(i) => {
                self.shape_mask.set(i, solid);
            },
            None => {},
        }
    }

    /// Returns the pixel at local (x, y), if it lies in the grid.
    pub fn get_pixel(&self, x: u32, y: u32) -> (p: Option<&Pixel>)
        requires
            self.wf(),
        ensures
            x < self.width && y < self.height ==> p == Some(
                &self.surface@[cell_index(self.width as int, x as int, y as int)],
            ),
            !(x < self.width && y < self.height) ==> p is None,
    {
        match self.index_of(x, y) {
            Some(i) => Some(&self.surface[i]),
            None => None,
        }
    }

    /// Sets the pixel at local (x, y) and marks it solid in the shape mask
    /// unless it is air; cells outside the grid are ignored.
    pub fn set_pixel(&mut self, x: u32, y: u32, pixel: Pixel)
        requires
            old(self).wf(),
        ensures
            final(self).wf(),
            final(self).width == old(self).width,
            final(self).height == old(self).height,
            final(self).origin == old(self).origin,
            x < old(self).width && y < old(self).height ==> {
                let i = cell_index(old(self).width as int, x as int, y as int);
                &&& final(self).surface@ == old(self).surface@.update(i, pixel)
                &&& final(self).shape_mask@ == old(self).shape_mask@.update(i, pixel.material.0 != 0)
            },
            !(x < old(self).width && y < old(self).height) ==> final(self).surface@ == old(
                self,
            ).surface@ && final(self).shape_mask@ == old(self).shape_mask@,
    {
        match self.index_of(x, y) {
            Some(i) => {
                self.surface.set(i, pixel);
                self.shape_mask.set(i, !pixel.is_air());
            },
            None => {},
        }
    }

    /// Returns the number of solid pixels in the shape mask.
    pub fn solid_count(&self) -> (n: usize)
        ensures
            n == count_true(self.shape_mask@),
    {
        let mut n: usize = 0;
        let mut i: usize = 0;
        while i < self.shape_mask.len()
            invariant
                i <= self.shape_mask@.len(),
                n == count_true(self.shape_mask@.subrange(0, i as int)),
                n <= i,
            decreases self.shape_mask@.len() - i,
        {
            proof {
                assert(self.shape_mask@.subrange(0, i + 1).drop_last() =~= self.shape_mask@.subrange(
                    0,
                    i as int,
                ));
            }
            if self.shape_mask[i] {
                n = n + 1;
            }
            i = i + 1;
        }
        proof {
            assert(self.shape_mask@.subrange(0, self.shape_mask@.len() as int) =~= self.shape_mask@);
        }
        n
    }

    /// Returns true if the shape mask is entirely empty.
    pub fn is_empty(&self) -> (b: bool)
        ensures
            b == (forall|i: int| 0 <= i < self.shape_mask@.len() ==> !#[trigger] self.shape_mask@[i]),
    {
        let mut i: usize = 0;
        while i < self.shape_mask.len()
            invariant
                i <= self.shape_mask@.len(),
                forall|t: int| 0 <= t < i ==> !#[trigger] self.shape_mask@[t],
            decreases self.shape_mask@.len() - i,
        {
            if self.shape_mask[i] {
                return false;
            }
            i = i + 1;
        }
        true
    }

    /// The solid cell at integer local coordinates `(local_x, local_y)`
    /// (already offset by the origin), if there is one. The bounds are
    /// compared as `i32`, so a grid wider or taller than `i32::MAX` holds no
    /// cell reachable this way.
    pub fn solid_cell(&self, local_x: i32, local_y: i32) -> (r: Option<(u32, u32)>)
        requires
            self.wf(),
        ensures
            r matches Some(c) ==> c.0 == local_x && c.1 == local_y,
            r is Some <==> (local_x < wrap_i32(self.width) && local_y < wrap_i32(self.height)
                && self.solid_at(local_x as int, local_y as int)),
    {
        let wi: i32 = if self.width <= 0x7fff_ffff {
            self.width as i32
        } else {
            (self.width as i64 - 0x1_0000_0000i64) as i32
        };
        let hi: i32 = if self.height <= 0x7fff_ffff {
            self.height as i32
        } else {
            (self.height as i64 - 0x1_0000_0000i64) as i32
        };
        if local_x < 0 || local_x >= wi || local_y < 0 || local_y >= hi {
            return None;
        }
        let (lx, ly) = (local_x as u32, local_y as u32);
        if !self.is_solid(lx, ly) {
            return None;
        }
        Some((lx, ly))
    }
}

} // verus!
