//! Collider shape extraction for pixel bodies.
//!
//! A body's collider is traced around its solid cells; the tracing works on
//! a grid with an empty border, so that every contour closes.
use vstd::prelude::*;

use super::PixelBody;

verus! {

/// The marching grid of a body: its shape mask framed by a one-cell empty
/// border, row `y + 1`, column `x + 1` holding cell `(x, y)`.
pub open spec fn marching_cell(body: PixelBody, gx: int, gy: int) -> bool {
    1 <= gx <= body.width && 1 <= gy <= body.height && body.solid_at(gx - 1, gy - 1)
}

/// Builds the grid that contour tracing runs on: the shape mask with a
/// one-pixel empty border on each side.
pub fn build_marching_grid(body: &PixelBody) -> (grid: Vec<Vec<bool>>)
    requires
        body.wf(),
        body.width + 2 <= usize::MAX,
        body.height + 2 <= usize::MAX,
    ensures
        grid@.len() == body.height + 2,
        forall|gy: int| 0 <= gy < grid@.len() ==> (#[trigger] grid@[gy])@.len() == body.width + 2,
        forall|gx: int, gy: int|
            0 <= gy < grid@.len() && 0 <= gx < body.width + 2 ==> #[trigger] grid@[gy]@[gx]
                == marching_cell(*body, gx, gy),
        forall|x: int, y: int|
            0 <= x < body.width && 0 <= y < body.height ==> #[trigger] grid@[y + 1]@[x + 1]
                == body.solid_at(x, y),
        forall|gx: int|
            0 <= gx < body.width + 2 ==> !#[trigger] grid@[0]@[gx] && !grid@[body.height + 1]@[gx],
        forall|gy: int|
            0 <= gy < body.height + 2 ==> !#[trigger] grid@[gy]@[0] && !grid@[gy]@[body.width + 1],
{
    let width = body.width as usize;
    let height = body.height as usize;
    let grid_width = width + 2;
    let grid_height = height + 2;
    let mut grid: Vec<Vec<bool>> = Vec::new();
    let mut gy: usize = 0;
    while gy < grid_height
        invariant
            body.wf(),
            width == body.width,
            height == body.height,
            grid_width == width + 2,
            grid_height == height + 2,
            gy <= grid_height,
            grid@.len() == gy,
            forall|t: int| 0 <= t < gy ==> (#[trigger] grid@[t])@.len() == grid_width,
            forall|gx: int, t: int|
                0 <= t < gy && 0 <= gx < grid_width ==> #[trigger] grid@[t]@[gx] == marching_cell(
                    *body,
                    gx,
                    t,
                ),
        decreases grid_height - gy,
    {
        let mut row: Vec<bool> = Vec::new();
        let mut gx: usize = 0;
        while gx < grid_width
            invariant
                body.wf(),
                width == body.width,
                height == body.height,
                grid_width == width + 2,
                grid_height == height + 2,
                gy < grid_height,
                gx <= grid_width,
                row@.len() == gx,
                forall|t: int| 0 <= t < gx ==> #[trigger] row@[t] == marching_cell(*body, t, gy as int),
            decreases grid_width - gx,
        {
            let solid = if 1 <= gx && gx <= width && 1 <= gy && gy <= height {
                body.is_solid((gx - 1) as u32, (gy - 1) as u32)
            } else {
                false
            };
            row.push(solid);
            gx = gx + 1;
        }
        grid.push(row);
        gy = gy + 1;
    }
    proof {
        assert forall|x: int, y: int|
            0 <= x < body.width && 0 <= y < body.height implies #[trigger] grid@[y + 1]@[x + 1]
                == body.solid_at(x, y) by {
            lemma_marching_grid_frames_mask(*body, x, y);
        }
    }
    grid
}

/// The marching grid holds cell `(x, y)` of the body at row `y + 1`, column
/// `x + 1`, as the body's shape mask has it, and its border rows and columns
/// are empty: the grid is the mask shifted by one cell, not reflected.
pub proof fn lemma_marching_grid_frames_mask(body: PixelBody, x: int, y: int)
    ensures
        0 <= x < body.width && 0 <= y < body.height ==> marching_cell(body, x + 1, y + 1)
            == body.solid_at(x, y),
        !marching_cell(body, x, 0),
        !marching_cell(body, 0, y),
        !marching_cell(body, x, body.height + 1),
        !marching_cell(body, body.width + 1, y),
{
}

} // verus!
