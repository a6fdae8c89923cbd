//! Applying detected pixel destruction to pixel bodies.
use vstd::prelude::*;

use super::{cell_index, lemma_cell_index_bounds, lemma_cell_index_injective, PixelBody};

verus! {

/// Whether body cell `(x, y)` is one of the destroyed pixels.
pub open spec fn is_destroyed(destroyed: Seq<(u32, u32)>, x: int, y: int) -> bool {
    exists|k: int| 0 <= k < destroyed.len() && (#[trigger] destroyed[k]).0 == x && destroyed[k].1 == y
}

/// Removes destroyed pixels from a body's shape mask; positions outside the
/// grid are ignored and the surface is left as it is.
pub fn apply_destroyed_pixels(body: &mut PixelBody, destroyed: &[(u32, u32)])
    requires
        old(body).wf(),
    ensures
        final(body).wf(),
        final(body).width == old(body).width,
        final(body).height == old(body).height,
        final(body).origin == old(body).origin,
        final(body).surface@ == old(body).surface@,
        forall|x: int, y: int|
            0 <= x < old(body).width && 0 <= y < old(body).height ==> #[trigger] final(body).solid_at(x, y)
                == (old(body).solid_at(x, y) && !is_destroyed(destroyed@, x, y)),
{
    let ghost b0 = *body;
    let ghost w = body.width as int;
    let ghost h = body.height as int;
    let mut k: usize = 0;
    while k < destroyed.len()
        invariant
            k <= destroyed@.len(),
            body.wf(),
            body.width == b0.width,
            body.height == b0.height,
            body.origin == b0.origin,
            body.surface@ == b0.surface@,
            w == b0.width,
            h == b0.height,
            b0.wf(),
            forall|x: int, y: int|
                0 <= x < w && 0 <= y < h ==> #[trigger] body.solid_at(x, y) == (b0.solid_at(x, y)
                    && !is_destroyed(destroyed@.subrange(0, k as int), x, y)),
        decreases destroyed@.len() - k,
    {
        let (lx, ly) = destroyed[k];
        let ghost before = *body;
        body.set_solid(lx, ly, false);
        proof {
            let pre = destroyed@.subrange(0, k as int);
            let post = destroyed@.subrange(0, k + 1);
            assert forall|x: int, y: int| 0 <= x < w && 0 <= y < h implies #[trigger] body.solid_at(x, y)
                == (b0.solid_at(x, y) && !is_destroyed(post, x, y)) by {
                lemma_cell_index_bounds(w, h, x, y);
                assert(before.solid_at(x, y) == (b0.solid_at(x, y) && !is_destroyed(pre, x, y)));
                assert(is_destroyed(post, x, y) == (is_destroyed(pre, x, y) || (x == lx && y == ly))) by {
                    if is_destroyed(post, x, y) {
                        let t = choose|t: int| 0 <= t < post.len() && (#[trigger] post[t]).0 == x && post[t].1 == y;
                        if t < k {
                            assert(pre[t] == post[t]);
                        }
                    }
                    if is_destroyed(pre, x, y) {
                        let t = choose|t: int| 0 <= t < pre.len() && (#[trigger] pre[t]).0 == x && pre[t].1 == y;
                        assert(post[t] == pre[t]);
                    }
                    if x == lx && y == ly {
                        assert(post[k as int] == (lx, ly));
                    }
                }
                if !(x == lx && y == ly) {
                    if lx < w && ly < h {
                        lemma_cell_index_bounds(w, h, lx as int, ly as int);
                        if cell_index(w, x, y) == cell_index(w, lx as int, ly as int) {
                            lemma_cell_index_injective(w, x, y, lx as int, ly as int);
                        }
                    }
                    assert(body.shape_mask@[cell_index(w, x, y)] == before.shape_mask@[cell_index(w, x, y)]);
                }
            }
        }
        k = k + 1;
    }
    proof {
        assert(destroyed@.subrange(0, destroyed@.len() as int) =~= destroyed@);
    }
}

} // verus!
