//! Pixel body splitting via connected components.
//!
//! When pixels are destroyed, a body may fall apart into pieces that no
//! longer touch. This module finds those pieces: the 4-connected components
//! of the body's shape mask.
use vstd::prelude::*;

use super::{
    cell_index, half_toward_zero, lemma_cell_index_injective, lemma_cell_index_bounds, wrap_i32,
    PixelBody,
};
use crate::pixel::Pixel;

verus! {

/// Whether `(x, y)` is a solid cell of the `w` by `h` row-major mask.
pub open spec fn mask_solid(mask: Seq<bool>, w: int, h: int, x: int, y: int) -> bool {
    0 <= x < w && 0 <= y < h && mask[y * w + x]
}

/// Whether two cells share an edge.
pub open spec fn touching(a: (int, int), b: (int, int)) -> bool {
    (a.0 == b.0 && (a.1 == b.1 + 1 || b.1 == a.1 + 1)) || (a.1 == b.1 && (a.0 == b.0 + 1 || b.0
        == a.0 + 1))
}

/// `p` is a walk through solid cells, each step to an edge neighbour.
pub open spec fn is_solid_path(mask: Seq<bool>, w: int, h: int, p: Seq<(int, int)>) -> bool {
    &&& p.len() > 0
    &&& forall|k: int| 0 <= k < p.len() ==> mask_solid(mask, w, h, (#[trigger] p[k]).0, p[k].1)
    &&& forall|k: int| 0 <= k < p.len() - 1 ==> touching(#[trigger] p[k], p[k + 1])
}

/// Whether a walk through solid cells leads from `a` to `b`.
pub open spec fn connected(mask: Seq<bool>, w: int, h: int, a: (int, int), b: (int, int)) -> bool {
    exists|p: Seq<(int, int)>| #[trigger]
        is_solid_path(mask, w, h, p) && p[0] == a && p[p.len() - 1] == b
}

pub proof fn lemma_connected_refl(mask: Seq<bool>, w: int, h: int, a: (int, int))
    requires
        mask_solid(mask, w, h, a.0, a.1),
    ensures
        connected(mask, w, h, a, a),
{
    let p = seq![a];
    assert(is_solid_path(mask, w, h, p));
}

pub proof fn lemma_connected_step(mask: Seq<bool>, w: int, h: int, a: (int, int), b: (int, int))
    requires
        mask_solid(mask, w, h, a.0, a.1),
        mask_solid(mask, w, h, b.0, b.1),
        touching(a, b),
    ensures
        connected(mask, w, h, a, b),
{
    let p = seq![a, b];
    assert(is_solid_path(mask, w, h, p));
}

pub proof fn lemma_connected_sym(mask: Seq<bool>, w: int, h: int, a: (int, int), b: (int, int))
    requires
        connected(mask, w, h, a, b),
    ensures
        connected(mask, w, h, b, a),
{
    let p = choose|p: Seq<(int, int)>| #[trigger]
        is_solid_path(mask, w, h, p) && p[0] == a && p[p.len() - 1] == b;
    let q = p.reverse();
    assert forall|k: int| 0 <= k < q.len() - 1 implies touching(#[trigger] q[k], q[k + 1]) by {
        let j = p.len() - 2 - k;
        assert(touching(p[j], p[j + 1]));
    }
    assert forall|k: int| 0 <= k < q.len() implies mask_solid(mask, w, h, (#[trigger] q[k]).0, q[k].1) by {
        assert(mask_solid(mask, w, h, p[p.len() - 1 - k].0, p[p.len() - 1 - k].1));
    }
    assert(is_solid_path(mask, w, h, q));
}

pub proof fn lemma_connected_trans(
    mask: Seq<bool>,
    w: int,
    h: int,
    a: (int, int),
    b: (int, int),
    c: (int, int),
)
    requires
        connected(mask, w, h, a, b),
        connected(mask, w, h, b, c),
    ensures
        connected(mask, w, h, a, c),
{
    let p = choose|p: Seq<(int, int)>| #[trigger]
        is_solid_path(mask, w, h, p) && p[0] == a && p[p.len() - 1] == b;
    let q = choose|q: Seq<(int, int)>| #[trigger]
        is_solid_path(mask, w, h, q) && q[0] == b && q[q.len() - 1] == c;
    let r = p + q.drop_first();
    assert forall|k: int| 0 <= k < r.len() implies mask_solid(mask, w, h, (#[trigger] r[k]).0, r[k].1) by {
        if k < p.len() {
            assert(r[k] == p[k]);
        } else {
            assert(r[k] == q[k - p.len() + 1]);
        }
    }
    assert forall|k: int| 0 <= k < r.len() - 1 implies touching(#[trigger] r[k], r[k + 1]) by {
        if k < p.len() - 1 {
            assert(r[k] == p[k] && r[k + 1] == p[k + 1]);
        } else if k == p.len() - 1 {
            assert(r[k] == q[0]);
            assert(r[k + 1] == q[1]);
            assert(touching(q[0], q[1]));
        } else {
            let j = k - p.len() + 1;
            assert(r[k] == q[j] && r[k + 1] == q[j + 1]);
        }
    }
    assert(is_solid_path(mask, w, h, r));
    assert(r[r.len() - 1] == c);
}

/// The cell at linear index `i` of a grid `w` wide.
pub open spec fn coord(w: int, i: int) -> (int, int) {
    (i % w, i / w)
}

proof fn lemma_coord_of_index(w: int, x: int, y: int)
    requires
        0 <= x < w,
        0 <= y,
    ensures
        coord(w, y * w + x) == (x, y),
{
    vstd::arithmetic::div_mod::lemma_fundamental_div_mod_converse(y * w + x, w, y, x);
}

/// Whether a cell index is a solid cell of the mask.
pub open spec fn index_solid(mask: Seq<bool>, w: int, h: int, i: int) -> bool {
    mask_solid(mask, w, h, coord(w, i).0, coord(w, i).1)
}

// ---------------------------------------------------------------------------
// Union-find over cell indices
// ---------------------------------------------------------------------------

/// Parents stay in range, and ranks strictly increase from a cell to its
/// parent.
pub open spec fn ranked(p: Seq<usize>, rk: Seq<u8>) -> bool {
    &&& rk.len() == p.len()
    &&& forall|i: int| 0 <= i < p.len() ==> #[trigger] p[i] < p.len()
    &&& forall|i: int| 0 <= i < p.len() && p[i] != i ==> rk[i] < rk[#[trigger] p[i] as int]
}

/// The parent links form trees: some ranking makes them climb.
pub open spec fn uf_wf(p: Seq<usize>) -> bool {
    exists|rk: Seq<u8>| #[trigger] ranked(p, rk)
}

/// The cell reached from `i` by following parents at most `fuel` times.
pub open spec fn root_within(p: Seq<usize>, i: int, fuel: nat) -> int
    decreases fuel,
{
    if fuel > 0 && 0 <= i < p.len() && p[i] != i {
        root_within(p, p[i] as int, (fuel - 1) as nat)
    } else {
        i
    }
}

/// The representative of `i`: follow parents to a cell that is its own
/// parent (ranks fit in a byte, so 256 steps always get there).
pub open spec fn root(p: Seq<usize>, i: int) -> int {
    root_within(p, i, 256)
}

/// Every non-root cell is solid and connected to its solid parent.
pub open spec fn uf_conn(p: Seq<usize>, mask: Seq<bool>, w: int, h: int) -> bool {
    forall|i: int|
        0 <= i < p.len() ==> #[trigger] p[i] == i || (index_solid(mask, w, h, i) && index_solid(
            mask,
            w,
            h,
            p[i] as int,
        ) && connected(mask, w, h, coord(w, i), coord(w, p[i] as int)))
}

/// Enough fuel reaches the same cell, a root of rank at least `i`'s.
proof fn lemma_root_within(p: Seq<usize>, rk: Seq<u8>, i: int, fuel: nat)
    requires
        ranked(p, rk),
        0 <= i < p.len(),
        fuel >= 256 - rk[i],
    ensures
        root_within(p, i, fuel) == root(p, i),
        0 <= root(p, i) < p.len(),
        p[root(p, i)] == root(p, i),
        rk[i] <= rk[root(p, i)],
        p[i] != i ==> rk[i] < rk[root(p, i)],
    decreases 256 - rk[i],
{
    if p[i] != i {
        let j = p[i] as int;
        assert(rk[i] < rk[j]);
        lemma_root_within(p, rk, j, (fuel - 1) as nat);
        lemma_root_within(p, rk, j, 255);
    }
}

/// A non-root cell has its parent's root.
proof fn lemma_root_step(p: Seq<usize>, rk: Seq<u8>, i: int)
    requires
        ranked(p, rk),
        0 <= i < p.len(),
        p[i] != i,
    ensures
        root(p, i) == root(p, p[i] as int),
{
    let j = p[i] as int;
    assert(rk[i] < rk[j]);
    lemma_root_within(p, rk, j, 255);
    lemma_root_within(p, rk, j, 256);
}

proof fn lemma_root_props(p: Seq<usize>, i: int)
    requires
        uf_wf(p),
        0 <= i < p.len(),
    ensures
        0 <= root(p, i) < p.len(),
        p[root(p, i)] == root(p, i),
        p[i] == i ==> root(p, i) == i,
{
    let rk = choose|rk: Seq<u8>| ranked(p, rk);
    lemma_root_within(p, rk, i, 256);
}

proof fn lemma_root_conn(p: Seq<usize>, mask: Seq<bool>, w: int, h: int, i: int)
    requires
        uf_wf(p),
        uf_conn(p, mask, w, h),
        0 <= i < p.len(),
    ensures
        root(p, i) == i || (index_solid(mask, w, h, i) && index_solid(mask, w, h, root(p, i))
            && connected(mask, w, h, coord(w, i), coord(w, root(p, i)))),
{
    let rk = choose|rk: Seq<u8>| ranked(p, rk);
    lemma_root_conn_ranked(p, rk, mask, w, h, i);
}

proof fn lemma_root_conn_ranked(p: Seq<usize>, rk: Seq<u8>, mask: Seq<bool>, w: int, h: int, i: int)
    requires
        ranked(p, rk),
        uf_conn(p, mask, w, h),
        0 <= i < p.len(),
    ensures
        root(p, i) == i || (index_solid(mask, w, h, i) && index_solid(mask, w, h, root(p, i))
            && connected(mask, w, h, coord(w, i), coord(w, root(p, i)))),
    decreases 256 - rk[i],
{
    lemma_root_within(p, rk, i, 256);
    if p[i] != i {
        let j = p[i] as int;
        assert(rk[i] < rk[j]);
        lemma_root_step(p, rk, i);
        lemma_root_conn_ranked(p, rk, mask, w, h, j);
        assert(p[i] == i || (index_solid(mask, w, h, i) && index_solid(mask, w, h, j)
            && connected(mask, w, h, coord(w, i), coord(w, j))));
        if root(p, j) != j {
            lemma_connected_trans(mask, w, h, coord(w, i), coord(w, j), coord(w, root(p, j)));
        }
    }
}

/// Pointing `x` straight at its root keeps the ranking and every root.
proof fn lemma_compress_root(p: Seq<usize>, rk: Seq<u8>, x: int, j: int)
    requires
        ranked(p, rk),
        0 <= x < p.len(),
        p[x] != x,
        0 <= j < p.len(),
    ensures
        ranked(p.update(x, root(p, x) as usize), rk),
        root(p.update(x, root(p, x) as usize), j) == root(p, j),
    decreases 256 - rk[j],
{
    let r = root(p, x);
    let q = p.update(x, r as usize);
    lemma_root_within(p, rk, x, 256);
    assert forall|i: int| 0 <= i < q.len() && q[i] != i implies rk[i] < rk[#[trigger] q[i] as int] by {
        if i != x {
            assert(q[i] == p[i]);
        }
    }
    assert(ranked(q, rk));
    lemma_root_within(q, rk, j, 256);
    lemma_root_within(p, rk, j, 256);
    if j == x {
        lemma_root_step(q, rk, x);
        lemma_root_within(q, rk, r, 256);
    } else if p[j] != j {
        assert(rk[j] < rk[p[j] as int]);
        lemma_compress_root(p, rk, x, p[j] as int);
        lemma_root_step(q, rk, j);
        lemma_root_step(p, rk, j);
    }
}

/// Linking root `lo` under root `hi` (with a ranking in which `hi` ranks
/// above `lo`) sends the cells of `lo`'s tree to `hi` and keeps every other
/// root.
proof fn lemma_link_root(p: Seq<usize>, rk: Seq<u8>, rk2: Seq<u8>, lo: int, hi: int, j: int)
    requires
        ranked(p, rk),
        0 <= lo < p.len(),
        0 <= hi < p.len(),
        lo != hi,
        p[lo] == lo,
        p[hi] == hi,
        rk2.len() == rk.len(),
        forall|i: int| 0 <= i < rk.len() && i != hi ==> #[trigger] rk2[i] == rk[i],
        rk[hi] <= rk2[hi],
        rk2[lo] < rk2[hi],
        0 <= j < p.len(),
    ensures
        ranked(p.update(lo, hi as usize), rk2),
        root(p.update(lo, hi as usize), j) == if root(p, j) == lo {
            hi
        } else {
            root(p, j)
        },
    decreases 256 - rk[j],
{
    let q = p.update(lo, hi as usize);
    assert forall|i: int| 0 <= i < q.len() && q[i] != i implies rk2[i] < rk2[#[trigger] q[i] as int] by {
        if i != lo {
            assert(q[i] == p[i]);
            assert(rk[i] < rk[p[i] as int]);
            assert(i != hi);
        }
    }
    assert(ranked(q, rk2));
    lemma_root_within(p, rk, j, 256);
    if j == lo {
        lemma_root_step(q, rk2, lo);
        lemma_root_within(q, rk2, hi, 256);
    } else if p[j] == j {
        lemma_root_within(q, rk2, j, 256);
    } else {
        assert(rk[j] < rk[p[j] as int]);
        lemma_link_root(p, rk, rk2, lo, hi, p[j] as int);
        lemma_root_step(q, rk2, j);
        lemma_root_step(p, rk, j);
    }
}

/// The number of cells below `k` whose root is `r`.
pub open spec fn count_root(p: Seq<usize>, r: int, k: int) -> nat
    decreases k,
{
    if k <= 0 {
        0
    } else {
        count_root(p, r, k - 1) + if root(p, k - 1) == r {
            1nat
        } else {
            0nat
        }
    }
}

/// Every root's tree holds at least two to the power of its rank cells.
pub open spec fn sized(p: Seq<usize>, rk: Seq<u8>) -> bool {
    forall|r: int|
        0 <= r < p.len() && #[trigger] p[r] == r ==> count_root(p, r, p.len() as int)
            >= vstd::arithmetic::power2::pow2(rk[r] as nat)
}

proof fn lemma_count_bound(p: Seq<usize>, r: int, k: int)
    requires
        0 <= k,
    ensures
        count_root(p, r, k) <= k,
    decreases k,
{
    if k > 0 {
        lemma_count_bound(p, r, k - 1);
    }
}

/// A root counts itself.
proof fn lemma_count_self(p: Seq<usize>, r: int, k: int)
    requires
        0 <= r < k,
        root(p, r) == r,
    ensures
        count_root(p, r, k) >= 1,
    decreases k,
{
    if k - 1 > r {
        lemma_count_self(p, r, k - 1);
    }
}

/// Counts depend on roots alone.
proof fn lemma_count_same_roots(p: Seq<usize>, q: Seq<usize>, r: int, k: int)
    requires
        forall|i: int| 0 <= i < k ==> #[trigger] root(q, i) == root(p, i),
    ensures
        count_root(q, r, k) == count_root(p, r, k),
    decreases k,
{
    if k > 0 {
        lemma_count_same_roots(p, q, r, k - 1);
    }
}

/// After linking `lo` under `hi`, `hi` counts both trees; other roots keep
/// their counts.
proof fn lemma_count_link(p: Seq<usize>, q: Seq<usize>, lo: int, hi: int, r: int, k: int)
    requires
        lo != hi,
        forall|i: int| 0 <= i < k ==> #[trigger] root(q, i) == if root(p, i) == lo {
            hi
        } else {
            root(p, i)
        },
    ensures
        count_root(q, hi, k) == count_root(p, hi, k) + count_root(p, lo, k),
        r != hi && r != lo ==> count_root(q, r, k) == count_root(p, r, k),
    decreases k,
{
    if k > 0 {
        lemma_count_link(p, q, lo, hi, r, k - 1);
        assert(root(q, k - 1) == if root(p, k - 1) == lo { hi } else { root(p, k - 1) });
    }
}

/// A rank that `sized` allows fits far below a byte's limit.
proof fn lemma_rank_small(p: Seq<usize>, rk: Seq<u8>, r: int)
    requires
        sized(p, rk),
        p.len() <= usize::MAX,
        0 <= r < p.len(),
        p[r] == r,
    ensures
        rk[r] < 64,
{
    lemma_count_bound(p, r, p.len() as int);
    vstd::arithmetic::power2::lemma2_to64();
    if rk[r] > 64 {
        vstd::arithmetic::power2::lemma_pow2_strictly_increases(64, rk[r] as nat);
    }
}

struct UnionFind {
    parent: Vec<usize>,
    rank: Vec<u8>,
}

impl UnionFind {
    /// The forest is ranked, and each tree is large for its rank.
    spec fn inv(&self) -> bool {
        &&& ranked(self.parent@, self.rank@)
        &&& sized(self.parent@, self.rank@)
    }

    /// Every cell its own set.
    fn new(size: usize) -> (uf: Self)
        ensures
            uf.inv(),
            uf_wf(uf.parent@),
            uf.parent@.len() == size,
            forall|i: int| 0 <= i < size ==> #[trigger] uf.parent@[i] == i,
    {
        let mut parent: Vec<usize> = Vec::new();
        let mut rank: Vec<u8> = Vec::new();
        let mut i: usize = 0;
        while i < size
            invariant
                i <= size,
                parent@.len() == i,
                rank@.len() == i,
                forall|t: int| 0 <= t < i ==> #[trigger] parent@[t] == t,
                forall|t: int| 0 <= t < i ==> #[trigger] rank@[t] == 0,
            decreases size - i,
        {
            parent.push(i);
            rank.push(0);
            i = i + 1;
        }
        let uf = UnionFind { parent, rank };
        proof {
            let p = uf.parent@;
            assert(ranked(p, uf.rank@));
            assert forall|r: int| 0 <= r < p.len() && #[trigger] p[r] == r implies count_root(
                p,
                r,
                p.len() as int,
            ) >= vstd::arithmetic::power2::pow2(uf.rank@[r] as nat) by {
                lemma_root_within(p, uf.rank@, r, 256);
                lemma_count_self(p, r, p.len() as int);
                vstd::arithmetic::power2::lemma2_to64();
            }
        }
        uf
    }

    /// The representative of `x`, compressing the path to it.
    fn find(&mut self, x: usize) -> (r: usize)
        requires
            old(self).inv(),
            x < old(self).parent@.len(),
        ensures
            final(self).inv(),
            uf_wf(final(self).parent@),
            final(self).rank@ == old(self).rank@,
            final(self).parent@.len() == old(self).parent@.len(),
            r == root(old(self).parent@, x as int),
            forall|j: int|
                0 <= j < old(self).parent@.len() ==> #[trigger] root(final(self).parent@, j) == root(
                    old(self).parent@,
                    j,
                ),
            forall|j: int|
                0 <= j < old(self).parent@.len() ==> #[trigger] final(self).parent@[j] == old(
                    self,
                ).parent@[j] || final(self).parent@[j] == root(old(self).parent@, j),
            forall|j: int|
                0 <= j < old(self).parent@.len() ==> (#[trigger] final(self).parent@[j] == j) == (old(
                    self,
                ).parent@[j] == j),
    {
        let ghost p0 = self.parent@;
        let ghost rk = self.rank@;
        let n = self.parent.len();
        let mut r = x;
        proof {
            lemma_root_within(p0, rk, x as int, 256);
        }
        while self.parent[r] != r
            invariant
                self.parent@ == p0,
                self.rank@ == rk,
                n == p0.len(),
                ranked(p0, rk),
                r < n,
                root(p0, r as int) == root(p0, x as int),
            decreases 256 - rk[r as int],
        {
            proof {
                lemma_root_step(p0, rk, r as int);
                assert(rk[r as int] < rk[p0[r as int] as int]);
            }
            r = self.parent[r];
        }
        proof {
            lemma_root_within(p0, rk, r as int, 256);
        }
        let mut c = x;
        while self.parent[c] != r
            invariant
                ranked(self.parent@, rk),
                self.rank@ == rk,
                self.parent@.len() == n,
                n == p0.len(),
                ranked(p0, rk),
                c < n,
                r == root(p0, x as int),
                root(self.parent@, c as int) == r,
                forall|j: int| 0 <= j < n ==> #[trigger] root(self.parent@, j) == root(p0, j),
                forall|j: int|
                    0 <= j < n ==> #[trigger] self.parent@[j] == p0[j] || self.parent@[j] == root(
                        p0,
                        j,
                    ),
                forall|j: int| 0 <= j < n ==> (#[trigger] self.parent@[j] == j) == (p0[j] == j),
            decreases 256 - rk[c as int],
        {
            let ghost cur = self.parent@;
            let next = self.parent[c];
            proof {
                assert(cur[c as int] != c) by {
                    if cur[c as int] == c {
                        lemma_root_within(cur, rk, c as int, 256);
                    }
                }
                lemma_root_within(cur, rk, c as int, 256);
                assert forall|j: int| 0 <= j < n implies #[trigger] root(
                    cur.update(c as int, r),
                    j,
                ) == root(p0, j) by {
                    lemma_compress_root(cur, rk, c as int, j);
                }
                lemma_compress_root(cur, rk, c as int, c as int);
                lemma_root_step(cur, rk, c as int);
                assert(rk[c as int] < rk[next as int]);
            }
            self.parent.set(c, r);
            proof {
                assert(self.parent@ == cur.update(c as int, r));
                lemma_root_within(p0, rk, c as int, 256);
                assert forall|j: int| 0 <= j < n implies (#[trigger] self.parent@[j] == j) == (p0[j] == j) by {
                    if j == c {
                        lemma_root_within(p0, rk, j, 256);
                    }
                }
            }
            c = next;
        }
        proof {
            let p1 = self.parent@;
            assert forall|j: int| 0 <= j < n implies #[trigger] root(p1, j) == root(p0, j) by {}
            assert forall|q: int| 0 <= q < p1.len() && #[trigger] p1[q] == q implies count_root(
                p1,
                q,
                p1.len() as int,
            ) >= vstd::arithmetic::power2::pow2(rk[q] as nat) by {
                lemma_count_same_roots(p0, p1, q, n as int);
            }
            assert(uf_wf(p1));
        }
        r
    }

    /// Merges the sets of two touching solid cells, the root of lower rank
    /// going under the other (the first one's root on a tie, whose rank then
    /// grows).
    fn union(&mut self, a: usize, b: usize, Ghost(mask): Ghost<Seq<bool>>, Ghost(w): Ghost<int>, Ghost(h): Ghost<int>)
        requires
            old(self).inv(),
            uf_conn(old(self).parent@, mask, w, h),
            a < old(self).parent@.len(),
            b < old(self).parent@.len(),
            index_solid(mask, w, h, a as int),
            index_solid(mask, w, h, b as int),
            touching(coord(w, a as int), coord(w, b as int)),
        ensures
            final(self).inv(),
            uf_wf(final(self).parent@),
            uf_conn(final(self).parent@, mask, w, h),
            final(self).parent@.len() == old(self).parent@.len(),
            root(final(self).parent@, a as int) == root(final(self).parent@, b as int),
            forall|i: int, j: int|
                0 <= i < old(self).parent@.len() && 0 <= j < old(self).parent@.len() && root(
                    old(self).parent@,
                    i,
                ) == root(old(self).parent@, j) ==> #[trigger] root(final(self).parent@, i)
                    == #[trigger] root(final(self).parent@, j),
    {
        let ghost p0 = self.parent@;
        let ra = self.find(a);
        proof {
            lemma_find_keeps_conn(p0, self.parent@, mask, w, h);
        }
        let ghost p1 = self.parent@;
        let rb = self.find(b);
        proof {
            lemma_find_keeps_conn(p1, self.parent@, mask, w, h);
        }
        if ra == rb {
            return;
        }
        let ghost p2 = self.parent@;
        let ghost rk = self.rank@;
        let count = self.parent.len();
        proof {
            assert(p2.len() == count);
            lemma_root_within(p2, rk, a as int, 256);
            lemma_root_within(p2, rk, b as int, 256);
            lemma_root_conn_ranked(p2, rk, mask, w, h, a as int);
            lemma_root_conn_ranked(p2, rk, mask, w, h, b as int);
            lemma_connected_step(mask, w, h, coord(w, a as int), coord(w, b as int));
            // ra ~ a ~ b ~ rb
            let ca = coord(w, a as int);
            let cb = coord(w, b as int);
            let cra = coord(w, ra as int);
            let crb = coord(w, rb as int);
            if ra != a {
                lemma_connected_sym(mask, w, h, ca, cra);
                lemma_connected_trans(mask, w, h, cra, ca, cb);
            }
            assert(connected(mask, w, h, cra, cb));
            if rb != b {
                lemma_connected_trans(mask, w, h, cra, cb, crb);
            }
            assert(connected(mask, w, h, cra, crb));
            lemma_connected_sym(mask, w, h, cra, crb);
            lemma_rank_small(p2, rk, ra as int);
            lemma_rank_small(p2, rk, rb as int);
        }
        let ghost lo: int = if rk[ra as int] < rk[rb as int] { ra as int } else { rb as int };
        let ghost hi: int = if rk[ra as int] < rk[rb as int] { rb as int } else { ra as int };
        if self.rank[ra] < self.rank[rb] {
            self.parent.set(ra, rb);
        } else if self.rank[ra] > self.rank[rb] {
            self.parent.set(rb, ra);
        } else {
            self.parent.set(rb, ra);
            let bumped = self.rank[ra] + 1;
            self.rank.set(ra, bumped);
        }
        proof {
            let p3 = self.parent@;
            let rk3 = self.rank@;
            assert(p3 == p2.update(lo, hi as usize));
            assert forall|j: int| 0 <= j < p2.len() implies #[trigger] root(p3, j) == if root(p2, j) == lo { hi } else { root(p2, j) } by {
                lemma_link_root(p2, rk, rk3, lo, hi, j);
            }
            lemma_link_root(p2, rk, rk3, lo, hi, 0);
            assert(connected(mask, w, h, coord(w, lo), coord(w, hi))) by {
                if lo != ra as int {
                    lemma_connected_sym(mask, w, h, coord(w, ra as int), coord(w, rb as int));
                }
            }
            assert forall|i: int| 0 <= i < p3.len() implies #[trigger] p3[i] == i || (index_solid(mask, w, h, i) && index_solid(mask, w, h, p3[i] as int) && connected(mask, w, h, coord(w, i), coord(w, p3[i] as int))) by {
                if i != lo {
                    assert(p3[i] == p2[i]);
                }
            }
            let n = p2.len() as int;
            assert forall|q: int| 0 <= q < p3.len() && #[trigger] p3[q] == q implies count_root(
                p3,
                q,
                n,
            ) >= vstd::arithmetic::power2::pow2(rk3[q] as nat) by {
                lemma_count_link(p2, p3, lo, hi, q, n);
                assert(q != lo);
                assert(p2[q] == q);
                if q == hi {
                    if rk3[q] != rk[q] {
                        vstd::arithmetic::power2::lemma_pow2_unfold(rk3[q] as nat);
                    } else {
                        assert(count_root(p3, q, n) >= count_root(p2, q, n));
                    }
                }
            }
            assert(uf_wf(p3));
        }
    }
}

/// Cell `(x, y)` and its right neighbour, if both solid, share a root.
pub open spec fn right_joined(p: Seq<usize>, mask: Seq<bool>, w: int, h: int, x: int, y: int) -> bool {
    mask_solid(mask, w, h, x, y) && mask_solid(mask, w, h, x + 1, y) ==> root(p, y * w + x)
        == root(p, y * w + x + 1)
}

/// Cell `(x, y)` and its upper neighbour, if both solid, share a root.
pub open spec fn up_joined(p: Seq<usize>, mask: Seq<bool>, w: int, h: int, x: int, y: int) -> bool {
    mask_solid(mask, w, h, x, y) && mask_solid(mask, w, h, x, y + 1) ==> root(p, y * w + x)
        == root(p, (y + 1) * w + x)
}

/// Whether cell `(x, y)` comes before `(cx, cy)` in row-major scan order.
pub open spec fn scanned_before(x: int, y: int, cx: int, cy: int) -> bool {
    y < cy || (y == cy && x < cx)
}

/// Unions adjacent solid pixels using 4-connectivity.
fn union_adjacent_pixels(
    uf: &mut UnionFind,
    shape_mask: &[bool],
    w: usize,
    h: usize,
)
    requires
        old(uf).inv(),
        old(uf).parent@.len() == w * h,
        uf_conn(old(uf).parent@, shape_mask@, w as int, h as int),
        shape_mask@.len() >= w * h,
    ensures
        final(uf).inv(),
        uf_wf(final(uf).parent@),
        final(uf).parent@.len() == w * h,
        uf_conn(final(uf).parent@, shape_mask@, w as int, h as int),
        forall|x: int, y: int| #[trigger] right_joined(final(uf).parent@, shape_mask@, w as int, h as int, x, y),
        forall|x: int, y: int| #[trigger] up_joined(final(uf).parent@, shape_mask@, w as int, h as int, x, y),
{
    let ghost mask = shape_mask@;
    let ghost wi = w as int;
    let ghost hi = h as int;
    let n = uf.parent.len();
    let mut y: usize = 0;
    while y < h
        invariant
            y <= h,
            n == w * h,
            uf.inv(),
            uf.parent@.len() == w * h,
            uf_conn(uf.parent@, mask, wi, hi),
            mask == shape_mask@,
            wi == w,
            hi == h,
            shape_mask@.len() >= w * h,
            forall|px: int, py: int| scanned_before(px, py, 0, y as int) ==> #[trigger] right_joined(uf.parent@, mask, wi, hi, px, py),
            forall|px: int, py: int| scanned_before(px, py, 0, y as int) ==> #[trigger] up_joined(uf.parent@, mask, wi, hi, px, py),
        decreases h - y,
    {
        let mut x: usize = 0;
        while x < w
            invariant
                x <= w,
                y < h,
                n == w * h,
                uf.inv(),
                uf.parent@.len() == w * h,
                uf_conn(uf.parent@, mask, wi, hi),
                mask == shape_mask@,
                wi == w,
                hi == h,
                shape_mask@.len() >= w * h,
                forall|px: int, py: int| scanned_before(px, py, x as int, y as int) ==> #[trigger] right_joined(uf.parent@, mask, wi, hi, px, py),
                forall|px: int, py: int| scanned_before(px, py, x as int, y as int) ==> #[trigger] up_joined(uf.parent@, mask, wi, hi, px, py),
            decreases w - x,
        {
            proof {
                lemma_cell_index_bounds(wi, hi, x as int, y as int);
                lemma_coord_of_index(wi, x as int, y as int);
            }
            let idx = y * w + x;
            if shape_mask[idx] {
                if x + 1 < w && shape_mask[idx + 1] {
                    proof {
                        lemma_coord_of_index(wi, x + 1, y as int);
                        assert(y * w + x + 1 == y * w + (x + 1));
                    }
                    let ghost before = uf.parent@;
                    uf.union(idx, idx + 1, Ghost(mask), Ghost(wi), Ghost(hi));
                    proof {
                        assert forall|px: int, py: int| scanned_before(px, py, x as int, y as int) implies #[trigger] right_joined(uf.parent@, mask, wi, hi, px, py) by {
                            assert(right_joined(before, mask, wi, hi, px, py));
                            if mask_solid(mask, wi, hi, px, py) && mask_solid(mask, wi, hi, px + 1, py) {
                                lemma_cell_index_bounds(wi, hi, px, py);
                                lemma_cell_index_bounds(wi, hi, px + 1, py);
                            }
                        }
                        assert forall|px: int, py: int| scanned_before(px, py, x as int, y as int) implies #[trigger] up_joined(uf.parent@, mask, wi, hi, px, py) by {
                            assert(up_joined(before, mask, wi, hi, px, py));
                            if mask_solid(mask, wi, hi, px, py) && mask_solid(mask, wi, hi, px, py + 1) {
                                lemma_cell_index_bounds(wi, hi, px, py);
                                lemma_cell_index_bounds(wi, hi, px, py + 1);
                            }
                        }
                    }
                }
                if y + 1 < h {
                    proof {
                        lemma_cell_index_bounds(wi, hi, x as int, y + 1);
                        lemma_coord_of_index(wi, x as int, y + 1);
                        assert(y * w + x + w == (y + 1) * w + x) by (nonlinear_arith);
                    }
                    if shape_mask[idx + w] {
                    let ghost before = uf.parent@;
                    uf.union(idx, idx + w, Ghost(mask), Ghost(wi), Ghost(hi));
                    proof {
                        assert forall|px: int, py: int| scanned_before(px, py, x as int, y as int) || (px == x && py == y) implies #[trigger] right_joined(uf.parent@, mask, wi, hi, px, py) by {
                            assert(right_joined(before, mask, wi, hi, px, py));
                            if mask_solid(mask, wi, hi, px, py) && mask_solid(mask, wi, hi, px + 1, py) {
                                lemma_cell_index_bounds(wi, hi, px, py);
                                lemma_cell_index_bounds(wi, hi, px + 1, py);
                            }
                        }
                        assert forall|px: int, py: int| scanned_before(px, py, x as int, y as int) implies #[trigger] up_joined(uf.parent@, mask, wi, hi, px, py) by {
                            assert(up_joined(before, mask, wi, hi, px, py));
                            if mask_solid(mask, wi, hi, px, py) && mask_solid(mask, wi, hi, px, py + 1) {
                                lemma_cell_index_bounds(wi, hi, px, py);
                                lemma_cell_index_bounds(wi, hi, px, py + 1);
                            }
                        }
                    }
                }
                }
            }
            proof {
                assert(right_joined(uf.parent@, mask, wi, hi, x as int, y as int));
                assert(up_joined(uf.parent@, mask, wi, hi, x as int, y as int));
            }
            x = x + 1;
        }
        y = y + 1;
    }
}

/// Whether pixel `a` comes before pixel `b` in row-major order.
pub open spec fn pix_less(a: (u32, u32), b: (u32, u32)) -> bool {
    a.1 < b.1 || (a.1 == b.1 && a.0 < b.0)
}

/// The cell a pixel names, as integer coordinates.
pub open spec fn cell(p: (u32, u32)) -> (int, int) {
    (p.0 as int, p.1 as int)
}

/// The root of a pixel's cell.
pub open spec fn pixel_root(p: Seq<usize>, w: int, q: (u32, u32)) -> int {
    root(p, q.1 * w + q.0)
}

/// `groups` holds the solid cells grouped by root: each group nonempty, in
/// row-major order, of one root `groot[g]` that no other group has, and
/// every solid cell lies in some group.
#[verifier::opaque]
spec fn grouping(
    pb: Seq<usize>,
    mask: Seq<bool>,
    w: int,
    h: int,
    groups: Seq<Vec<(u32, u32)>>,
    groot: Seq<int>,
) -> bool {
    &&& groups.len() == groot.len()
    &&& forall|g: int| 0 <= g < groups.len() ==> (#[trigger] groups[g])@.len() > 0
    &&& forall|g: int, k: int|
        0 <= g < groups.len() && 0 <= k < groups[g]@.len() ==> {
            let q = #[trigger] groups[g]@[k];
            mask_solid(mask, w, h, q.0 as int, q.1 as int) && pixel_root(pb, w, q) == groot[g]
        }
    &&& forall|g1: int, g2: int|
        0 <= g1 < groups.len() && 0 <= g2 < groups.len() && g1 != g2 ==> #[trigger] groot[g1]
            != #[trigger] groot[g2]
    &&& forall|x: int, y: int|
        #[trigger] mask_solid(mask, w, h, x, y) ==> exists|g: int|
            0 <= g < groups.len() && #[trigger] groups[g]@.contains((x as u32, y as u32))
    &&& forall|g: int, k1: int, k2: int|
        0 <= g < groups.len() && 0 <= k1 < k2 < groups[g]@.len() ==> pix_less(
            #[trigger] groups[g]@[k1],
            #[trigger] groups[g]@[k2],
        )
}

/// Groups the solid pixels by the root of their cell, in row-major order;
/// groups appear in the order of their first pixel. Returns the groups and,
/// as ghost, each group's root.
fn group_pixels(uf: &mut UnionFind, shape_mask: &[bool], width: u32, height: u32) -> (r: (
    Vec<Vec<(u32, u32)>>,
    Ghost<Seq<int>>,
))
    requires
        old(uf).inv(),
        uf_wf(old(uf).parent@),
        old(uf).parent@.len() == width * height,
        shape_mask@.len() >= width * height,
    ensures
        grouping(old(uf).parent@, shape_mask@, width as int, height as int, r.0@, r.1@),
{
    let ghost pb = uf.parent@;
    let ghost mask = shape_mask@;
    let ghost wi = width as int;
    let ghost hi = height as int;
    let w = width as usize;
    let h = height as usize;
    let n = uf.parent.len();
    let mut slot: Vec<usize> = Vec::new();
    let mut t: usize = 0;
    while t < n
        invariant
            t <= n,
            slot@.len() == t,
            forall|i: int| 0 <= i < t ==> #[trigger] slot@[i] == usize::MAX,
        decreases n - t,
    {
        slot.push(usize::MAX);
        t = t + 1;
    }
    let mut groups: Vec<Vec<(u32, u32)>> = Vec::new();
    let ghost mut groot: Seq<int> = Seq::empty();
    let mut y: usize = 0;
    while y < h
        invariant
            y <= h,
            w == wi,
            h == hi,
            wi == width,
            hi == height,
            n == w * h,
            mask == shape_mask@,
            shape_mask@.len() >= w * h,
            uf.inv(),
            uf_wf(pb),
            pb.len() == n,
            uf.parent@.len() == n,
            forall|j: int| 0 <= j < n ==> #[trigger] root(uf.parent@, j) == root(pb, j),
            slot@.len() == n,
            groups@.len() == groot.len(),
            forall|g: int| 0 <= g < groups@.len() ==> (#[trigger] groups@[g])@.len() > 0,
            forall|g: int, k: int|
                0 <= g < groups@.len() && 0 <= k < groups@[g]@.len() ==> {
                    let q = #[trigger] groups@[g]@[k];
                    &&& mask_solid(mask, wi, hi, q.0 as int, q.1 as int)
                    &&& pixel_root(pb, wi, q) == groot[g]
                    &&& scanned_before(q.0 as int, q.1 as int, 0, y as int)
                },
            forall|g1: int, g2: int|
                0 <= g1 < groups@.len() && 0 <= g2 < groups@.len() && g1 != g2 ==> #[trigger] groot[g1]
                    != #[trigger] groot[g2],
            forall|g: int| 0 <= g < groups@.len() ==> 0 <= #[trigger] groot[g] < n && slot@[groot[g]] == g,
            forall|r: int| 0 <= r < n ==> #[trigger] slot@[r] == usize::MAX || (slot@[r] < groups@.len() && groot[slot@[r] as int] == r),
            forall|px: int, py: int|
                #[trigger] mask_solid(mask, wi, hi, px, py) && scanned_before(px, py, 0, y as int) ==> exists|g: int|
                    0 <= g < groups@.len() && #[trigger] groups@[g]@.contains((px as u32, py as u32)),
            forall|g: int, k1: int, k2: int|
                0 <= g < groups@.len() && 0 <= k1 < k2 < groups@[g]@.len() ==> pix_less(
                    #[trigger] groups@[g]@[k1],
                    #[trigger] groups@[g]@[k2],
                ),
        decreases h - y,
    {
        let mut x: usize = 0;
        while x < w
            invariant
                x <= w,
                y < h,
                w == wi,
                h == hi,
                wi == width,
                hi == height,
                n == w * h,
                mask == shape_mask@,
                shape_mask@.len() >= w * h,
                uf.inv(),
                uf_wf(pb),
                pb.len() == n,
                uf.parent@.len() == n,
                forall|j: int| 0 <= j < n ==> #[trigger] root(uf.parent@, j) == root(pb, j),
                slot@.len() == n,
                groups@.len() == groot.len(),
                forall|g: int| 0 <= g < groups@.len() ==> (#[trigger] groups@[g])@.len() > 0,
                forall|g: int, k: int|
                    0 <= g < groups@.len() && 0 <= k < groups@[g]@.len() ==> {
                        let q = #[trigger] groups@[g]@[k];
                        &&& mask_solid(mask, wi, hi, q.0 as int, q.1 as int)
                        &&& pixel_root(pb, wi, q) == groot[g]
                        &&& scanned_before(q.0 as int, q.1 as int, x as int, y as int)
                    },
                forall|g1: int, g2: int|
                    0 <= g1 < groups@.len() && 0 <= g2 < groups@.len() && g1 != g2 ==> #[trigger] groot[g1]
                        != #[trigger] groot[g2],
                forall|g: int| 0 <= g < groups@.len() ==> 0 <= #[trigger] groot[g] < n && slot@[groot[g]] == g,
                forall|r: int| 0 <= r < n ==> #[trigger] slot@[r] == usize::MAX || (slot@[r] < groups@.len() && groot[slot@[r] as int] == r),
                forall|px: int, py: int|
                    #[trigger] mask_solid(mask, wi, hi, px, py) && scanned_before(px, py, x as int, y as int) ==> exists|g: int|
                        0 <= g < groups@.len() && #[trigger] groups@[g]@.contains((px as u32, py as u32)),
                forall|g: int, k1: int, k2: int|
                    0 <= g < groups@.len() && 0 <= k1 < k2 < groups@[g]@.len() ==> pix_less(
                        #[trigger] groups@[g]@[k1],
                        #[trigger] groups@[g]@[k2],
                    ),
            decreases w - x,
        {
            proof {
                lemma_cell_index_bounds(wi, hi, x as int, y as int);
            }
            let idx = y * w + x;
            if shape_mask[idx] {
                let ghost before_find = uf.parent@;
                let r = uf.find(idx);
                proof {
                    lemma_root_props(pb, idx as int);
                    assert(root(before_find, idx as int) == root(pb, idx as int));
                    lemma_coord_of_index(wi, x as int, y as int);
                    assert((x as u32) as int == x && (y as u32) as int == y);
                    assert(idx as int == y * wi + x);
                    assert(pixel_root(pb, wi, (x as u32, y as u32)) == root(pb, idx as int));
                    assert(pixel_root(pb, wi, (x as u32, y as u32)) == r);
                }
                let q: (u32, u32) = (x as u32, y as u32);
                let ghost old_groups = groups@;
                let ghost old_groot = groot;
                let glen = groups.len();
                if slot[r] == usize::MAX {
                    proof {
                        assert forall|g: int| 0 <= g < groups@.len() implies #[trigger] groot[g] != r by {
                            assert(slot@[groot[g]] == g);
                        }
                    }
                    slot.set(r, groups.len());
                    let mut fresh: Vec<(u32, u32)> = Vec::new();
                    fresh.push(q);
                    groups.push(fresh);
                    proof {
                        groot = groot.push(r as int);
                    }
                } else {
                    let g = slot[r];
                    proof {
                        let gg = g as int;
                        assert(groot[gg] == r);
                    }
                    let mut inner: Vec<(u32, u32)> = Vec::new();
                    std::mem::swap(&mut inner, &mut groups[g]);
                    inner.push(q);
                    std::mem::swap(&mut inner, &mut groups[g]);
                }
                proof {
                    assert forall|px: int, py: int|
                        #[trigger] mask_solid(mask, wi, hi, px, py) && scanned_before(px, py, x + 1, y as int) implies exists|g: int|
                            0 <= g < groups@.len() && #[trigger] groups@[g]@.contains((px as u32, py as u32)) by {
                        if px == x && py == y {
                            let g = slot@[r as int] as int;
                            assert(groups@[g]@[groups@[g]@.len() - 1] == q);
                            assert(groups@[g]@.contains((px as u32, py as u32)));
                        } else {
                            assert(scanned_before(px, py, x as int, y as int));
                            let g = choose|g: int| 0 <= g < old_groups.len() && #[trigger] old_groups[g]@.contains((px as u32, py as u32));
                            let k = choose|k: int| 0 <= k < old_groups[g]@.len() && old_groups[g]@[k] == (px as u32, py as u32);
                            assert(groups@[g]@[k] == (px as u32, py as u32));
                            assert(groups@[g]@.contains((px as u32, py as u32)));
                        }
                    }
                }
            }
            x = x + 1;
        }
        y = y + 1;
    }
    proof {
        reveal(grouping);
    }
    (groups, Ghost(groot))
}

/// A connected region of pixels within a shape mask.
pub struct ConnectedComponent {
    /// Minimum X coordinate in local pixel space.
    pub min_x: u32,
    /// Minimum Y coordinate in local pixel space.
    pub min_y: u32,
    /// Width of the tight bounding box.
    pub width: u32,
    /// Height of the tight bounding box.
    pub height: u32,
    /// Local coordinates of all pixels in this component, in row-major order.
    pub pixels: Vec<(u32, u32)>,
}

/// `(min_x, min_y, width, height)` is the tightest box around `pixels`.
pub open spec fn is_bounding_box(pixels: Seq<(u32, u32)>, min_x: int, min_y: int, width: int, height: int) -> bool {
    &&& forall|k: int| 0 <= k < pixels.len() ==> min_x <= (#[trigger] pixels[k]).0 < min_x + width && min_y <= pixels[k].1 < min_y + height
    &&& exists|k: int| 0 <= k < pixels.len() && (#[trigger] pixels[k]).0 == min_x
    &&& exists|k: int| 0 <= k < pixels.len() && (#[trigger] pixels[k]).1 == min_y
    &&& exists|k: int| 0 <= k < pixels.len() && (#[trigger] pixels[k]).0 == min_x + width - 1
    &&& exists|k: int| 0 <= k < pixels.len() && (#[trigger] pixels[k]).1 == min_y + height - 1
}

/// Computes the bounding box `(min_x, min_y, width, height)` of a nonempty
/// list of pixel coordinates.
fn compute_bounding_box(pixels: &Vec<(u32, u32)>) -> (r: (u32, u32, u32, u32))
    requires
        pixels@.len() > 0,
        forall|k: int| 0 <= k < pixels@.len() ==> (#[trigger] pixels@[k]).0 < u32::MAX && pixels@[k].1 < u32::MAX,
    ensures
        is_bounding_box(pixels@, r.0 as int, r.1 as int, r.2 as int, r.3 as int),
{
    let mut min_x = pixels[0].0;
    let mut min_y = pixels[0].1;
    let mut max_x = pixels[0].0;
    let mut max_y = pixels[0].1;
    let ghost mut ix: int = 0;
    let ghost mut iy: int = 0;
    let ghost mut ax: int = 0;
    let ghost mut ay: int = 0;
    let mut i: usize = 1;
    while i < pixels.len()
        invariant
            1 <= i <= pixels@.len(),
            0 <= ix < i && pixels@[ix].0 == min_x,
            0 <= iy < i && pixels@[iy].1 == min_y,
            0 <= ax < i && pixels@[ax].0 == max_x,
            0 <= ay < i && pixels@[ay].1 == max_y,
            forall|k: int| 0 <= k < i ==> min_x <= (#[trigger] pixels@[k]).0 <= max_x && min_y <= pixels@[k].1 <= max_y,
        decreases pixels@.len() - i,
    {
        let (x, y) = pixels[i];
        if x < min_x {
            min_x = x;
            proof { ix = i as int; }
        }
        if y < min_y {
            min_y = y;
            proof { iy = i as int; }
        }
        if x > max_x {
            max_x = x;
            proof { ax = i as int; }
        }
        if y > max_y {
            max_y = y;
            proof { ay = i as int; }
        }
        i = i + 1;
    }
    proof {
        assert(pixels@[ax].0 < u32::MAX);
        assert(pixels@[ay].1 < u32::MAX);
    }
    (min_x, min_y, max_x - min_x + 1, max_y - min_y + 1)
}

proof fn lemma_same_root_connected(
    pb: Seq<usize>,
    mask: Seq<bool>,
    w: int,
    h: int,
    q1: (u32, u32),
    q2: (u32, u32),
)
    requires
        uf_wf(pb),
        uf_conn(pb, mask, w, h),
        pb.len() == w * h,
        mask_solid(mask, w, h, q1.0 as int, q1.1 as int),
        mask_solid(mask, w, h, q2.0 as int, q2.1 as int),
        pixel_root(pb, w, q1) == pixel_root(pb, w, q2),
    ensures
        connected(mask, w, h, cell(q1), cell(q2)),
{
    let i1 = q1.1 * w + q1.0;
    let i2 = q2.1 * w + q2.0;
    lemma_cell_index_bounds(w, h, q1.0 as int, q1.1 as int);
    lemma_cell_index_bounds(w, h, q2.0 as int, q2.1 as int);
    lemma_coord_of_index(w, q1.0 as int, q1.1 as int);
    lemma_coord_of_index(w, q2.0 as int, q2.1 as int);
    lemma_root_conn(pb, mask, w, h, i1);
    lemma_root_conn(pb, mask, w, h, i2);
    let r = root(pb, i1);
    let cr = coord(w, r);
    lemma_connected_refl(mask, w, h, cell(q1));
    lemma_connected_refl(mask, w, h, cell(q2));
    // q1 ~ r
    assert(connected(mask, w, h, cell(q1), cr));
    // r ~ q2
    assert(connected(mask, w, h, cell(q2), cr));
    lemma_connected_sym(mask, w, h, cell(q2), cr);
    lemma_connected_trans(mask, w, h, cell(q1), cr, cell(q2));
}

/// The indices of `groups`, ordered by group size, largest first.
fn order_by_size(groups: &Vec<Vec<(u32, u32)>>) -> (order: Vec<usize>)
    ensures
        order@.len() == groups@.len(),
        forall|t: int| 0 <= t < order@.len() ==> #[trigger] order@[t] < groups@.len(),
        forall|t1: int, t2: int| 0 <= t1 < t2 < order@.len() ==> #[trigger] order@[t1] != #[trigger] order@[t2],
        forall|g: int| 0 <= g < groups@.len() ==> #[trigger] order@.contains(g as usize),
        forall|t1: int, t2: int|
            0 <= t1 < t2 < order@.len() ==> groups@[#[trigger] order@[t1] as int]@.len()
                >= groups@[#[trigger] order@[t2] as int]@.len(),
{
    let ghost orig = groups@;
    let mut order: Vec<usize> = Vec::new();
    let mut i: usize = 0;
    while i < groups.len()
        invariant
            groups@ == orig,
            i <= orig.len(),
            order@.len() == i,
            forall|t: int| 0 <= t < order@.len() ==> #[trigger] order@[t] < i,
            forall|t1: int, t2: int| 0 <= t1 < t2 < order@.len() ==> #[trigger] order@[t1] != #[trigger] order@[t2],
            forall|g: int| 0 <= g < i ==> #[trigger] order@.contains(g as usize),
            forall|t1: int, t2: int| 0 <= t1 < t2 < order@.len() ==> orig[#[trigger] order@[t1] as int]@.len() >= orig[#[trigger] order@[t2] as int]@.len(),
        decreases orig.len() - i,
    {
        let len_i = groups[i].len();
        let mut j: usize = 0;
        while j < order.len() && groups[order[j]].len() >= len_i
            invariant
                groups@ == orig,
                i < orig.len(),
                j <= order@.len(),
                forall|t: int| 0 <= t < order@.len() ==> #[trigger] order@[t] < i,
                len_i == orig[i as int]@.len(),
                forall|t: int| 0 <= t < j ==> orig[#[trigger] order@[t] as int]@.len() >= len_i,
            decreases order@.len() - j,
        {
            j = j + 1;
        }
        let ghost before = order@;
        order.insert(j, i);
        proof {
            assert forall|t: int| 0 <= t < order@.len() implies #[trigger] order@[t] < i + 1 by {
                if t < j { assert(order@[t] == before[t]); } else if t > j { assert(order@[t] == before[t - 1]); }
            }
            assert forall|t1: int, t2: int| 0 <= t1 < t2 < order@.len() implies #[trigger] order@[t1] != #[trigger] order@[t2] by {
                if t1 == j || t2 == j {
                    if t1 != j { assert(order@[t1] < i); }
                    if t2 != j { let u = if t2 < j { t2 } else { t2 - 1 }; assert(order@[t2] == before[u]); }
                    if t1 != j { let u = if t1 < j { t1 } else { t1 - 1 }; assert(order@[t1] == before[u]); }
                } else {
                    let u1 = if t1 < j { t1 } else { t1 - 1 };
                    let u2 = if t2 < j { t2 } else { t2 - 1 };
                    assert(order@[t1] == before[u1] && order@[t2] == before[u2]);
                }
            }
            assert forall|g: int| 0 <= g < i + 1 implies #[trigger] order@.contains(g as usize) by {
                if g == i {
                    assert(order@[j as int] == i);
                } else {
                    assert(before.contains(g as usize));
                    let t = choose|t: int| 0 <= t < before.len() && before[t] == g as usize;
                    if t < j { assert(order@[t] == before[t]); } else { assert(order@[t + 1] == before[t]); }
                }
            }
            assert forall|t1: int, t2: int| 0 <= t1 < t2 < order@.len() implies orig[#[trigger] order@[t1] as int]@.len() >= orig[#[trigger] order@[t2] as int]@.len() by {
                let u1 = if t1 < j { t1 } else { t1 - 1 };
                let u2 = if t2 < j { t2 } else { t2 - 1 };
                if t1 == j {
                    if u2 < before.len() && j < before.len() {
                        assert(order@[t2] == before[u2]);
                        assert(orig[before[j as int] as int]@.len() < len_i);
                        if u2 > j {
                            assert(orig[before[j as int] as int]@.len() >= orig[before[u2] as int]@.len());
                        }
                    }
                } else if t2 == j {
                    assert(order@[t1] == before[u1]);
                } else {
                    assert(order@[t1] == before[u1] && order@[t2] == before[u2]);
                }
            }
        }
        i = i + 1;
    }
    order
}

/// One component per group, taken in the given order, each with its
/// bounding box.
fn build_components(groups: Vec<Vec<(u32, u32)>>, order: &Vec<usize>) -> (comps: Vec<ConnectedComponent>)
    requires
        order@.len() == groups@.len(),
        forall|u: int| 0 <= u < order@.len() ==> #[trigger] order@[u] < groups@.len(),
        forall|t1: int, t2: int| 0 <= t1 < t2 < order@.len() ==> #[trigger] order@[t1] != #[trigger] order@[t2],
        forall|g: int| 0 <= g < groups@.len() ==> (#[trigger] groups@[g])@.len() > 0,
        forall|g: int, k: int|
            0 <= g < groups@.len() && 0 <= k < groups@[g]@.len() ==> (#[trigger] groups@[g]@[k]).0 < u32::MAX
                && groups@[g]@[k].1 < u32::MAX,
    ensures
        comps@.len() == groups@.len(),
        forall|c: int|
            0 <= c < comps@.len() ==> (#[trigger] comps@[c]).pixels@ == groups@[order@[c] as int]@
                && is_bounding_box(comps@[c].pixels@, comps@[c].min_x as int, comps@[c].min_y as int, comps@[c].width as int, comps@[c].height as int),
{
    let ghost orig = groups@;
    let mut groups = groups;
    // Build the components in that order.
    let mut comps: Vec<ConnectedComponent> = Vec::new();
    let mut t: usize = 0;
    while t < order.len()
        invariant
            t <= order@.len(),
            order@.len() == orig.len(),
            groups@.len() == orig.len(),
            comps@.len() == t,
            forall|u: int| 0 <= u < order@.len() ==> #[trigger] order@[u] < orig.len(),
            forall|t1: int, t2: int| 0 <= t1 < t2 < order@.len() ==> #[trigger] order@[t1] != #[trigger] order@[t2],
            forall|g: int| 0 <= g < orig.len() && (forall|u: int| 0 <= u < t ==> order@[u] != g) ==> #[trigger] groups@[g] == orig[g],
            forall|c: int| 0 <= c < t ==> (#[trigger] comps@[c]).pixels@ == orig[order@[c] as int]@ && is_bounding_box(comps@[c].pixels@, comps@[c].min_x as int, comps@[c].min_y as int, comps@[c].width as int, comps@[c].height as int),
            forall|g: int| 0 <= g < orig.len() ==> (#[trigger] orig[g])@.len() > 0,
            forall|g: int, k: int| 0 <= g < orig.len() && 0 <= k < orig[g]@.len() ==> (#[trigger] orig[g]@[k]).0 < u32::MAX && orig[g]@[k].1 < u32::MAX,
        decreases order@.len() - t,
    {
        let g = order[t];
        proof {
            assert forall|u: int| 0 <= u < t implies order@[u] != g by {}
            assert(groups@[g as int] == orig[g as int]);
        }
        let mut pixels: Vec<(u32, u32)> = Vec::new();
        std::mem::swap(&mut pixels, &mut groups[g]);
        proof {
            assert forall|k: int| 0 <= k < pixels@.len() implies (#[trigger] pixels@[k]).0 < u32::MAX && pixels@[k].1 < u32::MAX by {
                assert(orig[g as int]@[k] == pixels@[k]);
            }
        }
        let (min_x, min_y, bw, bh) = compute_bounding_box(&pixels);
        comps.push(ConnectedComponent { min_x, min_y, width: bw, height: bh, pixels });
        t = t + 1;
    }
    comps
}

/// A component's own shape: nonempty, within its tight bounding box, made
/// of solid cells listed in row-major order.
pub open spec fn component_shape(mask: Seq<bool>, w: int, h: int, comp: ConnectedComponent) -> bool {
    &&& comp.pixels@.len() > 0
    &&& is_bounding_box(comp.pixels@, comp.min_x as int, comp.min_y as int, comp.width as int, comp.height as int)
    &&& forall|k: int|
        0 <= k < comp.pixels@.len() ==> mask_solid(mask, w, h, (#[trigger] comp.pixels@[k]).0 as int, comp.pixels@[k].1 as int)
    &&& forall|k1: int, k2: int|
        0 <= k1 < k2 < comp.pixels@.len() ==> pix_less(#[trigger] comp.pixels@[k1], #[trigger] comp.pixels@[k2])
}

/// Any two pixels of the component are joined by a walk through solid cells.
pub open spec fn component_connected(mask: Seq<bool>, w: int, h: int, comp: ConnectedComponent) -> bool {
    forall|k1: int, k2: int|
        0 <= k1 < comp.pixels@.len() && 0 <= k2 < comp.pixels@.len() ==> connected(
            mask,
            w,
            h,
            cell(#[trigger] comp.pixels@[k1]),
            cell(#[trigger] comp.pixels@[k2]),
        )
}

/// Every solid cell touching a pixel of the component belongs to it.
pub open spec fn component_closed(mask: Seq<bool>, w: int, h: int, comp: ConnectedComponent) -> bool {
    forall|k: int, x: int, y: int|
        0 <= k < comp.pixels@.len() && mask_solid(mask, w, h, x, y) && touching(
            cell(#[trigger] comp.pixels@[k]),
            (x, y),
        ) ==> #[trigger] comp.pixels@.contains((x as u32, y as u32))
}

/// No pixel belongs to two components.
pub open spec fn components_disjoint(comps: Seq<ConnectedComponent>) -> bool {
    forall|c1: int, c2: int, k1: int, k2: int|
        0 <= c1 < comps.len() && 0 <= c2 < comps.len() && c1 != c2 && 0 <= k1 < comps[c1].pixels@.len()
            && 0 <= k2 < comps[c2].pixels@.len() ==> #[trigger] comps[c1].pixels@[k1]
            != #[trigger] comps[c2].pixels@[k2]
}

/// Every solid cell belongs to some component.
pub open spec fn components_cover(mask: Seq<bool>, w: int, h: int, comps: Seq<ConnectedComponent>) -> bool {
    forall|x: int, y: int|
        #[trigger] mask_solid(mask, w, h, x, y) ==> exists|c: int|
            0 <= c < comps.len() && #[trigger] comps[c].pixels@.contains((x as u32, y as u32))
}

/// Components come largest first.
pub open spec fn largest_first(comps: Seq<ConnectedComponent>) -> bool {
    forall|c1: int, c2: int|
        0 <= c1 < c2 < comps.len() ==> (#[trigger] comps[c1]).pixels@.len() >= (#[trigger] comps[c2]).pixels@.len()
}

/// `order` is a permutation of the group indices.
spec fn is_permutation(order: Seq<usize>, n: int) -> bool {
    &&& order.len() == n
    &&& forall|t: int| 0 <= t < order.len() ==> #[trigger] order[t] < n
    &&& forall|t1: int, t2: int| 0 <= t1 < t2 < order.len() ==> #[trigger] order[t1] != #[trigger] order[t2]
    &&& forall|g: int| 0 <= g < n ==> #[trigger] order.contains(g as usize)
}

/// Component `c` holds exactly the pixels of group `order[c]`.
spec fn drawn_from(comps: Seq<ConnectedComponent>, groups: Seq<Vec<(u32, u32)>>, order: Seq<usize>) -> bool {
    &&& comps.len() == groups.len()
    &&& forall|c: int| 0 <= c < comps.len() ==> (#[trigger] comps[c]).pixels@ == groups[order[c] as int]@
}

/// Every pair of touching solid cells shares a root.
spec fn all_joined(pb: Seq<usize>, mask: Seq<bool>, w: int, h: int) -> bool {
    &&& forall|x: int, y: int| #[trigger] right_joined(pb, mask, w, h, x, y)
    &&& forall|x: int, y: int| #[trigger] up_joined(pb, mask, w, h, x, y)
}

proof fn lemma_components_shape(
    pb: Seq<usize>,
    mask: Seq<bool>,
    w: int,
    h: int,
    groups: Seq<Vec<(u32, u32)>>,
    groot: Seq<int>,
    order: Seq<usize>,
    comps: Seq<ConnectedComponent>,
)
    requires
        grouping(pb, mask, w, h, groups, groot),
        is_permutation(order, groups.len() as int),
        drawn_from(comps, groups, order),
        forall|c: int|
            0 <= c < comps.len() ==> is_bounding_box(
                (#[trigger] comps[c]).pixels@,
                comps[c].min_x as int,
                comps[c].min_y as int,
                comps[c].width as int,
                comps[c].height as int,
            ),
    ensures
        forall|c: int| 0 <= c < comps.len() ==> component_shape(mask, w, h, #[trigger] comps[c]),
{
    reveal(grouping);
    assert forall|c: int| 0 <= c < comps.len() implies component_shape(mask, w, h, #[trigger] comps[c]) by {
        let g = order[c] as int;
        assert(comps[c].pixels@ == groups[g]@);
    }
}

proof fn lemma_components_connected(
    pb: Seq<usize>,
    mask: Seq<bool>,
    w: int,
    h: int,
    groups: Seq<Vec<(u32, u32)>>,
    groot: Seq<int>,
    order: Seq<usize>,
    comps: Seq<ConnectedComponent>,
)
    requires
        uf_wf(pb),
        uf_conn(pb, mask, w, h),
        pb.len() == w * h,
        grouping(pb, mask, w, h, groups, groot),
        is_permutation(order, groups.len() as int),
        drawn_from(comps, groups, order),
    ensures
        forall|c: int| 0 <= c < comps.len() ==> component_connected(mask, w, h, #[trigger] comps[c]),
{
    reveal(grouping);
    assert forall|c: int| 0 <= c < comps.len() implies component_connected(mask, w, h, #[trigger] comps[c]) by {
        let g = order[c] as int;
        assert(comps[c].pixels@ == groups[g]@);
        assert forall|k1: int, k2: int|
            0 <= k1 < comps[c].pixels@.len() && 0 <= k2 < comps[c].pixels@.len() implies connected(
                mask,
                w,
                h,
                cell(#[trigger] comps[c].pixels@[k1]),
                cell(#[trigger] comps[c].pixels@[k2]),
            ) by {
            let q1 = groups[g]@[k1];
            let q2 = groups[g]@[k2];
            lemma_same_root_connected(pb, mask, w, h, q1, q2);
        }
    }
}

proof fn lemma_components_disjoint(
    pb: Seq<usize>,
    mask: Seq<bool>,
    w: int,
    h: int,
    groups: Seq<Vec<(u32, u32)>>,
    groot: Seq<int>,
    order: Seq<usize>,
    comps: Seq<ConnectedComponent>,
)
    requires
        grouping(pb, mask, w, h, groups, groot),
        is_permutation(order, groups.len() as int),
        drawn_from(comps, groups, order),
    ensures
        components_disjoint(comps),
{
    reveal(grouping);
    assert forall|c1: int, c2: int, k1: int, k2: int|
        0 <= c1 < comps.len() && 0 <= c2 < comps.len() && c1 != c2 && 0 <= k1 < comps[c1].pixels@.len()
            && 0 <= k2 < comps[c2].pixels@.len() implies #[trigger] comps[c1].pixels@[k1]
            != #[trigger] comps[c2].pixels@[k2] by {
        let g1 = order[c1] as int;
        let g2 = order[c2] as int;
        assert(comps[c1].pixels@[k1] == groups[g1]@[k1]);
        assert(comps[c2].pixels@[k2] == groups[g2]@[k2]);
        assert(groot[g1] != groot[g2]);
    }
}

proof fn lemma_components_cover(
    pb: Seq<usize>,
    mask: Seq<bool>,
    w: int,
    h: int,
    groups: Seq<Vec<(u32, u32)>>,
    groot: Seq<int>,
    order: Seq<usize>,
    comps: Seq<ConnectedComponent>,
)
    requires
        0 <= w <= u32::MAX,
        0 <= h <= u32::MAX,
        groups.len() <= usize::MAX,
        grouping(pb, mask, w, h, groups, groot),
        is_permutation(order, groups.len() as int),
        drawn_from(comps, groups, order),
    ensures
        components_cover(mask, w, h, comps),
{
    reveal(grouping);
    assert forall|x: int, y: int| #[trigger] mask_solid(mask, w, h, x, y) implies exists|c: int|
        0 <= c < comps.len() && #[trigger] comps[c].pixels@.contains((x as u32, y as u32)) by {
        let g = choose|g: int| 0 <= g < groups.len() && #[trigger] groups[g]@.contains((x as u32, y as u32));
        assert(order.contains(g as usize));
        let c = choose|c: int| 0 <= c < order.len() && order[c] == g as usize;
        assert(comps[c].pixels@ == groups[g]@);
    }
}

proof fn lemma_components_closed(
    pb: Seq<usize>,
    mask: Seq<bool>,
    w: int,
    h: int,
    groups: Seq<Vec<(u32, u32)>>,
    groot: Seq<int>,
    order: Seq<usize>,
    comps: Seq<ConnectedComponent>,
)
    requires
        0 <= w <= u32::MAX,
        0 <= h <= u32::MAX,
        groups.len() <= usize::MAX,
        all_joined(pb, mask, w, h),
        grouping(pb, mask, w, h, groups, groot),
        is_permutation(order, groups.len() as int),
        drawn_from(comps, groups, order),
    ensures
        forall|c: int| 0 <= c < comps.len() ==> component_closed(mask, w, h, #[trigger] comps[c]),
{
    reveal(grouping);
    assert forall|c: int| 0 <= c < comps.len() implies component_closed(mask, w, h, #[trigger] comps[c]) by {
        let g = order[c] as int;
        assert(comps[c].pixels@ == groups[g]@);
        assert forall|k: int, x: int, y: int|
            0 <= k < comps[c].pixels@.len() && mask_solid(mask, w, h, x, y) && touching(
                cell(#[trigger] comps[c].pixels@[k]),
                (x, y),
            ) implies #[trigger] comps[c].pixels@.contains((x as u32, y as u32)) by {
            let q = groups[g]@[k];
            let qx = q.0 as int;
            let qy = q.1 as int;
            assert(mask_solid(mask, w, h, qx, qy));
            let p = (x as u32, y as u32);
            assert(p.0 as int == x && p.1 as int == y);
            if x == qx + 1 {
                assert(right_joined(pb, mask, w, h, qx, qy));
            } else if x + 1 == qx {
                assert(right_joined(pb, mask, w, h, x, y));
            } else if y == qy + 1 {
                assert(up_joined(pb, mask, w, h, qx, qy));
            } else {
                assert(up_joined(pb, mask, w, h, x, y));
            }
            assert(pixel_root(pb, w, p) == pixel_root(pb, w, q));
            let g2 = choose|g2: int| 0 <= g2 < groups.len() && #[trigger] groups[g2]@.contains(p);
            let k2 = choose|k2: int| 0 <= k2 < groups[g2]@.len() && groups[g2]@[k2] == p;
            assert(pixel_root(pb, w, groups[g2]@[k2]) == groot[g2]);
            if g2 != g {
                assert(groot[g2] != groot[g]);
            }
        }
    }
}

/// Finds connected components in a shape mask using 4-connectivity.
///
/// Returns components sorted by pixel count (largest first). Each component
/// lists its pixels in row-major order (by y, then x) with its tight
/// bounding box; components are disjoint, cover every solid cell, are each
/// connected, and absorb every solid cell touching one of their pixels.
pub fn find_connected_components(shape_mask: &[bool], width: u32, height: u32) -> (comps: Vec<
    ConnectedComponent,
>)
    requires
        shape_mask@.len() >= width * height,
        width * height <= usize::MAX,
    ensures
        forall|c: int|
            0 <= c < comps@.len() ==> component_shape(shape_mask@, width as int, height as int, #[trigger] comps@[c])
                && component_connected(shape_mask@, width as int, height as int, comps@[c])
                && component_closed(shape_mask@, width as int, height as int, comps@[c]),
        components_disjoint(comps@),
        components_cover(shape_mask@, width as int, height as int, comps@),
        largest_first(comps@),
{
    let ghost mask = shape_mask@;
    let ghost wi = width as int;
    let ghost hi = height as int;
    let w = width as usize;
    let h = height as usize;
    let size = w * h;
    if size == 0 {
        proof {
            assert forall|x: int, y: int| #[trigger] mask_solid(mask, wi, hi, x, y) implies false by {
                assert(wi * hi > 0) by (nonlinear_arith)
                    requires
                        0 <= x < wi,
                        0 <= y < hi,
                ;
            }
        }
        return Vec::new();
    }
    let mut uf = UnionFind::new(size);
    union_adjacent_pixels(&mut uf, shape_mask, w, h);
    let ghost pb = uf.parent@;
    let (groups, Ghost(groot)) = group_pixels(&mut uf, shape_mask, width, height);
    let ghost orig = groups@;
    let order = order_by_size(&groups);
    proof {
        assert(orig.len() == groups.len());
        reveal(grouping);
        assert forall|g: int, k: int| 0 <= g < orig.len() && 0 <= k < orig[g]@.len() implies (#[trigger] orig[g]@[k]).0 < u32::MAX && orig[g]@[k].1 < u32::MAX by {
            assert(mask_solid(mask, wi, hi, orig[g]@[k].0 as int, orig[g]@[k].1 as int));
        }
    }
    let comps = build_components(groups, &order);
    proof {
        assert(is_permutation(order@, orig.len() as int));
        assert(drawn_from(comps@, orig, order@));
        assert(all_joined(pb, mask, wi, hi));
        lemma_components_shape(pb, mask, wi, hi, orig, groot, order@, comps@);
        lemma_components_connected(pb, mask, wi, hi, orig, groot, order@, comps@);
        lemma_components_closed(pb, mask, wi, hi, orig, groot, order@, comps@);
        lemma_components_disjoint(pb, mask, wi, hi, orig, groot, order@, comps@);
        lemma_components_cover(pb, mask, wi, hi, orig, groot, order@, comps@);
        assert forall|c1: int, c2: int| 0 <= c1 < c2 < comps@.len() implies (#[trigger] comps@[c1]).pixels@.len() >= (#[trigger] comps@[c2]).pixels@.len() by {
            assert(comps@[c1].pixels@ == orig[order@[c1] as int]@);
            assert(comps@[c2].pixels@ == orig[order@[c2] as int]@);
        }
    }
    comps
}

/// The pixel a fragment takes at its local cell `(x, y)`: the parent's pixel
/// there if the component holds that parent cell and it lies in the parent
/// grid; otherwise air.
pub open spec fn fragment_pixel(parent: PixelBody, comp: ConnectedComponent, x: int, y: int) -> Pixel {
    let px = x + comp.min_x;
    let py = y + comp.min_y;
    if comp.pixels@.contains((px as u32, py as u32)) && px < parent.width && py < parent.height {
        parent.surface@[cell_index(parent.width as int, px, py)]
    } else {
        Pixel::spec_air()
    }
}

/// Builds the pixel body of a fragment: a body of the component's bounding
/// box holding the parent's pixels at the component's cells.
///
/// Returns `None` for a component without pixels.
pub fn create_fragment_body(parent: &PixelBody, component: &ConnectedComponent) -> (r: Option<PixelBody>)
    requires
        parent.wf(),
        component.width * component.height <= usize::MAX,
        component.width != 0x8000_0000,
        component.height != 0x8000_0000,
        forall|k: int|
            0 <= k < component.pixels@.len() ==> component.min_x <= (#[trigger] component.pixels@[k]).0
                && component.min_y <= component.pixels@[k].1,
    ensures
        r is None <==> component.pixels@.len() == 0,
        r matches Some(b) ==> {
            &&& b.wf()
            &&& b.width == component.width
            &&& b.height == component.height
            &&& b.origin.0 == half_toward_zero(-wrap_i32(component.width))
            &&& b.origin.1 == half_toward_zero(-wrap_i32(component.height))
            &&& forall|x: int, y: int|
                0 <= x < b.width && 0 <= y < b.height ==> #[trigger] b.surface@[cell_index(
                    b.width as int,
                    x,
                    y,
                )] == fragment_pixel(*parent, *component, x, y)
            &&& forall|x: int, y: int|
                0 <= x < b.width && 0 <= y < b.height ==> #[trigger] b.shape_mask@[cell_index(
                    b.width as int,
                    x,
                    y,
                )] == (fragment_pixel(*parent, *component, x, y).material.0 != 0)
        },
{
    if component.pixels.len() == 0 {
        return None;
    }
    let width = component.width;
    let height = component.height;
    let ghost w = width as int;
    let ghost h = height as int;
    let mut body = PixelBody::new(width, height);
    let ghost origin = body.origin;
    let ghost pixels = component.pixels@;
    proof {
        assert forall|x: int, y: int| 0 <= x < w && 0 <= y < h implies #[trigger] body.surface@[cell_index(w, x, y)] == Pixel::spec_air() by {
            lemma_cell_index_bounds(w, h, x, y);
        }
        assert forall|x: int, y: int| 0 <= x < w && 0 <= y < h implies !#[trigger] body.shape_mask@[cell_index(w, x, y)] by {
            lemma_cell_index_bounds(w, h, x, y);
        }
    }
    let mut k: usize = 0;
    while k < component.pixels.len()
        invariant
            k <= pixels.len(),
            pixels == component.pixels@,
            w == width,
            h == height,
            width == component.width,
            height == component.height,
            parent.wf(),
            body.wf(),
            body.width == width,
            body.height == height,
            body.origin == origin,
            forall|t: int|
                0 <= t < pixels.len() ==> component.min_x <= (#[trigger] pixels[t]).0
                    && component.min_y <= pixels[t].1,
            forall|x: int, y: int|
                0 <= x < w && 0 <= y < h ==> #[trigger] body.surface@[cell_index(w, x, y)] == {
                    let px = x + component.min_x;
                    let py = y + component.min_y;
                    if pixels.subrange(0, k as int).contains((px as u32, py as u32)) && px < parent.width
                        && py < parent.height {
                        parent.surface@[cell_index(parent.width as int, px, py)]
                    } else {
                        Pixel::spec_air()
                    }
                },
            forall|x: int, y: int|
                0 <= x < w && 0 <= y < h ==> #[trigger] body.shape_mask@[cell_index(w, x, y)] == ({
                    let px = x + component.min_x;
                    let py = y + component.min_y;
                    if pixels.subrange(0, k as int).contains((px as u32, py as u32)) && px < parent.width
                        && py < parent.height {
                        parent.surface@[cell_index(parent.width as int, px, py)]
                    } else {
                        Pixel::spec_air()
                    }
                }.material.0 != 0),
        decreases pixels.len() - k,
    {
        let (px, py) = component.pixels[k];
        let local_x = px - component.min_x;
        let local_y = py - component.min_y;
        let ghost before = body;
        let ghost pre = pixels.subrange(0, k as int);
        let ghost post = pixels.subrange(0, k + 1);
        proof {
            assert(post == pre.push((px, py)));
            assert forall|q: (u32, u32)| post.contains(q) == (pre.contains(q) || q == (px, py)) by {
                if post.contains(q) {
                    let t = choose|t: int| 0 <= t < post.len() && post[t] == q;
                    if t < k {
                        assert(pre[t] == q);
                    }
                }
                if q == (px, py) {
                    assert(post[k as int] == q);
                }
                if pre.contains(q) {
                    let t = choose|t: int| 0 <= t < pre.len() && pre[t] == q;
                    assert(post[t] == q);
                }
            }
        }
        match parent.get_pixel(px, py) {
            Some(pixel) => {
                let p = *pixel;
                body.set_pixel(local_x, local_y, p);
                proof {
                    if local_x < w && local_y < h {
                        lemma_cell_index_bounds(w, h, local_x as int, local_y as int);
                    }
                    assert forall|x: int, y: int| 0 <= x < w && 0 <= y < h implies #[trigger] body.surface@[cell_index(w, x, y)] == {
                        let qx = x + component.min_x;
                        let qy = y + component.min_y;
                        if post.contains((qx as u32, qy as u32)) && qx < parent.width && qy < parent.height {
                            parent.surface@[cell_index(parent.width as int, qx, qy)]
                        } else {
                            Pixel::spec_air()
                        }
                    } by {
                        lemma_cell_index_bounds(w, h, x, y);
                        if x == local_x && y == local_y {
                            assert(((x + component.min_x) as u32, (y + component.min_y) as u32) == (px, py));
                        } else {
                            if local_x < w && local_y < h && cell_index(w, x, y) == cell_index(w, local_x as int, local_y as int) {
                                lemma_cell_index_injective(w, x, y, local_x as int, local_y as int);
                            }
                            assert(body.surface@[cell_index(w, x, y)] == before.surface@[cell_index(w, x, y)]);
                            if x + component.min_x < 0x1_0000_0000 && y + component.min_y < 0x1_0000_0000 {
                                assert(((x + component.min_x) as u32, (y + component.min_y) as u32) != (px, py));
                            }
                        }
                    }
                    assert forall|x: int, y: int| 0 <= x < w && 0 <= y < h implies #[trigger] body.shape_mask@[cell_index(w, x, y)] == ({
                        let qx = x + component.min_x;
                        let qy = y + component.min_y;
                        if post.contains((qx as u32, qy as u32)) && qx < parent.width && qy < parent.height {
                            parent.surface@[cell_index(parent.width as int, qx, qy)]
                        } else {
                            Pixel::spec_air()
                        }
                    }.material.0 != 0) by {
                        lemma_cell_index_bounds(w, h, x, y);
                        if x == local_x && y == local_y {
                            assert(((x + component.min_x) as u32, (y + component.min_y) as u32) == (px, py));
                        } else {
                            if local_x < w && local_y < h && cell_index(w, x, y) == cell_index(w, local_x as int, local_y as int) {
                                lemma_cell_index_injective(w, x, y, local_x as int, local_y as int);
                            }
                            assert(body.shape_mask@[cell_index(w, x, y)] == before.shape_mask@[cell_index(w, x, y)]);
                            if x + component.min_x < 0x1_0000_0000 && y + component.min_y < 0x1_0000_0000 {
                                assert(((x + component.min_x) as u32, (y + component.min_y) as u32) != (px, py));
                            }
                        }
                    }
                }
            },
            None => {
                proof {
                    assert forall|x: int, y: int| 0 <= x < w && 0 <= y < h implies #[trigger] body.surface@[cell_index(w, x, y)] == {
                        let qx = x + component.min_x;
                        let qy = y + component.min_y;
                        if post.contains((qx as u32, qy as u32)) && qx < parent.width && qy < parent.height {
                            parent.surface@[cell_index(parent.width as int, qx, qy)]
                        } else {
                            Pixel::spec_air()
                        }
                    } by {
                        if x + component.min_x == px && y + component.min_y == py {
                        } else {
                            if x + component.min_x < 0x1_0000_0000 && y + component.min_y < 0x1_0000_0000 {
                                assert(((x + component.min_x) as u32, (y + component.min_y) as u32) != (px, py));
                            }
                        }
                    }
                    assert forall|x: int, y: int| 0 <= x < w && 0 <= y < h implies #[trigger] body.shape_mask@[cell_index(w, x, y)] == ({
                        let qx = x + component.min_x;
                        let qy = y + component.min_y;
                        if post.contains((qx as u32, qy as u32)) && qx < parent.width && qy < parent.height {
                            parent.surface@[cell_index(parent.width as int, qx, qy)]
                        } else {
                            Pixel::spec_air()
                        }
                    }.material.0 != 0) by {
                        if x + component.min_x == px && y + component.min_y == py {
                        } else {
                            if x + component.min_x < 0x1_0000_0000 && y + component.min_y < 0x1_0000_0000 {
                                assert(((x + component.min_x) as u32, (y + component.min_y) as u32) != (px, py));
                            }
                        }
                    }
                }
            },
        }
        k = k + 1;
    }
    proof {
        assert(pixels.subrange(0, pixels.len() as int) =~= pixels);
    }
    Some(body)
}

/// A path-compressing `find` keeps every non-root cell connected to its
/// parent.
proof fn lemma_find_keeps_conn(p0: Seq<usize>, p1: Seq<usize>, mask: Seq<bool>, w: int, h: int)
    requires
        uf_wf(p0),
        uf_conn(p0, mask, w, h),
        p1.len() == p0.len(),
        forall|j: int| 0 <= j < p0.len() ==> #[trigger] p1[j] == p0[j] || p1[j] == root(p0, j),
    ensures
        uf_conn(p1, mask, w, h),
{
    assert forall|i: int| 0 <= i < p1.len() implies #[trigger] p1[i] == i || (index_solid(mask, w, h, i) && index_solid(mask, w, h, p1[i] as int) && connected(mask, w, h, coord(w, i), coord(w, p1[i] as int))) by {
        if p1[i] != p0[i] {
            lemma_root_conn(p0, mask, w, h, i);
        }
    }
}

} // verus!
