//! Joining marching-squares edge segments into polylines.
//!
//! Segment endpoints are grid points: cell-local coordinates scaled by two,
//! so the half-unit positions that marching squares produces are exact
//! integers. Two endpoints connect exactly when their grid points are equal.
use std::collections::HashMap;
use vstd::prelude::*;

use crate::coords::{chunk_key, lemma_chunk_key_injective, pack_key};

verus! {

broadcast use {vstd::std_specs::hash::group_hash_axioms, crate::coords::lemma_chunk_key_fits};

/// A contour vertex on the doubled grid (one unit is half a pixel).
pub type GridPoint = (i32, i32);

/// An edge segment, from its start point to its end point.
pub type GridSegment = (GridPoint, GridPoint);

/// The hash key of a grid point (the same packing as chunk positions).
pub open spec fn point_key(p: GridPoint) -> i64 {
    chunk_key(p.0, p.1) as i64
}

/// Distinct grid points have distinct keys.
pub proof fn lemma_point_key_injective(p: GridPoint, q: GridPoint)
    requires
        point_key(p) == point_key(q),
    ensures
        p == q,
{
    lemma_chunk_key_injective(p.0, p.1, q.0, q.1);
}

/// The adjacency list of point `p` over the first `m` segments: each of
/// those segments with an endpoint at `p`, in index order, as
/// `(index, true)` for its start and `(index, false)` for its end, the start
/// listed first.
pub open spec fn adj_list(segs: Seq<GridSegment>, p: GridPoint, m: int) -> Seq<(usize, bool)>
    decreases m,
{
    if m <= 0 {
        Seq::empty()
    } else {
        let prev = adj_list(segs, p, m - 1);
        let i = (m - 1) as usize;
        let with_start = if segs[m - 1].0 == p {
            prev.push((i, true))
        } else {
            prev
        };
        if segs[m - 1].1 == p {
            with_start.push((i, false))
        } else {
            with_start
        }
    }
}

/// `m` maps the key of every grid point whose adjacency list over the first
/// `count` segments is not empty to that list, and holds no other key.
pub open spec fn adjacency_of(m: Map<i64, Vec<(usize, bool)>>, segs: Seq<GridSegment>, count: int) -> bool {
    &&& forall|p: GridPoint|
        #[trigger] m.contains_key(point_key(p)) <==> adj_list(segs, p, count).len() > 0
    &&& forall|p: GridPoint|
        m.contains_key(point_key(p)) ==> (#[trigger] m[point_key(p)])@ == adj_list(segs, p, count)
    &&& forall|k: i64| #[trigger] m.contains_key(k) ==> exists|p: GridPoint| point_key(p) == k
}

/// Every entry of an adjacency list names one of the segments it was built
/// from, and that segment's start (for `true`) or end (for `false`) is the
/// point.
proof fn lemma_adj_list_entries(segs: Seq<GridSegment>, p: GridPoint, m: int)
    requires
        0 <= m <= segs.len(),
        segs.len() <= usize::MAX,
    ensures
        forall|t: int|
            0 <= t < adj_list(segs, p, m).len() ==> {
                let e = #[trigger] adj_list(segs, p, m)[t];
                &&& e.0 < m
                &&& e.1 ==> segs[e.0 as int].0 == p
                &&& !e.1 ==> segs[e.0 as int].1 == p
            },
    decreases m,
{
    if m > 0 {
        lemma_adj_list_entries(segs, p, m - 1);
        let prev = adj_list(segs, p, m - 1);
        let l = adj_list(segs, p, m);
        assert((m - 1) as usize as int == m - 1);
        assert forall|t: int| 0 <= t < l.len() implies {
            let e = #[trigger] l[t];
            &&& e.0 < m
            &&& e.1 ==> segs[e.0 as int].0 == p
            &&& !e.1 ==> segs[e.0 as int].1 == p
        } by {
            if t < prev.len() {
                assert(l[t] == prev[t]);
            }
        }
    }
}

/// Number of segments not yet used.
pub open spec fn count_unused(used: Seq<bool>) -> nat
    decreases used.len(),
{
    if used.len() == 0 {
        0
    } else {
        count_unused(used.drop_last()) + if used.last() {
            0nat
        } else {
            1nat
        }
    }
}

/// Marking an unused segment leaves one fewer unused.
pub proof fn lemma_count_unused_mark(used: Seq<bool>, c: int)
    requires
        0 <= c < used.len(),
        !used[c],
    ensures
        count_unused(used.update(c, true)) + 1 == count_unused(used),
    decreases used.len(),
{
    let marked = used.update(c, true);
    if c == used.len() - 1 {
        assert(marked.drop_last() =~= used.drop_last());
    } else {
        assert(marked.drop_last() =~= used.drop_last().update(c, true));
        lemma_count_unused_mark(used.drop_last(), c);
    }
}

/// The first entry of `list`, from position `j` on, whose segment is unused.
pub open spec fn first_unused_from(list: Seq<(usize, bool)>, used: Seq<bool>, j: int) -> Option<
    (usize, bool),
>
    decreases list.len() - j,
{
    if j >= list.len() {
        None
    } else if !used[list[j].0 as int] {
        Some(list[j])
    } else {
        first_unused_from(list, used, j + 1)
    }
}

/// The segment that continues a polyline at point `p`: the first unused
/// segment in the adjacency list of `p`, with whether it is entered at its
/// start.
pub open spec fn next_at(segs: Seq<GridSegment>, used: Seq<bool>, p: GridPoint) -> Option<
    (usize, bool),
> {
    first_unused_from(adj_list(segs, p, segs.len() as int), used, 0)
}

/// Follows segments from segment `c`, entered at its start when
/// `from_start` (else at its end): marks each segment used, appends its far
/// endpoint (and, on an empty polyline, its near endpoint first), and goes on
/// with the next unused segment at the far endpoint until there is none.
/// Gives the final marks and vertices.
pub open spec fn walk(
    segs: Seq<GridSegment>,
    used: Seq<bool>,
    c: int,
    from_start: bool,
    poly: Seq<GridPoint>,
) -> (Seq<bool>, Seq<GridPoint>)
    decreases count_unused(used),
{
    if 0 <= c < used.len() && c < segs.len() && !used[c] {
        let marked = used.update(c, true);
        let near = if from_start {
            segs[c].0
        } else {
            segs[c].1
        };
        let far = if from_start {
            segs[c].1
        } else {
            segs[c].0
        };
        let extended = if poly.len() == 0 {
            seq![near, far]
        } else {
            poly.push(far)
        };
        match next_at(segs, marked, far) {
            Some(nx) => {
                proof {
                    lemma_count_unused_mark(used, c);
                }
                walk(segs, marked, nx.0 as int, nx.1, extended)
            },
            None => (marked, extended),
        }
    } else {
        (used, poly)
    }
}

/// A polyline of at least four vertices that ends where it starts loses its
/// repeated closing vertex.
pub open spec fn close_loop(poly: Seq<GridPoint>) -> Seq<GridPoint> {
    if poly.len() >= 4 && poly[0] == poly.last() {
        poly.drop_last()
    } else {
        poly
    }
}

/// The polyline traced from the unused segment `start`, entered at its start,
/// and the marks after it.
pub open spec fn trace(segs: Seq<GridSegment>, used: Seq<bool>, start: int) -> (
    Seq<bool>,
    Seq<GridPoint>,
) {
    let r = walk(segs, used, start, true, Seq::empty());
    (r.0, close_loop(r.1))
}

/// Appends to `acc` the polylines traced from each segment, from index `i`
/// on, that no earlier polyline used; polylines of fewer than three vertices
/// are dropped.
pub open spec fn assemble(
    segs: Seq<GridSegment>,
    used: Seq<bool>,
    i: int,
    acc: Seq<Seq<GridPoint>>,
) -> Seq<Seq<GridPoint>>
    decreases segs.len() - i,
{
    if i >= segs.len() {
        acc
    } else if used[i] {
        assemble(segs, used, i + 1, acc)
    } else {
        let t = trace(segs, used, i);
        let acc2 = if t.1.len() >= 3 {
            acc.push(t.1)
        } else {
            acc
        };
        assemble(segs, t.0, i + 1, acc2)
    }
}

/// The polylines that the segments join into.
pub open spec fn polylines_of(segs: Seq<GridSegment>) -> Seq<Seq<GridPoint>> {
    assemble(segs, Seq::new(segs.len(), |i: int| false), 0, Seq::empty())
}

/// Segment `s` joins points `a` and `b`, in either direction.
pub open spec fn joins(s: GridSegment, a: GridPoint, b: GridPoint) -> bool {
    (s.0 == a && s.1 == b) || (s.0 == b && s.1 == a)
}

/// Each two consecutive vertices of `poly` are joined by one of the segments.
pub open spec fn edges_are_segments(segs: Seq<GridSegment>, poly: Seq<GridPoint>) -> bool {
    forall|j: int|
        0 <= j < poly.len() - 1 ==> exists|i: int|
            0 <= i < segs.len() && joins(segs[i], #[trigger] poly[j], poly[j + 1])
}

/// A found entry is an unused entry of the list.
proof fn lemma_first_unused_found(list: Seq<(usize, bool)>, used: Seq<bool>, j: int)
    requires
        0 <= j,
    ensures
        first_unused_from(list, used, j) matches Some(e) ==> exists|t: int|
            j <= t < list.len() && list[t] == e && !used[e.0 as int],
    decreases list.len() - j,
{
    if j < list.len() && used[list[j].0 as int] {
        lemma_first_unused_found(list, used, j + 1);
    }
}

/// Walking on from a segment entered at the last vertex keeps every edge of
/// the polyline a segment.
proof fn lemma_walk_edges(
    segs: Seq<GridSegment>,
    used: Seq<bool>,
    c: int,
    from_start: bool,
    poly: Seq<GridPoint>,
)
    requires
        segs.len() <= usize::MAX,
        edges_are_segments(segs, poly),
        0 <= c < segs.len() && poly.len() > 0 ==> (if from_start {
            segs[c].0
        } else {
            segs[c].1
        }) == poly.last(),
    ensures
        edges_are_segments(segs, walk(segs, used, c, from_start, poly).1),
    decreases count_unused(used),
{
    if 0 <= c < used.len() && c < segs.len() && !used[c] {
        let marked = used.update(c, true);
        let near = if from_start {
            segs[c].0
        } else {
            segs[c].1
        };
        let far = if from_start {
            segs[c].1
        } else {
            segs[c].0
        };
        let extended = if poly.len() == 0 {
            seq![near, far]
        } else {
            poly.push(far)
        };
        assert(joins(segs[c], near, far));
        assert forall|j: int| 0 <= j < extended.len() - 1 implies exists|i: int|
            0 <= i < segs.len() && joins(segs[i], #[trigger] extended[j], extended[j + 1]) by {
            if j < extended.len() - 2 {
                assert(extended[j] == poly[j] && extended[j + 1] == poly[j + 1]);
            } else {
                assert(extended[j] == near && extended[j + 1] == far);
            }
        }
        match next_at(segs, marked, far) {
            Some(nx) => {
                let l = adj_list(segs, far, segs.len() as int);
                lemma_first_unused_found(l, marked, 0);
                lemma_adj_list_entries(segs, far, segs.len() as int);
                let t = choose|t: int| 0 <= t < l.len() && l[t] == nx && !marked[nx.0 as int];
                assert(l[t] == nx);
                lemma_count_unused_mark(used, c);
                lemma_walk_edges(segs, marked, nx.0 as int, nx.1, extended);
            },
            None => {},
        }
    }
}

/// Dropping the closing vertex keeps every edge a segment.
proof fn lemma_close_loop_edges(segs: Seq<GridSegment>, poly: Seq<GridPoint>)
    requires
        edges_are_segments(segs, poly),
    ensures
        edges_are_segments(segs, close_loop(poly)),
{
    let closed = close_loop(poly);
    assert forall|j: int| 0 <= j < closed.len() - 1 implies exists|i: int|
        0 <= i < segs.len() && joins(segs[i], #[trigger] closed[j], closed[j + 1]) by {
        assert(closed[j] == poly[j] && closed[j + 1] == poly[j + 1]);
    }
}

/// Every polyline assembled after `acc` has at least three vertices and its
/// edges on segments, given that those in `acc` do.
proof fn lemma_assemble_edges(
    segs: Seq<GridSegment>,
    used: Seq<bool>,
    i: int,
    acc: Seq<Seq<GridPoint>>,
)
    requires
        segs.len() <= usize::MAX,
        forall|k: int| 0 <= k < acc.len() ==> edges_are_segments(segs, #[trigger] acc[k]),
        forall|k: int| 0 <= k < acc.len() ==> (#[trigger] acc[k]).len() >= 3,
    ensures
        forall|k: int|
            0 <= k < assemble(segs, used, i, acc).len() ==> edges_are_segments(
                segs,
                #[trigger] assemble(segs, used, i, acc)[k],
            ),
        forall|k: int|
            0 <= k < assemble(segs, used, i, acc).len() ==> (#[trigger] assemble(segs, used, i, acc)[k]).len() >= 3,
    decreases segs.len() - i,
{
    if i < segs.len() {
        if used[i] {
            assert(assemble(segs, used, i, acc) == assemble(segs, used, i + 1, acc));
            lemma_assemble_edges(segs, used, i + 1, acc);
        } else {
            let w = walk(segs, used, i, true, Seq::empty());
            assert(edges_are_segments(segs, Seq::<GridPoint>::empty()));
            lemma_walk_edges(segs, used, i, true, Seq::empty());
            lemma_close_loop_edges(segs, w.1);
            let t = trace(segs, used, i);
            let acc2 = if t.1.len() >= 3 {
                acc.push(t.1)
            } else {
                acc
            };
            assert forall|k: int| 0 <= k < acc2.len() implies edges_are_segments(
                segs,
                #[trigger] acc2[k],
            ) && acc2[k].len() >= 3 by {
                if k < acc.len() {
                    assert(acc2[k] == acc[k]);
                }
            }
            assert(assemble(segs, used, i, acc) == assemble(segs, t.0, i + 1, acc2));
            lemma_assemble_edges(segs, t.0, i + 1, acc2);
        }
    }
}

/// Every polyline that the segments join into has at least three vertices,
/// and each two consecutive vertices of it are the two endpoints of one
/// segment.
pub proof fn lemma_polylines_follow_segments(segs: Seq<GridSegment>)
    requires
        segs.len() <= usize::MAX,
    ensures
        forall|k: int|
            0 <= k < polylines_of(segs).len() ==> edges_are_segments(
                segs,
                #[trigger] polylines_of(segs)[k],
            ),
        forall|k: int| 0 <= k < polylines_of(segs).len() ==> (#[trigger] polylines_of(segs)[k]).len() >= 3,
{
    lemma_assemble_edges(segs, Seq::new(segs.len(), |i: int| false), 0, Seq::empty());
}

/// A traced polyline keeps every vertex of its walk, except that a walk of at
/// least four vertices whose last vertex equals its first (both coordinates)
/// loses that repeated closing vertex; an open chain keeps its final
/// endpoint.
pub proof fn lemma_trace_drops_only_closing_vertex(segs: Seq<GridSegment>, used: Seq<bool>, start: int)
    ensures
        ({
            let w = walk(segs, used, start, true, Seq::empty()).1;
            let t = trace(segs, used, start).1;
            &&& (w.len() > 0 && w[0] != w[w.len() - 1]) ==> t == w
            &&& w.len() < 4 ==> t == w
            &&& (w.len() >= 4 && w[0] == w[w.len() - 1]) ==> t == w.subrange(0, w.len() - 1)
            &&& t.len() + 1 == w.len() ==> w[0] == w[w.len() - 1]
            &&& forall|j: int| 0 <= j < t.len() ==> #[trigger] t[j] == w[j]
        }),
{
    let w = walk(segs, used, start, true, Seq::empty()).1;
    let t = trace(segs, used, start).1;
    assert(t == close_loop(w));
    if w.len() >= 4 && w[0] == w.last() {
        assert(t =~= w.subrange(0, w.len() - 1));
    }
}

/// Appends `item` to the list of point `p`, creating the list if needed.
fn push_adjacent(m: &mut HashMap<i64, Vec<(usize, bool)>>, p: GridPoint, item: (usize, bool))
    ensures
        forall|k: i64| k != point_key(p) ==> #[trigger] final(m)@.contains_key(k) == old(m)@.contains_key(k),
        forall|k: i64| k != point_key(p) && old(m)@.contains_key(k) ==> #[trigger] final(m)@[k] == old(m)@[k],
        final(m)@.contains_key(point_key(p)),
        final(m)@[point_key(p)]@ == (if old(m)@.contains_key(point_key(p)) {
            old(m)@[point_key(p)]@
        } else {
            Seq::empty()
        }).push(item),
{
    let k = pack_key(p.0, p.1);
    let mut list = match m.remove(&k) {
        Some(l) => l,
        None => Vec::new(),
    };
    list.push(item);
    m.insert(k, list);
}

/// One segment's two endpoints, pushed onto the map of the segments before
/// it, give the map of the segments up to it, at every point.
proof fn lemma_adjacency_step_at(
    m0: Map<i64, Vec<(usize, bool)>>,
    m1: Map<i64, Vec<(usize, bool)>>,
    m2: Map<i64, Vec<(usize, bool)>>,
    segs: Seq<GridSegment>,
    i: int,
    p: GridPoint,
)
    requires
        0 <= i < segs.len() <= usize::MAX,
        adjacency_of(m0, segs, i),
        forall|k: i64| k != point_key(segs[i].0) ==> #[trigger] m1.contains_key(k) == m0.contains_key(k),
        forall|k: i64| k != point_key(segs[i].0) && m0.contains_key(k) ==> #[trigger] m1[k] == m0[k],
        m1.contains_key(point_key(segs[i].0)),
        m1[point_key(segs[i].0)]@ == (if m0.contains_key(point_key(segs[i].0)) {
            m0[point_key(segs[i].0)]@
        } else {
            Seq::empty()
        }).push((i as usize, true)),
        forall|k: i64| k != point_key(segs[i].1) ==> #[trigger] m2.contains_key(k) == m1.contains_key(k),
        forall|k: i64| k != point_key(segs[i].1) && m1.contains_key(k) ==> #[trigger] m2[k] == m1[k],
        m2.contains_key(point_key(segs[i].1)),
        m2[point_key(segs[i].1)]@ == (if m1.contains_key(point_key(segs[i].1)) {
            m1[point_key(segs[i].1)]@
        } else {
            Seq::empty()
        }).push((i as usize, false)),
    ensures
        m2.contains_key(point_key(p)) <==> adj_list(segs, p, i + 1).len() > 0,
        m2.contains_key(point_key(p)) ==> m2[point_key(p)]@ == adj_list(segs, p, i + 1),
{
    let s = segs[i].0;
    let e = segs[i].1;
    let kp = point_key(p);
    if p != s && kp == point_key(s) {
        lemma_point_key_injective(p, s);
    }
    if p != e && kp == point_key(e) {
        lemma_point_key_injective(p, e);
    }
    let prev = adj_list(segs, p, i);
    assert(m0.contains_key(kp) <==> prev.len() > 0);
    assert(m0.contains_key(kp) ==> m0[kp]@ == prev);
    assert(m1.contains_key(kp) <==> m0.contains_key(kp) || p == s);
    if p == s {
        assert(m1[kp]@ == prev.push((i as usize, true)));
    } else if m1.contains_key(kp) {
        assert(m1[kp] == m0[kp]);
    }
}

/// Builds the adjacency map of a set of segments: each endpoint's grid
/// point, by key, to the segments that end there.
pub fn build_adjacency_map(segments: &[GridSegment]) -> (m: HashMap<i64, Vec<(usize, bool)>>)
    ensures
        adjacency_of(m@, segments@, segments@.len() as int),
{
    let ghost segs = segments@;
    let mut adjacency: HashMap<i64, Vec<(usize, bool)>> = HashMap::new();
    let mut i: usize = 0;
    while i < segments.len()
        invariant
            segs == segments@,
            i <= segs.len(),
            adjacency_of(adjacency@, segs, i as int),
        decreases segs.len() - i,
    {
        let (start, end) = segments[i];
        let ghost m0 = adjacency@;
        push_adjacent(&mut adjacency, start, (i, true));
        let ghost m1 = adjacency@;
        push_adjacent(&mut adjacency, end, (i, false));
        proof {
            let m2 = adjacency@;
            let n = (i + 1) as int;
            assert(segs[i as int] == (start, end));
            assert forall|p: GridPoint| #[trigger]
                m2.contains_key(point_key(p)) <==> adj_list(segs, p, n).len() > 0 by {
                lemma_adjacency_step_at(m0, m1, m2, segs, i as int, p);
            }
            assert forall|p: GridPoint| m2.contains_key(point_key(p)) implies (#[trigger] m2[point_key(p)])@
                == adj_list(segs, p, n) by {
                lemma_adjacency_step_at(m0, m1, m2, segs, i as int, p);
            }
            assert forall|k: i64| #[trigger] m2.contains_key(k) implies exists|p: GridPoint|
                point_key(p) == k by {
                if k == point_key(start) {
                    assert(point_key(start) == k);
                } else if k == point_key(end) {
                    assert(point_key(end) == k);
                } else {
                    assert(m1.contains_key(k));
                    assert(m0.contains_key(k));
                }
            }
        }
        i = i + 1;
    }
    adjacency
}

/// The next unused segment at point `p`, found through the adjacency map.
fn next_unused(
    adjacency: &HashMap<i64, Vec<(usize, bool)>>,
    used: &Vec<bool>,
    p: GridPoint,
    Ghost(segs): Ghost<Seq<GridSegment>>,
) -> (r: Option<(usize, bool)>)
    requires
        adjacency_of(adjacency@, segs, segs.len() as int),
        used@.len() == segs.len(),
        segs.len() <= usize::MAX,
    ensures
        r == next_at(segs, used@, p),
        r matches Some(e) ==> e.0 < segs.len() && !used@[e.0 as int],
{
    let ghost l = adj_list(segs, p, segs.len() as int);
    proof {
        lemma_adj_list_entries(segs, p, segs.len() as int);
    }
    let k = pack_key(p.0, p.1);
    assert(k == point_key(p));
    match adjacency.get(&k) {
        Some(list) => {
            assert(list@ == l);
            let mut j: usize = 0;
            while j < list.len()
                invariant
                    list@ == l,
                    l == adj_list(segs, p, segs.len() as int),
                    j <= l.len(),
                    used@.len() == segs.len(),
                    forall|t: int| 0 <= t < l.len() ==> (#[trigger] l[t]).0 < segs.len(),
                    first_unused_from(l, used@, 0) == first_unused_from(l, used@, j as int),
                decreases l.len() - j,
            {
                let (idx, is_start) = list[j];
                if !used[idx] {
                    assert(first_unused_from(l, used@, j as int) == Some(l[j as int]));
                    return Some((idx, is_start));
                }
                j = j + 1;
            }
            None
        },
        None => {
            assert(l.len() == 0);
            None
        },
    }
}

/// Traces a polyline from the unused segment `start_idx`, marking the
/// segments it follows as used.
fn traverse_polyline(
    segments: &[GridSegment],
    adjacency: &HashMap<i64, Vec<(usize, bool)>>,
    used: &mut Vec<bool>,
    start_idx: usize,
) -> (polyline: Vec<GridPoint>)
    requires
        adjacency_of(adjacency@, segments@, segments@.len() as int),
        old(used)@.len() == segments@.len(),
        start_idx < segments@.len(),
        !old(used)@[start_idx as int],
    ensures
        final(used)@.len() == old(used)@.len(),
        final(used)@ == trace(segments@, old(used)@, start_idx as int).0,
        polyline@ == trace(segments@, old(used)@, start_idx as int).1,
{
    let ghost segs = segments@;
    let n = segments.len();
    let ghost target = walk(segs, used@, start_idx as int, true, Seq::empty());
    let mut polyline: Vec<GridPoint> = Vec::new();
    let mut current_idx = start_idx;
    let mut entering_from_start = true;
    loop
        invariant_except_break
            current_idx < segs.len(),
            !used@[current_idx as int],
            walk(segs, used@, current_idx as int, entering_from_start, polyline@) == target,
        invariant
            segs == segments@,
            n == segs.len(),
            used@.len() == segs.len(),
            adjacency_of(adjacency@, segs, segs.len() as int),
        ensures
            used@ == target.0,
            polyline@ == target.1,
        decreases count_unused(used@),
    {
        let ghost used0 = used@;
        let ghost poly0 = polyline@;
        let ghost c = current_idx as int;
        used.set(current_idx, true);
        let (seg_start, seg_end) = segments[current_idx];
        let far = if entering_from_start {
            if polyline.len() == 0 {
                polyline.push(seg_start);
            }
            polyline.push(seg_end);
            seg_end
        } else {
            if polyline.len() == 0 {
                polyline.push(seg_end);
            }
            polyline.push(seg_start);
            seg_start
        };
        proof {
            lemma_count_unused_mark(used0, c);
            assert(used@ == used0.update(c, true));
            if poly0.len() == 0 {
                let near = if entering_from_start { seg_start } else { seg_end };
                assert(polyline@ =~= seq![near, far]);
            } else {
                assert(polyline@ =~= poly0.push(far));
            }
        }
        let next = next_unused(adjacency, used, far, Ghost(segs));
        match next {
            Some((idx, is_start)) => {
                current_idx = idx;
                entering_from_start = is_start;
            },
            None => {
                break ;
            },
        }
    }
    if polyline.len() >= 4 {
        let first = polyline[0];
        let last = polyline[polyline.len() - 1];
        if first.0 == last.0 && first.1 == last.1 {
            polyline.pop();
        }
    }
    polyline
}

/// Connects edge segments into polylines.
///
/// Starting from each segment, in index order, that no earlier polyline
/// used, follows shared endpoints as far as they go; a closed loop drops its
/// repeated closing vertex, and polylines of fewer than three vertices are
/// discarded.
pub fn connect_segments(segments: Vec<GridSegment>) -> (polylines: Vec<Vec<GridPoint>>)
    ensures
        polylines@.map_values(|p: Vec<GridPoint>| p@) == polylines_of(segments@),
{
    let ghost segs = segments@;
    let n = segments.len();
    let adjacency = build_adjacency_map(segments.as_slice());
    let mut used: Vec<bool> = Vec::new();
    let mut k: usize = 0;
    while k < n
        invariant
            k <= n,
            n == segs.len(),
            used@ == Seq::new(k as nat, |i: int| false),
        decreases n - k,
    {
        used.push(false);
        proof {
            assert(used@ =~= Seq::new((k + 1) as nat, |i: int| false));
        }
        k = k + 1;
    }
    let mut polylines: Vec<Vec<GridPoint>> = Vec::new();
    proof {
        assert(used@ =~= Seq::new(segs.len(), |i: int| false));
        assert(polylines@.map_values(|p: Vec<GridPoint>| p@) =~= Seq::<Seq<GridPoint>>::empty());
    }
    let mut start_idx: usize = 0;
    while start_idx < n
        invariant
            segs == segments@,
            n == segs.len(),
            start_idx <= n,
            used@.len() == n,
            adjacency_of(adjacency@, segs, segs.len() as int),
            assemble(segs, used@, start_idx as int, polylines@.map_values(|p: Vec<GridPoint>| p@))
                == polylines_of(segs),
        decreases n - start_idx,
    {
        if !used[start_idx] {
            let ghost acc0 = polylines@.map_values(|p: Vec<GridPoint>| p@);
            let polyline = traverse_polyline(segments.as_slice(), &adjacency, &mut used, start_idx);
            if polyline.len() >= 3 {
                let ghost traced = polyline@;
                polylines.push(polyline);
                proof {
                    assert(polylines@.map_values(|p: Vec<GridPoint>| p@) =~= acc0.push(traced));
                }
            }
        }
        start_idx = start_idx + 1;
    }
    polylines
}

} // verus!
