//! Bresenham's algorithms for drawing circles.
//!
//! Both iterators walk one canonical arc with the midpoint-circle error
//! recurrence and replay it through the symmetry transforms.
//! [`BresenhamCircle`] uses the four rotating quadrants; each quadrant's arc
//! is half open by construction, so no boundary point is emitted twice.
//! [`BresenhamCircleNoDiag`] moves along one axis per step and uses the
//! eight octants; the octant seams (the axis and diagonal points) are shared
//! between neighbouring octants, so alternating arcs drop one of their two
//! seam points and every boundary point is emitted exactly once.

use vstd::prelude::*;

verus! {

use crate::geometry::octant::{octant_from0_at, Octant};
use crate::geometry::quadrant::{quadrant_from0_rotating_at, Quadrant};
use crate::{fits_i16, pt, pts, Point};

/// The square of an integer.
pub open spec fn sq(a: int) -> int {
    a * a
}

/// Multiplying out a square of a successor: `(a+1)^2 == a^2 + 2a + 1`.
proof fn lemma_sq_succ(a: int)
    by (nonlinear_arith)
    ensures
        sq(a + 1) == sq(a) + 2 * a + 1,
{
}

/// Squares are non-negative.
proof fn lemma_sq_nonneg(a: int)
    by (nonlinear_arith)
    ensures
        0 <= sq(a),
{
}

/// Squares are monotone on non-negative integers.
proof fn lemma_sq_mono(a: int, b: int)
    by (nonlinear_arith)
    requires
        0 <= a <= b,
    ensures
        sq(a) <= sq(b),
{
}

/// The midpoint error accumulator stays far from the 32-bit boundaries.
proof fn lemma_err_in_range(x: int, y: int, r: int, err: int)
    requires
        0 <= x <= r,
        -1 <= y <= r,
        r <= 0x7fff,
        err == sq(x + 1) + sq(y - 1) - sq(r),
    ensures
        -0x4000_0000 <= err <= 0x4000_0010,
{
    lemma_sq_nonneg(x + 1);
    lemma_sq_nonneg(y - 1);
    lemma_sq_mono(r, 0x7fff);
    assert(sq(0x7fff) == 0x3fff_0001) by (nonlinear_arith);
    lemma_sq_mono(x + 1, r + 1);
    if y >= 1 {
        lemma_sq_mono(y - 1, r - 1);
        assert(sq(r + 1) + sq(r - 1) == 2 * sq(r) + 2) by (nonlinear_arith);
    } else {
        assert(sq(y - 1) <= 4) by (nonlinear_arith)
            requires
                -1 <= y <= 0,
        {}
        assert(sq(r + 1) == sq(r) + 2 * r + 1) by (nonlinear_arith);
    }
}

/// One step of the single-axis midpoint walk: down when the accumulated
/// error is positive, right otherwise.  Returns the new point and error.
pub open spec fn nd_next(x: int, y: int, err: int) -> ((int, int), int) {
    if err > 0 {
        ((x, y - 1), err + (-2 * (y - 1) + 1))
    } else {
        ((x + 1, y), err + (2 * (x + 1) + 1))
    }
}

/// The canonical arc of the single-axis walk: the current point, then every
/// stepped point until the diagonal `x == y` inclusive.
pub open spec fn nd_arc(x: int, y: int, err: int) -> Seq<(int, int)>
    decreases y - x,
        when 0 <= x <= y
{
    if x == y {
        seq![(x, y)]
    } else {
        let s = nd_next(x, y, err);
        seq![(x, y)] + nd_arc(s.0.0, s.0.1, s.1)
    }
}

/// The full canonical single-axis arc for radius `r`, from `(0, r)` to the
/// diagonal.
pub open spec fn nd_arc_full(r: int) -> Seq<(int, int)> {
    nd_arc(0, r, 2 - 2 * r)
}

/// The boundary points contributed by octant `o`: even octants keep their
/// axis seam and drop the diagonal seam, odd octants the other way round,
/// so that neighbouring octants never repeat a seam point.
pub open spec fn nd_octant_points(c: (int, int), r: int, o: int) -> Seq<(int, int)> {
    let arc = nd_arc_full(r);
    let part = if o % 2 == 0 {
        arc.drop_last()
    } else {
        arc.drop_first()
    };
    part.map_values(|d: (int, int)| octant_from0_at(c, o, d))
}

/// The boundary points of octants `o` to `7`, in octant order.
pub open spec fn nd_octants_from(c: (int, int), r: int, o: int) -> Seq<(int, int)>
    decreases 8 - o,
        when o <= 8
{
    if o >= 8 {
        Seq::empty()
    } else {
        nd_octant_points(c, r, o) + nd_octants_from(c, r, o + 1)
    }
}

/// The discrete circle boundary of radius `r` around `c`, each point
/// exactly once; empty for `r <= 0`.
pub open spec fn circle_nd_seq(c: (int, int), r: int) -> Seq<(int, int)> {
    if r <= 0 {
        Seq::empty()
    } else {
        nd_octants_from(c, r, 0)
    }
}

/// The shape of a canonical single-axis arc: it walks from `(x, y)` to the
/// diagonal in exactly `y - x` single-axis steps, so the gap `y' - x'`
/// falls by one per emitted point and the points are pairwise distinct.
proof fn lemma_nd_arc_shape(x: int, y: int, err: int)
    requires
        0 <= x <= y,
    ensures
        nd_arc(x, y, err).len() == y - x + 1,
        forall|i: int|
            0 <= i < nd_arc(x, y, err).len() ==> {
                let p = #[trigger] nd_arc(x, y, err)[i];
                x <= p.0 && p.1 <= y && 0 <= p.0 <= p.1 && p.1 - p.0 == (y - x) - i
            },
    decreases y - x,
{
    if x != y {
        let s = nd_next(x, y, err);
        lemma_nd_arc_shape(s.0.0, s.0.1, s.1);
        assert forall|i: int| 0 <= i < nd_arc(x, y, err).len() implies {
            let p = #[trigger] nd_arc(x, y, err)[i];
            x <= p.0 && p.1 <= y && 0 <= p.0 <= p.1 && p.1 - p.0 == (y - x) - i
        } by {
            if i > 0 {
                assert(nd_arc(x, y, err)[i] == nd_arc(s.0.0, s.0.1, s.1)[i - 1]);
            }
        }
    }
}

/// The plane region that octant `o`'s boundary points land in.  The eight
/// regions tile the plane around the centre without overlap: even octants
/// own their axis seam, odd octants own their diagonal seam.
pub open spec fn nd_region(o: int, d: (int, int)) -> bool {
    if o == 0 {
        0 <= d.0 && d.0 < d.1
    } else if o == 1 {
        1 <= d.1 && d.1 <= d.0
    } else if o == 2 {
        d.0 <= -1 && 0 <= d.1 && d.1 < -d.0
    } else if o == 3 {
        d.0 <= -1 && 1 <= d.1 && -d.0 <= d.1
    } else if o == 4 {
        d.0 <= 0 && d.1 <= -1 && d.1 < d.0
    } else if o == 5 {
        d.0 <= -1 && d.1 <= -1 && d.0 <= d.1
    } else if o == 6 {
        1 <= d.0 && d.1 <= 0 && -d.1 < d.0
    } else {
        1 <= d.0 && d.1 <= -1 && d.0 <= -d.1
    }
}

/// Whether `d` lies in the region of some octant with tag at least `o`.
pub open spec fn nd_region_from(o: int, d: (int, int)) -> bool
    decreases 8 - o,
        when 0 <= o <= 8
{
    if o >= 8 {
        false
    } else {
        nd_region(o, d) || nd_region_from(o + 1, d)
    }
}

/// The octant regions are pairwise disjoint: a point in octant `o`'s region
/// is in no region with a larger tag.
proof fn lemma_nd_region_excl(o: int, o2: int, d: (int, int))
    requires
        0 <= o < o2 <= 8,
        nd_region(o, d),
    ensures
        !nd_region_from(o2, d),
    decreases 8 - o2,
{
    if o2 < 8 {
        lemma_nd_region_excl(o, o2 + 1, d);
    }
}

/// Every boundary point of octant `o` lies in that octant's region, and no
/// two of them coincide.
proof fn lemma_nd_octant_points_props(c: (int, int), r: int, o: int)
    requires
        1 <= r,
        0 <= o < 8,
    ensures
        forall|i: int|
            0 <= i < nd_octant_points(c, r, o).len() ==> {
                let q = #[trigger] nd_octant_points(c, r, o)[i];
                nd_region(o, (q.0 - c.0, q.1 - c.1))
            },
        forall|i: int, j: int|
            0 <= i < j < nd_octant_points(c, r, o).len() ==> nd_octant_points(c, r, o)[i]
                != nd_octant_points(c, r, o)[j],
{
    let arc = nd_arc_full(r);
    lemma_nd_arc_shape(0, r, 2 - 2 * r);
    let s = nd_next(0, r, 2 - 2 * r);
    lemma_nd_arc_shape(s.0.0, s.0.1, s.1);
    assert(arc == seq![(0int, r)] + nd_arc(s.0.0, s.0.1, s.1));
    let part = if o % 2 == 0 {
        arc.drop_last()
    } else {
        arc.drop_first()
    };
    assert forall|i: int| 0 <= i < part.len() implies {
        let p = #[trigger] part[i];
        &&& 0 <= p.0 <= p.1 <= r
        &&& p.1 - p.0 == if o % 2 == 0 {
            r - i
        } else {
            r - i - 1
        }
        &&& (o % 2 == 0 ==> p.0 < p.1)
        &&& (o % 2 != 0 ==> 1 <= p.0)
    } by {
        if o % 2 == 0 {
            assert(part[i] == arc[i]);
        } else {
            assert(part[i] == arc[i + 1]);
            assert(arc[i + 1] == nd_arc(s.0.0, s.0.1, s.1)[i]);
        }
    }
    assert forall|i: int| 0 <= i < nd_octant_points(c, r, o).len() implies {
        let q = #[trigger] nd_octant_points(c, r, o)[i];
        nd_region(o, (q.0 - c.0, q.1 - c.1))
    } by {
        assert(nd_octant_points(c, r, o)[i] == octant_from0_at(c, o, part[i]));
    }
    assert forall|i: int, j: int|
        0 <= i < j < nd_octant_points(c, r, o).len() implies nd_octant_points(c, r, o)[i]
        != nd_octant_points(c, r, o)[j] by {
        assert(nd_octant_points(c, r, o)[i] == octant_from0_at(c, o, part[i]));
        assert(nd_octant_points(c, r, o)[j] == octant_from0_at(c, o, part[j]));
        assert(part[i].1 - part[i].0 != part[j].1 - part[j].0);
    }
}

/// The boundary points of octants `o` to `7` are pairwise distinct, and
/// each lies in the region of one of those octants.
proof fn lemma_nd_octants_distinct(c: (int, int), r: int, o: int)
    requires
        1 <= r,
        0 <= o <= 8,
    ensures
        forall|i: int, j: int|
            0 <= i < j < nd_octants_from(c, r, o).len() ==> nd_octants_from(c, r, o)[i]
                != nd_octants_from(c, r, o)[j],
        forall|i: int|
            0 <= i < nd_octants_from(c, r, o).len() ==> {
                let q = #[trigger] nd_octants_from(c, r, o)[i];
                nd_region_from(o, (q.0 - c.0, q.1 - c.1))
            },
    decreases 8 - o,
{
    if o < 8 {
        lemma_nd_octant_points_props(c, r, o);
        lemma_nd_octants_distinct(c, r, o + 1);
        let whole = nd_octants_from(c, r, o);
        let head = nd_octant_points(c, r, o);
        let rest = nd_octants_from(c, r, o + 1);
        assert forall|i: int| 0 <= i < whole.len() implies {
            let q = #[trigger] whole[i];
            nd_region_from(o, (q.0 - c.0, q.1 - c.1))
        } by {
            if i < head.len() {
                assert(whole[i] == head[i]);
            } else {
                assert(whole[i] == rest[i - head.len()]);
            }
        }
        assert forall|i: int, j: int| 0 <= i < j < whole.len() implies whole[i] != whole[j] by {
            if j < head.len() {
                assert(whole[i] == head[i] && whole[j] == head[j]);
            } else if i >= head.len() {
                assert(whole[i] == rest[i - head.len()] && whole[j] == rest[j - head.len()]);
            } else {
                assert(whole[i] == head[i] && whole[j] == rest[j - head.len()]);
                let q1 = head[i];
                let q2 = rest[j - head.len()];
                if q1 == q2 {
                    lemma_nd_region_excl(o, o + 1, (q1.0 - c.0, q1.1 - c.1));
                }
            }
        }
    }
}

/// The deduplicated circle never emits the same boundary point twice.
pub proof fn lemma_circle_nd_distinct(c: (int, int), r: int)
    ensures
        forall|i: int, j: int|
            0 <= i < j < circle_nd_seq(c, r).len() ==> circle_nd_seq(c, r)[i] != circle_nd_seq(
                c,
                r,
            )[j],
{
    if r >= 1 {
        lemma_nd_octants_distinct(c, r, 0);
    }
}

/// One step of the two-axis midpoint walk: right when the error has fallen
/// to the current column, down when it exceeds the current row.
pub open spec fn qc_next(x: int, y: int, err: int) -> ((int, int), int) {
    let e = err;
    let x1 = if e <= x {
        x + 1
    } else {
        x
    };
    let err1 = if e <= x {
        err + (2 * (x + 1) + 1)
    } else {
        err
    };
    let y1 = if e > -y {
        y - 1
    } else {
        y
    };
    let err2 = if e > -y {
        err1 + (-2 * (y - 1) + 1)
    } else {
        err1
    };
    ((x1, y1), err2)
}

/// Whether a two-axis walk state is consistent: coordinates in range and
/// the error accumulator carrying its defining value.
pub open spec fn qc_wf(r: int, x: int, y: int, err: int) -> bool {
    &&& 0 <= x <= r
    &&& 0 <= y <= r
    &&& err == sq(x + 1) + sq(y - 1) - sq(r)
}

/// A consistent two-axis walk state steps to a consistent state, moving
/// along at least one axis and never past column `r`.
proof fn lemma_qc_step(r: int, x: int, y: int, err: int)
    requires
        qc_wf(r, x, y, err),
        0 < y,
    ensures
        qc_wf(r, qc_next(x, y, err).0.0, qc_next(x, y, err).0.1, qc_next(x, y, err).1),
        qc_next(x, y, err).0.1 + (r - qc_next(x, y, err).0.0) < y + (r - x),
        qc_next(x, y, err).0.1 < y || qc_next(x, y, err).0.0 == x + 1,
{
    lemma_sq_succ(x + 1);
    lemma_sq_succ(y - 2);
    if err <= x && x == r {
        assert(false) by (nonlinear_arith)
            requires
                err == sq(r + 1) + sq(y - 1) - sq(r),
                err <= r,
                0 <= r,
        {}
    }
    if !(err <= x) && !(err > -y) {
        assert(false);
    }
}

/// The canonical arc of the two-axis walk: every stepped point until the
/// row reaches zero, inclusive; the starting point is not part of the arc.
pub open spec fn qc_arc(r: int, x: int, y: int, err: int) -> Seq<(int, int)>
    decreases y + (r - x),
        when qc_wf(r, x, y, err)
        via qc_arc_decreases
{
    if y <= 0 {
        Seq::empty()
    } else {
        let s = qc_next(x, y, err);
        seq![s.0] + qc_arc(r, s.0.0, s.0.1, s.1)
    }
}

#[via_fn]
proof fn qc_arc_decreases(r: int, x: int, y: int, err: int) {
    if qc_wf(r, x, y, err) && y > 0 {
        lemma_qc_step(r, x, y, err);
    }
}

/// The boundary points contributed by rotating quadrants `q` to `3`.
pub open spec fn qc_quadrants_from(c: (int, int), r: int, q: int) -> Seq<(int, int)>
    decreases 4 - q,
        when q <= 4
{
    if q >= 4 {
        Seq::empty()
    } else {
        qc_arc(r, 0, r, 2 - 2 * r).map_values(|d: (int, int)| quadrant_from0_rotating_at(c, q, d))
            + qc_quadrants_from(c, r, q + 1)
    }
}

/// The discrete circle boundary of radius `r` around `c` as the two-axis
/// walk draws it, replayed through the four rotating quadrants.
pub open spec fn circle_seq(c: (int, int), r: int) -> Seq<(int, int)> {
    qc_quadrants_from(c, r, 0)
}

/// The shape of a canonical two-axis arc: every point keeps to the box
/// `[0, r] x [0, r]` with a positive column, the walk never moves left or
/// up, and no point repeats.
proof fn lemma_qc_arc_shape(r: int, x: int, y: int, err: int)
    requires
        qc_wf(r, x, y, err),
    ensures
        forall|i: int|
            0 <= i < qc_arc(r, x, y, err).len() ==> {
                let p = #[trigger] qc_arc(r, x, y, err)[i];
                &&& 0 <= p.0 <= r && 0 <= p.1 <= r
                &&& (y > 0 ==> qc_next(x, y, err).0.0 <= p.0 && p.1 <= qc_next(x, y, err).0.1)
            },
        forall|i: int, j: int|
            0 <= i < j < qc_arc(r, x, y, err).len() ==> qc_arc(r, x, y, err)[i] != qc_arc(
                r,
                x,
                y,
                err,
            )[j],
    decreases y + (r - x),
{
    if y > 0 {
        let a = qc_arc(r, x, y, err);
        let s = qc_next(x, y, err);
        lemma_qc_step(r, x, y, err);
        lemma_qc_arc_shape(r, s.0.0, s.0.1, s.1);
        let tail = qc_arc(r, s.0.0, s.0.1, s.1);
        assert forall|i: int| 0 <= i < a.len() implies {
            let p = #[trigger] a[i];
            &&& 0 <= p.0 <= r && 0 <= p.1 <= r
            &&& s.0.0 <= p.0 && p.1 <= s.0.1
        } by {
            if i > 0 {
                assert(a[i] == tail[i - 1]);
            }
        }
        assert forall|i: int, j: int| 0 <= i < j < a.len() implies a[i] != a[j] by {
            if i > 0 {
                assert(a[i] == tail[i - 1] && a[j] == tail[j - 1]);
            } else {
                assert(a[j] == tail[j - 1]);
                // The next step moves strictly right or strictly down, and
                // the rest of the arc never comes back.
                if s.0.1 > 0 {
                    lemma_qc_step(r, s.0.0, s.0.1, s.1);
                }
            }
        }
    }
}

/// The plane region that rotating quadrant `q`'s boundary points land in.
/// The four regions are pairwise disjoint quarter turns of one another.
pub open spec fn qc_region(q: int, d: (int, int)) -> bool {
    if q == 0 {
        1 <= d.0 && 0 <= d.1
    } else if q == 1 {
        d.0 <= 0 && 1 <= d.1
    } else if q == 2 {
        d.0 <= -1 && d.1 <= 0
    } else {
        0 <= d.0 && d.1 <= -1
    }
}

/// Whether `d` lies in the region of some rotating quadrant with tag at
/// least `q`.
pub open spec fn qc_region_from(q: int, d: (int, int)) -> bool
    decreases 4 - q,
        when 0 <= q <= 4
{
    if q >= 4 {
        false
    } else {
        qc_region(q, d) || qc_region_from(q + 1, d)
    }
}

/// The rotating quadrant regions are pairwise disjoint.
proof fn lemma_qc_region_excl(q: int, q2: int, d: (int, int))
    requires
        0 <= q < q2 <= 4,
        qc_region(q, d),
    ensures
        !qc_region_from(q2, d),
    decreases 4 - q2,
{
    if q2 < 4 {
        lemma_qc_region_excl(q, q2 + 1, d);
    }
}

/// The boundary points of rotating quadrants `q` to `3` are pairwise
/// distinct, and each lies in the region of one of those quadrants.
proof fn lemma_qc_quadrants_distinct(c: (int, int), r: int, q: int)
    requires
        0 <= r,
        0 <= q <= 4,
    ensures
        forall|i: int, j: int|
            0 <= i < j < qc_quadrants_from(c, r, q).len() ==> qc_quadrants_from(c, r, q)[i]
                != qc_quadrants_from(c, r, q)[j],
        forall|i: int|
            0 <= i < qc_quadrants_from(c, r, q).len() ==> {
                let p = #[trigger] qc_quadrants_from(c, r, q)[i];
                qc_region_from(q, (p.0 - c.0, p.1 - c.1))
            },
    decreases 4 - q,
{
    if q < 4 {
        lemma_qc_quadrants_distinct(c, r, q + 1);
        let whole = qc_quadrants_from(c, r, q);
        let arc = qc_arc(r, 0, r, 2 - 2 * r);
        let head = arc.map_values(|d: (int, int)| quadrant_from0_rotating_at(c, q, d));
        let rest = qc_quadrants_from(c, r, q + 1);
        lemma_sq_succ(0);
        lemma_sq_succ(r - 1);
        assert(2 - 2 * r == sq(1) + sq(r - 1) - sq(r)) by (nonlinear_arith);
        lemma_qc_arc_shape(r, 0, r, 2 - 2 * r);
        if r >= 1 {
            // The arc's very first step moves right off the axis, so every
            // arc point has a positive column.
            assert(qc_next(0, r, 2 - 2 * r).0.0 == 1);
        }
        assert forall|i: int| 0 <= i < whole.len() implies {
            let p = #[trigger] whole[i];
            qc_region_from(q, (p.0 - c.0, p.1 - c.1))
        } by {
            if i < head.len() {
                assert(whole[i] == head[i]);
                assert(head[i] == quadrant_from0_rotating_at(c, q, arc[i]));
                assert(1 <= arc[i].0 && 0 <= arc[i].1);
            } else {
                assert(whole[i] == rest[i - head.len()]);
            }
        }
        assert forall|i: int, j: int| 0 <= i < j < whole.len() implies whole[i] != whole[j] by {
            if j < head.len() {
                assert(whole[i] == head[i] && whole[j] == head[j]);
                assert(head[i] == quadrant_from0_rotating_at(c, q, arc[i]));
                assert(head[j] == quadrant_from0_rotating_at(c, q, arc[j]));
                assert(arc[i] != arc[j]);
            } else if i >= head.len() {
                assert(whole[i] == rest[i - head.len()] && whole[j] == rest[j - head.len()]);
            } else {
                assert(whole[i] == head[i] && whole[j] == rest[j - head.len()]);
                assert(head[i] == quadrant_from0_rotating_at(c, q, arc[i]));
                let p1 = head[i];
                let p2 = rest[j - head.len()];
                if p1 == p2 {
                    lemma_qc_region_excl(q, q + 1, (p1.0 - c.0, p1.1 - c.1));
                }
            }
        }
    }
}

/// The four-quadrant circle never emits the same boundary point twice: each
/// quadrant's arc is half open, so the seams between quadrants are not
/// repeated.
pub proof fn lemma_circle_distinct(c: (int, int), r: int)
    requires
        0 <= r,
    ensures
        forall|i: int, j: int|
            0 <= i < j < circle_seq(c, r).len() ==> circle_seq(c, r)[i] != circle_seq(c, r)[j],
{
    lemma_qc_quadrants_distinct(c, r, 0);
}

/// Circle-drawing iterator over the full four-quadrant boundary.
pub struct BresenhamCircle {
    quadrant: Quadrant,
    point: Point,
    center: Point,
    r: i16,
    err: i32,
}

impl BresenhamCircle {
    /// Well-formedness of the iterator state.
    pub closed spec fn wf(self) -> bool {
        &&& self.quadrant.0 < 4
        &&& 0 <= self.r
        &&& qc_wf(self.r as int, self.point.0 as int, self.point.1 as int, self.err as int)
        &&& fits_i16((pt(self.center).0 - self.r as int, pt(self.center).1 - self.r as int))
        &&& fits_i16((pt(self.center).0 + self.r as int, pt(self.center).1 + self.r as int))
        &&& self.r == 0 ==> self.quadrant.0 == 3
    }

    /// The boundary points the iterator has yet to yield, in order.
    pub closed spec fn remaining(self) -> Seq<(int, int)> {
        (if self.point.1 as int > 0 {
            qc_arc(
                self.r as int,
                self.point.0 as int,
                self.point.1 as int,
                self.err as int,
            ).map_values(
                |d: (int, int)|
                    quadrant_from0_rotating_at(pt(self.center), self.quadrant.0 as int, d),
            )
        } else {
            Seq::empty()
        }) + qc_quadrants_from(pt(self.center), self.r as int, self.quadrant.0 as int + 1)
    }

    /// Creates an iterator over the boundary of the circle of radius `r`
    /// around `center`.
    pub fn new(center: Point, r: i16) -> (it: BresenhamCircle)
        requires
            0 <= r,
            fits_i16((pt(center).0 - r as int, pt(center).1 - r as int)),
            fits_i16((pt(center).0 + r as int, pt(center).1 + r as int)),
        ensures
            it.wf(),
            it.remaining() == circle_seq(pt(center), r as int),
    {
        let quadrant = Quadrant(if r == 0 {
            3
        } else {
            0
        });
        let it = BresenhamCircle {
            quadrant,
            point: (0, r),
            center,
            r,
            err: 2 - 2 * (r as i32),
        };
        proof {
            lemma_sq_succ(0);
            lemma_sq_succ(r as int - 1);
            assert(it.err as int == sq(1) + sq(r as int - 1) - sq(r as int)) by (nonlinear_arith)
                requires
                    it.err as int == 2 - 2 * (r as int),
            {}
            if r == 0 {
                assert(qc_quadrants_from(pt(center), 0, 0) =~= Seq::<(int, int)>::empty()
                    + qc_quadrants_from(pt(center), 0, 1));
                assert(qc_quadrants_from(pt(center), 0, 1) =~= Seq::<(int, int)>::empty()
                    + qc_quadrants_from(pt(center), 0, 2));
                assert(qc_quadrants_from(pt(center), 0, 2) =~= Seq::<(int, int)>::empty()
                    + qc_quadrants_from(pt(center), 0, 3));
                assert(qc_quadrants_from(pt(center), 0, 3) =~= Seq::<(int, int)>::empty()
                    + qc_quadrants_from(pt(center), 0, 4));
                assert(it.remaining() =~= circle_seq(pt(center), r as int));
            } else {
                assert(it.remaining() =~= circle_seq(pt(center), r as int));
            }
        }
        it
    }

    /// Yields the next boundary point, stepping the canonical walk and
    /// advancing to the next rotating quadrant when the current arc has
    /// swept down to the axis.
    pub fn next(&mut self) -> (ret: Option<Point>)
        requires
            old(self).wf(),
        ensures
            final(self).wf(),
            old(self).remaining().len() == 0 ==> ret is None && *final(self) == *old(self),
            old(self).remaining().len() > 0 ==> {
                &&& ret matches Some(p) && pt(p) == old(self).remaining()[0]
                &&& final(self).remaining() == old(self).remaining().drop_first()
            },
    {
        if self.point.1 == 0 {
            if self.quadrant.0 == 3 {
                proof {
                    assert(old(self).remaining() =~= Seq::<(int, int)>::empty());
                }
                return None;
            }
            self.quadrant = Quadrant(self.quadrant.0 + 1);
            self.point = (0, self.r);
            self.err = 2 - 2 * (self.r as i32);
            proof {
                lemma_sq_succ(0);
                lemma_sq_succ(self.r as int - 1);
                assert(self.err as int == sq(1) + sq(self.r as int - 1) - sq(self.r as int))
                    by (nonlinear_arith)
                    requires
                        self.err as int == 2 - 2 * (self.r as int),
                {}
                assert(old(self).remaining() =~= self.remaining());
            }
        }
        let ghost mid = *self;
        let ghost arc = qc_arc(
            self.r as int,
            self.point.0 as int,
            self.point.1 as int,
            self.err as int,
        );
        proof {
            lemma_qc_step(self.r as int, self.point.0 as int, self.point.1 as int, self.err as int);
            lemma_err_in_range(
                self.point.0 as int,
                self.point.1 as int,
                self.r as int,
                self.err as int,
            );
        }
        let e: i32 = self.err;
        if e <= self.point.0 as i32 {
            let nx = self.point.0 + 1;
            self.err = self.err + (2 * (nx as i32) + 1);
            self.point = (nx, self.point.1);
        }
        if e > -(self.point.1 as i32) {
            let ny = self.point.1 - 1;
            self.err = self.err + 1 - 2 * (ny as i32);
            self.point = (self.point.0, ny);
        }
        proof {
            assert((
                (self.point.0 as int, self.point.1 as int),
                self.err as int,
            ) == qc_next(mid.point.0 as int, mid.point.1 as int, mid.err as int));
            assert(arc == seq![(self.point.0 as int, self.point.1 as int)] + qc_arc(
                self.r as int,
                self.point.0 as int,
                self.point.1 as int,
                self.err as int,
            ));
            assert(mid.remaining()[0] == quadrant_from0_rotating_at(
                pt(self.center),
                self.quadrant.0 as int,
                (self.point.0 as int, self.point.1 as int),
            ));
            assert(self.remaining() =~= mid.remaining().drop_first());
        }
        let p = self.quadrant.from_quadrant0_rotating(self.center, self.point);
        Some(p)
    }
}

/// The boundary of the circle of radius `r` around `center`, drawn with the
/// two-axis walk and full four-quadrant symmetry: exactly [`circle_seq`].
pub fn circle(center: Point, r: i16) -> (out: Vec<Point>)
    requires
        0 <= r,
        fits_i16((pt(center).0 - r as int, pt(center).1 - r as int)),
        fits_i16((pt(center).0 + r as int, pt(center).1 + r as int)),
    ensures
        pts(out@) == circle_seq(pt(center), r as int),
        forall|i: int, j: int| 0 <= i < j < out@.len() ==> out@[i] != out@[j],
{
    proof {
        lemma_circle_distinct(pt(center), r as int);
    }
    let mut it = BresenhamCircle::new(center, r);
    let mut out: Vec<Point> = Vec::new();
    proof {
        assert(pts(out@) + it.remaining() =~= circle_seq(pt(center), r as int));
    }
    loop
        invariant
            it.wf(),
            pts(out@) + it.remaining() == circle_seq(pt(center), r as int),
        ensures
            pts(out@) == circle_seq(pt(center), r as int),
        decreases it.remaining().len(),
    {
        match it.next() {
            None => {
                proof {
                    assert(pts(out@) =~= pts(out@) + Seq::<(int, int)>::empty());
                }
                break ;
            },
            Some(p) => {
                out.push(p);
                proof {
                    assert(pts(out@) + it.remaining() =~= circle_seq(pt(center), r as int));
                }
            },
        }
    }
    proof {
        assert forall|i: int, j: int| 0 <= i < j < out@.len() implies out@[i] != out@[j] by {
            assert(pts(out@)[i] == pt(out@[i]));
            assert(pts(out@)[j] == pt(out@[j]));
        }
    }
    out
}

/// Circle-drawing iterator that steps along one axis at a time and yields
/// every boundary point exactly once.
pub struct BresenhamCircleNoDiag {
    octant: Octant,
    point: Point,
    center: Point,
    r: i16,
    err: i32,
}

impl BresenhamCircleNoDiag {
    /// Well-formedness of the iterator state.
    pub closed spec fn wf(self) -> bool {
        &&& self.octant.0 <= 8
        &&& 0 <= self.point.0 <= self.point.1 <= self.r
        &&& self.err as int == sq(self.point.0 as int + 1) + sq(self.point.1 as int - 1) - sq(
            self.r as int,
        )
        &&& fits_i16((pt(self.center).0 - self.r as int, pt(self.center).1 - self.r as int))
        &&& fits_i16((pt(self.center).0 + self.r as int, pt(self.center).1 + self.r as int))
        &&& self.octant.0 < 8 && self.octant.0 % 2 == 0 ==> self.point.0 < self.point.1
        &&& self.octant.0 < 8 ==> 1 <= self.r
    }

    /// The boundary points the iterator has yet to yield, in order.
    pub closed spec fn remaining(self) -> Seq<(int, int)> {
        if self.octant.0 >= 8 {
            Seq::empty()
        } else {
            let suffix = nd_arc(self.point.0 as int, self.point.1 as int, self.err as int);
            let part = if self.octant.0 % 2 == 0 {
                suffix.drop_last()
            } else {
                suffix
            };
            part.map_values(
                |d: (int, int)| octant_from0_at(pt(self.center), self.octant.0 as int, d),
            ) + nd_octants_from(pt(self.center), self.r as int, self.octant.0 as int + 1)
        }
    }

    /// Creates an iterator over the boundary of the circle of radius `r`
    /// around `center`, emitting each boundary point exactly once.
    pub fn new(center: Point, r: i16) -> (it: BresenhamCircleNoDiag)
        requires
            0 <= r,
            fits_i16((pt(center).0 - r as int, pt(center).1 - r as int)),
            fits_i16((pt(center).0 + r as int, pt(center).1 + r as int)),
        ensures
            it.wf(),
            it.remaining() == circle_nd_seq(pt(center), r as int),
    {
        let it = BresenhamCircleNoDiag {
            octant: Octant(if r == 0 {
                8
            } else {
                0
            }),
            point: (0, r),
            center,
            r,
            err: 2 - 2 * (r as i32),
        };
        proof {
            lemma_sq_succ(0);
            lemma_sq_succ(r as int - 1);
            assert(it.err as int == sq(1) + sq(r as int - 1) - sq(r as int)) by (nonlinear_arith)
                requires
                    it.err as int == 2 - 2 * (r as int),
            {}
            if r > 0 {
                assert(it.remaining() =~= circle_nd_seq(pt(center), r as int));
            }
        }
        it
    }

    /// One canonical step of the single-axis walk.
    fn step(&mut self)
        requires
            old(self).wf(),
            old(self).point.0 < old(self).point.1,
        ensures
            final(self).octant == old(self).octant,
            final(self).center == old(self).center,
            final(self).r == old(self).r,
            0 <= final(self).point.0 <= final(self).point.1 <= final(self).r,
            ((final(self).point.0 as int, final(self).point.1 as int), final(self).err as int)
                == nd_next(old(self).point.0 as int, old(self).point.1 as int, old(self).err as int),
            final(self).err as int == sq(final(self).point.0 as int + 1) + sq(
                final(self).point.1 as int - 1,
            ) - sq(final(self).r as int),
    {
        proof {
            lemma_err_in_range(
                self.point.0 as int,
                self.point.1 as int,
                self.r as int,
                self.err as int,
            );
            lemma_sq_succ(self.point.0 as int + 1);
            lemma_sq_succ(self.point.1 as int - 2);
        }
        if self.err > 0 {
            let ny = self.point.1 - 1;
            self.err = self.err + 1 - 2 * (ny as i32);
            self.point = (self.point.0, ny);
        } else {
            let nx = self.point.0 + 1;
            self.err = self.err + (2 * (nx as i32) + 1);
            self.point = (nx, self.point.1);
        }
    }

    /// Yields the next boundary point.  Even octants hand over to the next
    /// octant when the walk reaches the diagonal, which the next, odd,
    /// octant will emit instead; odd octants hand over after emitting the
    /// diagonal, skipping the next octant's axis point.
    pub fn next(&mut self) -> (ret: Option<Point>)
        requires
            old(self).wf(),
        ensures
            final(self).wf(),
            old(self).remaining().len() == 0 ==> ret is None && *final(self) == *old(self),
            old(self).remaining().len() > 0 ==> {
                &&& ret matches Some(p) && pt(p) == old(self).remaining()[0]
                &&& final(self).remaining() == old(self).remaining().drop_first()
            },
    {
        if self.octant.0 >= 8 {
            return None;
        }
        let p = self.octant.from_octant0(self.center, self.point);
        let ghost pre = *self;
        let ghost c = pt(self.center);
        let ghost rr = self.r as int;
        let ghost o = self.octant.0 as int;
        let ghost cur = (self.point.0 as int, self.point.1 as int);
        let ghost arc = nd_arc(cur.0, cur.1, self.err as int);
        if self.octant.0 % 2 == 0 {
            self.step();
            let ghost stepped = (self.point.0 as int, self.point.1 as int);
            let ghost steppedarc = nd_arc(stepped.0, stepped.1, self.err as int);
            proof {
                assert(arc == seq![cur] + steppedarc);
                assert(steppedarc.len() >= 1);
                assert(pt(p) == pre.remaining()[0]);
            }
            if self.point.0 == self.point.1 {
                // The stepped point is the diagonal seam: the next, odd,
                // octant emits it instead, and skips its axis seam.
                proof {
                    assert(steppedarc == seq![stepped]);
                    assert(arc.drop_last() =~= seq![cur]);
                }
                self.octant = Octant(self.octant.0 + 1);
                self.point = (0, self.r);
                self.err = 2 - 2 * (self.r as i32);
                proof {
                    lemma_sq_succ(0);
                    lemma_sq_succ(rr - 1);
                    assert(self.err as int == sq(1) + sq(rr - 1) - sq(rr)) by (nonlinear_arith)
                        requires
                            self.err as int == 2 - 2 * rr,
                    {}
                }
                self.step();
                proof {
                    let skipstate = (self.point.0 as int, self.point.1 as int);
                    assert(nd_arc_full(rr) == seq![(0, rr)] + nd_arc(
                        skipstate.0,
                        skipstate.1,
                        self.err as int,
                    ));
                    assert(nd_arc_full(rr).drop_first() =~= nd_arc(
                        skipstate.0,
                        skipstate.1,
                        self.err as int,
                    ));
                    assert(nd_octants_from(c, rr, o + 1) == nd_octant_points(c, rr, o + 1)
                        + nd_octants_from(c, rr, o + 2));
                    assert(self.remaining() =~= pre.remaining().drop_first());
                }
            } else {
                proof {
                    assert(arc.drop_last() =~= seq![cur] + steppedarc.drop_last());
                    assert(self.remaining() =~= pre.remaining().drop_first());
                }
            }
        } else {
            if self.point.0 == self.point.1 {
                // The diagonal seam has just been emitted: hand over to the
                // next, even, octant, whose axis seam is fresh.
                proof {
                    assert(arc == seq![cur]);
                    assert(pt(p) == pre.remaining()[0]);
                }
                self.octant = Octant(self.octant.0 + 1);
                self.point = (0, self.r);
                self.err = 2 - 2 * (self.r as i32);
                proof {
                    lemma_sq_succ(0);
                    lemma_sq_succ(rr - 1);
                    assert(self.err as int == sq(1) + sq(rr - 1) - sq(rr)) by (nonlinear_arith)
                        requires
                            self.err as int == 2 - 2 * rr,
                    {}
                    if o + 1 < 8 {
                        assert(nd_octants_from(c, rr, o + 1) == nd_octant_points(c, rr, o + 1)
                            + nd_octants_from(c, rr, o + 2));
                        assert(self.remaining() =~= pre.remaining().drop_first());
                    } else {
                        assert(nd_octants_from(c, rr, 8) == Seq::<(int, int)>::empty());
                        assert(self.remaining() =~= pre.remaining().drop_first());
                    }
                }
            } else {
                self.step();
                proof {
                    let stepped = (self.point.0 as int, self.point.1 as int);
                    assert(arc == seq![cur] + nd_arc(stepped.0, stepped.1, self.err as int));
                    assert(pt(p) == pre.remaining()[0]);
                    assert(self.remaining() =~= pre.remaining().drop_first());
                }
            }
        }
        Some(p)
    }
}

/// The boundary of the circle of radius `r` around `center`, each boundary
/// point exactly once: exactly [`circle_nd_seq`].
pub fn circle_no_diagonals(center: Point, r: i16) -> (out: Vec<Point>)
    requires
        0 <= r,
        fits_i16((pt(center).0 - r as int, pt(center).1 - r as int)),
        fits_i16((pt(center).0 + r as int, pt(center).1 + r as int)),
    ensures
        pts(out@) == circle_nd_seq(pt(center), r as int),
        forall|i: int, j: int| 0 <= i < j < out@.len() ==> out@[i] != out@[j],
{
    proof {
        lemma_circle_nd_distinct(pt(center), r as int);
    }
    let mut it = BresenhamCircleNoDiag::new(center, r);
    let mut out: Vec<Point> = Vec::new();
    proof {
        assert(pts(out@) + it.remaining() =~= circle_nd_seq(pt(center), r as int));
    }
    loop
        invariant
            it.wf(),
            pts(out@) + it.remaining() == circle_nd_seq(pt(center), r as int),
        ensures
            pts(out@) == circle_nd_seq(pt(center), r as int),
        decreases it.remaining().len(),
    {
        match it.next() {
            None => {
                proof {
                    assert(pts(out@) =~= pts(out@) + Seq::<(int, int)>::empty());
                }
                break ;
            },
            Some(p) => {
                out.push(p);
                proof {
                    assert(pts(out@) + it.remaining() =~= circle_nd_seq(pt(center), r as int));
                }
            },
        }
    }
    proof {
        assert forall|i: int, j: int| 0 <= i < j < out@.len() implies out@[i] != out@[j] by {
            assert(pts(out@)[i] == pt(out@[i]));
            assert(pts(out@)[j] == pt(out@[j]));
        }
    }
    out
}

} // verus!
