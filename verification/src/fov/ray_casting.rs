//! Brute-force field of view: cast a rasterized line from the observer to
//! every point on the rasterized boundary circle of the given range, and
//! stop each line at the first opaque cell (which is itself still reported:
//! the wall that blocks the view can be seen).

use vstd::prelude::*;

verus! {

use crate::fov::Map2D;
use crate::geometry::circle::{circle_nd_seq, circle_no_diagonals, nd_arc, nd_next};
use crate::geometry::line::{line, line_seq};
use crate::{pt, pts, Point};

/// The visible prefix of one rasterized line: every point up to the first
/// opaque one, inclusive; an out-of-bounds point ends the line unreported.
pub open spec fn scan_points<M: Map2D + ?Sized>(map: &M, walk: Seq<(int, int)>) -> Seq<(int, int)>
    decreases walk.len(),
{
    if walk.len() == 0 {
        Seq::empty()
    } else {
        let p = walk[0];
        if !map.spec_is_in_bound(p) {
            Seq::empty()
        } else if map.spec_is_opaque(p) {
            seq![p]
        } else {
            seq![p] + scan_points(map, walk.drop_first())
        }
    }
}

/// The points reported by scanning one line towards each perimeter point in
/// turn.
pub open spec fn scan_from<M: Map2D + ?Sized>(
    map: &M,
    start: (int, int),
    perimeter: Seq<(int, int)>,
) -> Seq<(int, int)>
    decreases perimeter.len(),
{
    if perimeter.len() == 0 {
        Seq::empty()
    } else {
        scan_points(map, line_seq(start, perimeter[0])) + scan_from(
            map,
            start,
            perimeter.drop_first(),
        )
    }
}

/// Everything ray casting reports: the observer's own point first, then the
/// scan of every perimeter line in order.
pub open spec fn ray_fov_seq<M: Map2D + ?Sized>(map: &M, start: (int, int), range: int) -> Seq<
    (int, int),
> {
    seq![start] + scan_from(map, start, circle_nd_seq(start, range))
}

/// Every point of a line scan is in bounds.
proof fn lemma_scan_points_in_bound<M: Map2D + ?Sized>(map: &M, walk: Seq<(int, int)>)
    ensures
        forall|i: int|
            0 <= i < scan_points(map, walk).len() ==> map.spec_is_in_bound(
                #[trigger] scan_points(map, walk)[i],
            ),
    decreases walk.len(),
{
    if walk.len() > 0 && map.spec_is_in_bound(walk[0]) && !map.spec_is_opaque(walk[0]) {
        lemma_scan_points_in_bound(map, walk.drop_first());
        assert forall|i: int| 0 <= i < scan_points(map, walk).len() implies map.spec_is_in_bound(
            #[trigger] scan_points(map, walk)[i],
        ) by {
            if i > 0 {
                assert(scan_points(map, walk)[i] == scan_points(map, walk.drop_first())[i - 1]);
            }
        }
    }
}

/// Every point reported by the perimeter scan is in bounds.
proof fn lemma_scan_from_in_bound<M: Map2D + ?Sized>(
    map: &M,
    start: (int, int),
    perimeter: Seq<(int, int)>,
)
    ensures
        forall|i: int|
            0 <= i < scan_from(map, start, perimeter).len() ==> map.spec_is_in_bound(
                #[trigger] scan_from(map, start, perimeter)[i],
            ),
    decreases perimeter.len(),
{
    if perimeter.len() > 0 {
        lemma_scan_points_in_bound(map, line_seq(start, perimeter[0]));
        lemma_scan_from_in_bound(map, start, perimeter.drop_first());
        let head = scan_points(map, line_seq(start, perimeter[0]));
        assert forall|i: int|
            0 <= i < scan_from(map, start, perimeter).len() implies map.spec_is_in_bound(
            #[trigger] scan_from(map, start, perimeter)[i],
        ) by {
            if i >= head.len() {
                assert(scan_from(map, start, perimeter)[i] == scan_from(
                    map,
                    start,
                    perimeter.drop_first(),
                )[i - head.len()]);
            }
        }
    }
}

/// Every canonical point of the single-axis circle walk stays in the box
/// `0 <= x <= y <= r`.
proof fn lemma_nd_arc_in_box(x: int, y: int, err: int, r: int)
    requires
        0 <= x <= y <= r,
    ensures
        forall|i: int|
            0 <= i < nd_arc(x, y, err).len() ==> {
                let p = #[trigger] nd_arc(x, y, err)[i];
                0 <= p.0 <= p.1 <= r
            },
    decreases y - x,
{
    if x != y {
        let s = nd_next(x, y, err);
        lemma_nd_arc_in_box(s.0.0, s.0.1, s.1, r);
        assert forall|i: int| 0 <= i < nd_arc(x, y, err).len() implies {
            let p = #[trigger] nd_arc(x, y, err)[i];
            0 <= p.0 <= p.1 <= r
        } by {
            if i > 0 {
                assert(nd_arc(x, y, err)[i] == nd_arc(s.0.0, s.0.1, s.1)[i - 1]);
            }
        }
    }
}

/// Every point of the deduplicated circle boundary lies within the square
/// box of side `2r` around the centre.
pub proof fn lemma_circle_nd_in_box(c: (int, int), r: int)
    ensures
        forall|i: int|
            0 <= i < circle_nd_seq(c, r).len() ==> {
                let p = #[trigger] circle_nd_seq(c, r)[i];
                c.0 - r <= p.0 <= c.0 + r && c.1 - r <= p.1 <= c.1 + r
            },
{
    if r > 0 {
        lemma_nd_arc_in_box(0, r, 2 - 2 * r, r);
        lemma_nd_octants_in_box(c, r, 0);
    }
}

/// The box bound for the tail of octants from `o` on.
proof fn lemma_nd_octants_in_box(c: (int, int), r: int, o: int)
    requires
        0 <= o <= 8,
        0 < r,
    ensures
        forall|i: int|
            0 <= i < crate::geometry::circle::nd_octants_from(c, r, o).len() ==> {
                let p = #[trigger] crate::geometry::circle::nd_octants_from(c, r, o)[i];
                c.0 - r <= p.0 <= c.0 + r && c.1 - r <= p.1 <= c.1 + r
            },
    decreases 8 - o,
{
    if o < 8 {
        lemma_nd_arc_in_box(0, r, 2 - 2 * r, r);
        lemma_nd_octants_in_box(c, r, o + 1);
        let whole = crate::geometry::circle::nd_octants_from(c, r, o);
        let head = crate::geometry::circle::nd_octant_points(c, r, o);
        let arc = crate::geometry::circle::nd_arc_full(r);
        assert forall|i: int| 0 <= i < whole.len() implies {
            let p = #[trigger] whole[i];
            c.0 - r <= p.0 <= c.0 + r && c.1 - r <= p.1 <= c.1 + r
        } by {
            if i < head.len() {
                let part = if o % 2 == 0 {
                    arc.drop_last()
                } else {
                    arc.drop_first()
                };
                assert(whole[i] == head[i]);
                assert(head[i] == crate::geometry::octant::octant_from0_at(c, o, part[i]));
                assert(0 <= part[i].0 <= part[i].1 <= r);
            } else {
                assert(whole[i] == crate::geometry::circle::nd_octants_from(c, r, o + 1)[i
                    - head.len()]);
            }
        }
    }
}

/// The points of one line of sight from `start` towards `end`: the
/// rasterized line up to and including its first opaque point, cut short
/// without reporting at the first out-of-bounds point.
fn scan_fov_line<MAP: Map2D + ?Sized>(map: &MAP, start: Point, end: Point) -> (out: Vec<Point>)
    requires
        -0x7fff <= pt(end).0 - pt(start).0 <= 0x7fff,
        -0x7fff <= pt(end).1 - pt(start).1 <= 0x7fff,
    ensures
        pts(out@) == scan_points(map, line_seq(pt(start), pt(end))),
{
    let walk = line(start, end);
    let ghost whole = line_seq(pt(start), pt(end));
    let mut out: Vec<Point> = Vec::new();
    let mut i: usize = 0;
    proof {
        assert(whole.skip(0) =~= whole);
        assert(pts(out@) + scan_points(map, whole.skip(0)) =~= scan_points(map, whole));
    }
    loop
        invariant_except_break
            pts(out@) + scan_points(map, whole.skip(i as int)) == scan_points(map, whole),
        invariant
            i <= walk@.len(),
            pts(walk@) == whole,
        ensures
            pts(out@) == scan_points(map, whole),
        decreases walk@.len() - i,
    {
        if i == walk.len() {
            proof {
                assert(whole.skip(i as int) =~= Seq::<(int, int)>::empty());
                assert(pts(out@) =~= pts(out@) + scan_points(map, whole.skip(i as int)));
            }
            break ;
        }
        let p = walk[i];
        let ghost rest = whole.skip(i as int);
        proof {
            assert(rest[0] == whole[i as int]);
            assert(rest.drop_first() =~= whole.skip(i as int + 1));
        }
        if !map.is_in_bound(p) {
            proof {
                assert(pts(out@) =~= pts(out@) + scan_points(map, rest));
            }
            break ;
        }
        out.push(p);
        if map.is_opaque(p) {
            proof {
                assert(pts(out@) =~= scan_points(map, whole));
            }
            break ;
        }
        proof {
            assert(pts(out@) + scan_points(map, whole.skip(i as int + 1)) =~= scan_points(
                map,
                whole,
            ));
        }
        i = i + 1;
    }
    out
}

/// Computes the field of view by brute-force ray casting: reports `start`
/// first, then walks a line of sight towards every point of the range
/// circle's boundary.  A point crossed by several lines is reported once
/// per line, so callers that need a set must deduplicate.  The reported
/// sequence is exactly [`ray_fov_seq`]; every reported point except the
/// observer's own is in bounds.
pub fn ray_casting_fov<MAP: Map2D + ?Sized>(map: &MAP, start: Point, range: i16) -> (out: Vec<
    Point,
>)
    requires
        0 <= range,
        crate::fits_i16((pt(start).0 - range as int, pt(start).1 - range as int)),
        crate::fits_i16((pt(start).0 + range as int, pt(start).1 + range as int)),
    ensures
        pts(out@) == ray_fov_seq(map, pt(start), range as int),
        out@.len() >= 1 && out@[0] == start,
        forall|i: int| 1 <= i < out@.len() ==> map.spec_is_in_bound(pt(#[trigger] out@[i])),
{
    let ghost s = pt(start);
    let ghost perim = circle_nd_seq(s, range as int);
    let mut out: Vec<Point> = Vec::new();
    out.push(start);
    let boundary = circle_no_diagonals(start, range);
    proof {
        lemma_circle_nd_in_box(s, range as int);
        assert(pts(out@) =~= seq![s]);
        assert(perim.skip(0) =~= perim);
        assert(pts(out@) + scan_from(map, s, perim.skip(0)) =~= ray_fov_seq(
            map,
            s,
            range as int,
        ));
    }
    let mut j: usize = 0;
    loop
        invariant
            out@.len() >= 1 && out@[0] == start,
            j <= boundary@.len(),
            pts(boundary@) == perim,
            perim == circle_nd_seq(s, range as int),
            s == pt(start),
            0 <= range,
            crate::fits_i16((s.0 - range as int, s.1 - range as int)),
            crate::fits_i16((s.0 + range as int, s.1 + range as int)),
            pts(out@) + scan_from(map, s, perim.skip(j as int)) == ray_fov_seq(
                map,
                s,
                range as int,
            ),
        ensures
            pts(out@) == ray_fov_seq(map, s, range as int),
        decreases boundary@.len() - j,
    {
        if j == boundary.len() {
            proof {
                assert(perim.skip(j as int) =~= Seq::<(int, int)>::empty());
                assert(pts(out@) =~= pts(out@) + scan_from(map, s, perim.skip(j as int)));
            }
            break ;
        }
        let end = boundary[j];
        proof {
            lemma_circle_nd_in_box(s, range as int);
            assert(pt(end) == perim[j as int]);
            assert(perim.skip(j as int)[0] == perim[j as int]);
            assert(perim.skip(j as int).drop_first() =~= perim.skip(j as int + 1));
        }
        let mut seen = scan_fov_line(map, start, end);
        out.append(&mut seen);
        proof {
            assert(pts(out@) + scan_from(map, s, perim.skip(j as int + 1)) =~= ray_fov_seq(
                map,
                s,
                range as int,
            ));
        }
        j = j + 1;
    }
    proof {
        lemma_scan_from_in_bound(map, s, perim);
        assert forall|i: int| 1 <= i < out@.len() implies map.spec_is_in_bound(
            pt(#[trigger] out@[i]),
        ) by {
            assert(pt(out@[i]) == pts(out@)[i]);
            assert(pts(out@)[i] == scan_from(map, s, perim)[i - 1]);
        }
    }
    out
}

/// Ray casting is deterministic: two runs against the same map, observer
/// and range report the same sequence of points.
pub proof fn lemma_ray_fov_deterministic<MAP: Map2D + ?Sized>(
    map: &MAP,
    start: (int, int),
    range: int,
    a: Seq<(int, int)>,
    b: Seq<(int, int)>,
)
    requires
        a == ray_fov_seq(map, start, range),
        b == ray_fov_seq(map, start, range),
    ensures
        a == b,
{
}

} // verus!
