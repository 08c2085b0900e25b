//! Recursive shadow casting: the octant-symmetric field-of-view algorithm.
//!
//! Each of the eight octants is swept outward column by column.  The sweep
//! carries a visible angular wedge between two rational slopes, `top` and
//! `bottom`, compared only by cross-multiplication.  When a wall interrupts
//! the wedge partway through a column, the sweep forks: a child sweep covers
//! the columns behind the cells below the wall with a narrowed top slope,
//! while the parent walks on above it.  The wedge's reach is clipped to the
//! discrete circle of the requested range with an integer square root, so
//! visibility never exceeds the range even diagonally.

use vstd::prelude::*;

verus! {

use crate::fov::Map2D;
use crate::geometry::circle::sq;
use crate::geometry::octant::{octant_from0_at, Octant};
use crate::{pt, pts, Point};
use vstd::arithmetic::div_mod::{lemma_fundamental_div_mod, lemma_remainder};

/// Represents the slope `y/x` as a rational number.
#[derive(Debug, Clone, Copy, PartialEq, Eq, Structural)]
pub struct Slope {
    pub x: i16,
    pub y: i16,
}

/// The mathematical value of a slope, as a pair `(x, y)`.
pub open spec fn sv(s: Slope) -> (int, int) {
    (s.x as int, s.y as int)
}

/// A slope between zero and one with a positive denominator, the only kind
/// the sweep ever builds.
pub open spec fn slope_valid(s: (int, int)) -> bool {
    1 <= s.0 && 0 <= s.1 <= s.0
}

/// The integer square root: the largest `r` with `r * r <= n`, and zero for
/// negative `n`.
pub open spec fn isqrt(n: int) -> int
    decreases n,
        when 0 <= n
{
    if n < 1 {
        0
    } else {
        let r = isqrt(n - 1);
        if sq(r + 1) <= n {
            r + 1
        } else {
            r
        }
    }
}

/// The characterization of the integer square root.
pub proof fn lemma_isqrt_bounds(n: int)
    requires
        0 <= n,
    ensures
        0 <= isqrt(n),
        sq(isqrt(n)) <= n < sq(isqrt(n) + 1),
    decreases n,
{
    if n < 1 {
        assert(sq(0) == 0 && sq(1) == 1) by (nonlinear_arith);
    } else {
        lemma_isqrt_bounds(n - 1);
        let r0 = isqrt(n - 1);
        if sq(r0 + 1) <= n {
            assert(sq(r0 + 1) < sq(r0 + 2)) by (nonlinear_arith)
                requires
                    0 <= r0,
            {}
        }
    }
}

/// The integer square root is monotone, so a root below a square is below
/// the square's base.
proof fn lemma_isqrt_le(n: int, b: int)
    requires
        0 <= n <= sq(b),
        0 <= b,
    ensures
        isqrt(n) <= b,
{
    lemma_isqrt_bounds(n);
    if isqrt(n) > b {
        assert(sq(b + 1) <= sq(isqrt(n))) by (nonlinear_arith)
            requires
                0 <= b + 1 <= isqrt(n),
        {}
        assert(sq(b) < sq(b + 1)) by (nonlinear_arith)
            requires
                0 <= b,
        {}
    }
}

/// A division with a non-negative dividend strictly below `d * (hi + 1)`
/// lands in `[0, hi]`.
proof fn lemma_div_box(a: int, d: int, hi: int)
    requires
        0 <= a,
        0 < d,
        a < d * (hi + 1),
    ensures
        0 <= a / d <= hi,
{
    lemma_fundamental_div_mod(a, d);
    lemma_remainder(a, d);
    assert(0 <= a / d && a / d <= hi) by (nonlinear_arith)
        requires
            a == d * (a / d) + (a % d),
            0 <= a - (a / d) * d < d,
            0 <= a,
            0 < d,
            a < d * (hi + 1),
    {}
}

/// The top row of the visible wedge at column `x`: the top slope evaluated
/// at the column's far edge, clipped to the discrete circle of the range.
/// The value never exceeds `x` for a valid slope.
pub open spec fn wedge_top_y(top: (int, int), x: int, range: int) -> int {
    let by_slope = if top.0 == 1 {
        x
    } else {
        ((x * 2 + 1) * top.1 + top.0 - 1) / (top.0 * 2)
    };
    let clip = isqrt(sq(range) - sq(x));
    let lo = if by_slope <= clip {
        by_slope
    } else {
        clip
    };
    if lo <= x {
        lo
    } else {
        x
    }
}

/// The bottom row of the visible wedge at column `x`: the bottom slope
/// evaluated at the column's near edge.  The value stays in `[0, x]` for a
/// valid slope.
pub open spec fn wedge_bottom_y(bottom: (int, int), x: int) -> int {
    let by_slope = if bottom.1 == 0 {
        0
    } else {
        ((x * 2 - 1) * bottom.1 + bottom.0) / (bottom.0 * 2)
    };
    if by_slope < 0 {
        0
    } else if by_slope <= x {
        by_slope
    } else {
        x
    }
}

/// For a valid top slope the raw slope evaluation already lies in `[0, x]`,
/// so the clamp in [`wedge_top_y`] never changes it.
proof fn lemma_top_slope_in_box(top: (int, int), x: int)
    requires
        slope_valid(top),
        1 <= x,
        top.0 != 1,
    ensures
        0 <= ((x * 2 + 1) * top.1 + top.0 - 1) / (top.0 * 2) <= x,
{
    let a = (x * 2 + 1) * top.1 + top.0 - 1;
    assert(0 <= a && a < (top.0 * 2) * (x + 1)) by (nonlinear_arith)
        requires
            1 <= top.0,
            0 <= top.1 <= top.0,
            1 <= x,
            a == (x * 2 + 1) * top.1 + top.0 - 1,
    {}
    lemma_div_box(a, top.0 * 2, x);
}

/// For a valid bottom slope the raw slope evaluation already lies in
/// `[0, x]`, so the clamps in [`wedge_bottom_y`] never change it.
proof fn lemma_bottom_slope_in_box(bottom: (int, int), x: int)
    requires
        slope_valid(bottom),
        1 <= x,
    ensures
        0 <= ((x * 2 - 1) * bottom.1 + bottom.0) / (bottom.0 * 2) <= x,
{
    let a = (x * 2 - 1) * bottom.1 + bottom.0;
    assert(0 <= a && a < (bottom.0 * 2) * (x + 1)) by (nonlinear_arith)
        requires
            1 <= bottom.0,
            0 <= bottom.1 <= bottom.0,
            1 <= x,
            a == (x * 2 - 1) * bottom.1 + bottom.0,
    {}
    lemma_div_box(a, bottom.0 * 2, x);
}

/// The row walk of one column of an octant sweep.  Returns the reported
/// points (the walked rows, with the output of any forked child sweep
/// inserted where the fork happened), whether the sweep continues to the
/// next column, and the top and bottom slopes it continues with.
pub open spec fn shadow_rows<M: Map2D + ?Sized>(
    map: &M,
    start: (int, int),
    o: int,
    range: int,
    x: int,
    y: int,
    ty: int,
    top: (int, int),
    bottom: (int, int),
    was: Option<bool>,
) -> (Seq<(int, int)>, bool, (int, int), (int, int))
    decreases range + 1 - x, x + 2 - y,
        when 1 <= x <= range && 0 <= y && ty <= x && 0 <= range
{
    if y > ty {
        (Seq::empty(), was == Some(false), top, bottom)
    } else {
        let p = octant_from0_at(start, o, (x, y));
        let inb = map.spec_is_in_bound(p);
        let emit = if inb {
            seq![p]
        } else {
            Seq::<(int, int)>::empty()
        };
        let opq = !inb || map.spec_is_opaque(p);
        if x == range {
            let rest = shadow_rows(map, start, o, range, x, y + 1, ty, top, bottom, was);
            (emit + rest.0, rest.1, rest.2, rest.3)
        } else if opq {
            if was == Some(false) {
                let new_top = (x * 2 + 1, y * 2 - 1);
                if !inb || y == ty {
                    (emit, true, new_top, bottom)
                } else {
                    let child = shadow_cols(map, start, o, range, x + 1, new_top, bottom);
                    let rest = shadow_rows(
                        map,
                        start,
                        o,
                        range,
                        x,
                        y + 1,
                        ty,
                        top,
                        bottom,
                        Some(true),
                    );
                    (emit + child + rest.0, rest.1, rest.2, rest.3)
                }
            } else {
                let rest = shadow_rows(map, start, o, range, x, y + 1, ty, top, bottom, Some(true));
                (emit + rest.0, rest.1, rest.2, rest.3)
            }
        } else {
            let nb = if was == Some(true) {
                (x * 2 - 1, y * 2 - 1)
            } else {
                bottom
            };
            let rest = shadow_rows(map, start, o, range, x, y + 1, ty, top, nb, Some(false));
            (emit + rest.0, rest.1, rest.2, rest.3)
        }
    }
}

/// The column scan of one octant sweep from column `x` outward: walk each
/// column's wedge rows, carry the narrowed slopes along, and stop once a
/// column ends in shadow or the range is exhausted.
pub open spec fn shadow_cols<M: Map2D + ?Sized>(
    map: &M,
    start: (int, int),
    o: int,
    range: int,
    x: int,
    top: (int, int),
    bottom: (int, int),
) -> Seq<(int, int)>
    decreases range + 1 - x, x + 3,
        when 1 <= x <= range + 1 && 0 <= range
{
    if x > range {
        Seq::empty()
    } else {
        let ty = wedge_top_y(top, x, range);
        let by = wedge_bottom_y(bottom, x);
        let walk = shadow_rows(map, start, o, range, x, by, ty, top, bottom, None);
        if walk.1 {
            walk.0 + shadow_cols(map, start, o, range, x + 1, walk.2, walk.3)
        } else {
            walk.0
        }
    }
}

/// The sweeps of octants `o` to `7`, each with the full initial wedge.
pub open spec fn shadow_octants_from<M: Map2D + ?Sized>(
    map: &M,
    start: (int, int),
    range: int,
    o: int,
) -> Seq<(int, int)>
    decreases 8 - o,
        when o <= 8
{
    if o >= 8 {
        Seq::empty()
    } else {
        shadow_cols(map, start, o, range, 1, (1, 1), (1, 0)) + shadow_octants_from(
            map,
            start,
            range,
            o + 1,
        )
    }
}

/// Everything shadow casting reports: the observer's own point first, then
/// the eight octant sweeps in octant order.
pub open spec fn shadow_fov_seq<M: Map2D + ?Sized>(map: &M, start: (int, int), range: int) -> Seq<
    (int, int),
> {
    seq![start] + shadow_octants_from(map, start, range, 0)
}

/// The integer square root, computed by counting up.
fn isqrt_i32(n: i32) -> (r: i32)
    requires
        0 <= n <= 0x0fff_ffff,
    ensures
        r as int == isqrt(n as int),
{
    proof {
        lemma_isqrt_bounds(n as int);
        assert(sq(0x4000) == 0x1000_0000) by (nonlinear_arith);
        lemma_isqrt_le(n as int, 0x4000);
    }
    let mut r: i32 = 0;
    loop
        invariant
            0 <= r,
            0 <= n <= 0x0fff_ffff,
            sq(r as int) <= n as int,
            r as int <= isqrt(n as int),
            isqrt(n as int) <= 0x4000,
        ensures
            r as int == isqrt(n as int),
        decreases isqrt(n as int) - r as int,
    {
        proof {
            lemma_isqrt_bounds(n as int);
            assert((r as int + 1) * (r as int + 1) < 0x7fff_ffff) by (nonlinear_arith)
                requires
                    0 <= r as int <= 0x4000,
            {}
        }
        if (r + 1) * (r + 1) <= n {
            r = r + 1;
            proof {
                if r as int > isqrt(n as int) {
                    assert(sq(isqrt(n as int) + 1) <= sq(r as int)) by (nonlinear_arith)
                        requires
                            0 <= isqrt(n as int) + 1 <= r as int,
                    {}
                }
            }
        } else {
            proof {
                if (r as int) < isqrt(n as int) {
                    assert(sq(r as int + 1) <= sq(isqrt(n as int))) by (nonlinear_arith)
                        requires
                            0 <= r as int + 1 <= isqrt(n as int),
                    {}
                }
            }
            break ;
        }
    }
    r
}

/// The row walk of one column: reports the wedge's rows of column `x` (and
/// whatever a forked child sweep reports), and says whether the sweep goes
/// on to the next column and with which wedge: exactly [`shadow_rows`].
fn shadow_scan_rows<MAP: Map2D + ?Sized>(
    map: &MAP,
    octant: Octant,
    start: Point,
    range: i16,
    x: i16,
    y: i16,
    ty: i16,
    top: Slope,
    bottom: Slope,
    was: Option<bool>,
) -> (res: (Vec<Point>, bool, Slope, Slope))
    requires
        octant.0 < 8,
        0 <= range <= 0x3fff,
        1 <= x <= range,
        0 <= y as int <= x as int + 1,
        ty as int <= x as int,
        slope_valid(sv(top)),
        slope_valid(sv(bottom)),
        was is Some ==> 1 <= y,
        crate::fits_i16((pt(start).0 - range as int, pt(start).1 - range as int)),
        crate::fits_i16((pt(start).0 + range as int, pt(start).1 + range as int)),
    ensures
        ({
            let w = shadow_rows(
                map,
                pt(start),
                octant.0 as int,
                range as int,
                x as int,
                y as int,
                ty as int,
                sv(top),
                sv(bottom),
                was,
            );
            &&& pts(res.0@) == w.0
            &&& res.1 == w.1
            &&& sv(res.2) == w.2
            &&& sv(res.3) == w.3
            &&& slope_valid(sv(res.2))
            &&& slope_valid(sv(res.3))
        }),
    decreases range as int + 1 - x as int, x as int + 2 - y as int,
{
    let ghost w = shadow_rows(
        map,
        pt(start),
        octant.0 as int,
        range as int,
        x as int,
        y as int,
        ty as int,
        sv(top),
        sv(bottom),
        was,
    );
    if y > ty {
        let cont = match was {
            Some(false) => true,
            _ => false,
        };
        let out: Vec<Point> = Vec::new();
        proof {
            assert(pts(out@) =~= w.0);
        }
        return (out, cont, top, bottom);
    }
    let p = octant.from_octant0(start, (x, y));
    let inb = map.is_in_bound(p);
    let mut out: Vec<Point> = Vec::new();
    if inb {
        out.push(p);
    }
    let opq = !inb || map.is_opaque(p);
    if x == range {
        let mut rest = shadow_scan_rows(map, octant, start, range, x, y + 1, ty, top, bottom, was);
        out.append(&mut rest.0);
        proof {
            assert(pts(out@) =~= w.0);
        }
        (out, rest.1, rest.2, rest.3)
    } else if opq {
        let was_clear = match was {
            Some(false) => true,
            _ => false,
        };
        if was_clear {
            let new_top = Slope { x: x * 2 + 1, y: y * 2 - 1 };
            if !inb || y == ty {
                proof {
                    assert(pts(out@) =~= w.0);
                }
                (out, true, new_top, bottom)
            } else {
                let mut child = shadow_casting_octant(
                    map,
                    octant,
                    start,
                    range,
                    x + 1,
                    new_top,
                    bottom,
                );
                let mut rest = shadow_scan_rows(
                    map,
                    octant,
                    start,
                    range,
                    x,
                    y + 1,
                    ty,
                    top,
                    bottom,
                    Some(true),
                );
                out.append(&mut child);
                out.append(&mut rest.0);
                proof {
                    assert(pts(out@) =~= w.0);
                }
                (out, rest.1, rest.2, rest.3)
            }
        } else {
            let mut rest = shadow_scan_rows(
                map,
                octant,
                start,
                range,
                x,
                y + 1,
                ty,
                top,
                bottom,
                Some(true),
            );
            out.append(&mut rest.0);
            proof {
                assert(pts(out@) =~= w.0);
            }
            (out, rest.1, rest.2, rest.3)
        }
    } else {
        let was_shadow = match was {
            Some(true) => true,
            _ => false,
        };
        let nb = if was_shadow {
            Slope { x: x * 2 - 1, y: y * 2 - 1 }
        } else {
            bottom
        };
        let mut rest = shadow_scan_rows(
            map,
            octant,
            start,
            range,
            x,
            y + 1,
            ty,
            top,
            nb,
            Some(false),
        );
        out.append(&mut rest.0);
        proof {
            assert(pts(out@) =~= w.0);
        }
        (out, rest.1, rest.2, rest.3)
    }
}

/// One octant sweep from column `x` outward with the wedge between `top`
/// and `bottom`: reports exactly [`shadow_cols`].
pub fn shadow_casting_octant<MAP: Map2D + ?Sized>(
    map: &MAP,
    octant: Octant,
    start: Point,
    range: i16,
    x: i16,
    top: Slope,
    bottom: Slope,
) -> (out: Vec<Point>)
    requires
        octant.0 < 8,
        0 <= range <= 0x3fff,
        1 <= x as int <= range as int + 1,
        slope_valid(sv(top)),
        slope_valid(sv(bottom)),
        crate::fits_i16((pt(start).0 - range as int, pt(start).1 - range as int)),
        crate::fits_i16((pt(start).0 + range as int, pt(start).1 + range as int)),
    ensures
        pts(out@) == shadow_cols(
            map,
            pt(start),
            octant.0 as int,
            range as int,
            x as int,
            sv(top),
            sv(bottom),
        ),
    decreases range as int + 1 - x as int, x as int + 3,
{
    let ghost whole = shadow_cols(
        map,
        pt(start),
        octant.0 as int,
        range as int,
        x as int,
        sv(top),
        sv(bottom),
    );
    if x > range {
        let out: Vec<Point> = Vec::new();
        proof {
            assert(pts(out@) =~= whole);
        }
        return out;
    }
    // The top of the wedge at this column: the top slope, clipped to the
    // discrete circle of the range.
    let slope_y: i16 = if top.x == 1 {
        x
    } else {
        proof {
            lemma_top_slope_in_box(sv(top), x as int);
            assert(0 <= (x as int * 2 + 1) * (top.y as int) <= 0x4000_0000) by (nonlinear_arith)
                requires
                    1 <= x as int <= 0x3fff,
                    0 <= top.y as int <= 0x7fff,
            {}
        }
        let num: i32 = ((x as i32) * 2 + 1) * (top.y as i32) + (top.x as i32) - 1;
        let q: i32 = num / ((top.x as i32) * 2);
        q as i16
    };
    let ghost rsq = sq(range as int) - sq(x as int);
    proof {
        assert(0 <= sq(x as int) && sq(x as int) <= sq(range as int) && sq(range as int) <= sq(
            0x3fff,
        ) && sq(0x3fff) < 0x0fff_ffff) by (nonlinear_arith)
            requires
                1 <= x as int <= range as int <= 0x3fff,
        {}
        lemma_isqrt_le(rsq, range as int);
        lemma_isqrt_bounds(rsq);
    }
    let clip_i: i32 = isqrt_i32(
        (range as i32) * (range as i32) - (x as i32) * (x as i32),
    );
    let clip: i16 = clip_i as i16;
    let top_y: i16 = if slope_y <= clip {
        slope_y
    } else {
        clip
    };
    proof {
        assert(top_y as int == wedge_top_y(sv(top), x as int, range as int));
    }
    // The bottom of the wedge at this column.
    let bottom_y: i16 = if bottom.y == 0 {
        0
    } else {
        proof {
            lemma_bottom_slope_in_box(sv(bottom), x as int);
            assert(0 <= (x as int * 2 - 1) * (bottom.y as int) <= 0x4000_0000) by (nonlinear_arith)
                requires
                    1 <= x as int <= 0x3fff,
                    0 <= bottom.y as int <= 0x7fff,
            {}
        }
        let num: i32 = ((x as i32) * 2 - 1) * (bottom.y as i32) + (bottom.x as i32);
        let q: i32 = num / ((bottom.x as i32) * 2);
        q as i16
    };
    proof {
        assert(bottom_y as int == wedge_bottom_y(sv(bottom), x as int));
    }
    let walk = shadow_scan_rows(
        map,
        octant,
        start,
        range,
        x,
        bottom_y,
        top_y,
        top,
        bottom,
        None,
    );
    let mut out = walk.0;
    if walk.1 {
        let mut rest = shadow_casting_octant(map, octant, start, range, x + 1, walk.2, walk.3);
        out.append(&mut rest);
    }
    proof {
        assert(pts(out@) =~= whole);
    }
    out
}

/// Computes the field of view by recursive shadow casting: reports `start`
/// first, then sweeps each of the eight octants with a full wedge.  The
/// reported sequence is exactly [`shadow_fov_seq`]; every reported point
/// except the observer's own is in bounds and within euclidean distance
/// `range` of the observer.  The range is capped so that the slope
/// cross-products stay within their integer width.
pub fn shadow_casting_fov<MAP: Map2D + ?Sized>(map: &MAP, start: Point, range: i16) -> (out: Vec<
    Point,
>)
    requires
        0 <= range <= 0x3fff,
        crate::fits_i16((pt(start).0 - range as int, pt(start).1 - range as int)),
        crate::fits_i16((pt(start).0 + range as int, pt(start).1 + range as int)),
    ensures
        pts(out@) == shadow_fov_seq(map, pt(start), range as int),
        out@.len() >= 1 && out@[0] == start,
        forall|i: int| 1 <= i < out@.len() ==> map.spec_is_in_bound(pt(#[trigger] out@[i])),
        forall|i: int|
            1 <= i < out@.len() ==> sq(pt(#[trigger] out@[i]).0 - pt(start).0) + sq(
                pt(out@[i]).1 - pt(start).1,
            ) <= sq(range as int),
{
    let ghost s = pt(start);
    let mut out: Vec<Point> = Vec::new();
    out.push(start);
    proof {
        assert(pts(out@) =~= seq![s]);
        assert(pts(out@) + shadow_octants_from(map, s, range as int, 0) =~= shadow_fov_seq(
            map,
            s,
            range as int,
        ));
    }
    let mut o: u8 = 0;
    while o < 8
        invariant
            o <= 8,
            out@.len() >= 1 && out@[0] == start,
            s == pt(start),
            0 <= range <= 0x3fff,
            crate::fits_i16((s.0 - range as int, s.1 - range as int)),
            crate::fits_i16((s.0 + range as int, s.1 + range as int)),
            pts(out@) + shadow_octants_from(map, s, range as int, o as int) == shadow_fov_seq(
                map,
                s,
                range as int,
            ),
        decreases 8 - o as int,
    {
        let mut sweep = shadow_casting_octant(
            map,
            Octant(o),
            start,
            range,
            1,
            Slope { x: 1, y: 1 },
            Slope { x: 1, y: 0 },
        );
        out.append(&mut sweep);
        proof {
            assert(pts(out@) + shadow_octants_from(map, s, range as int, o as int + 1)
                =~= shadow_fov_seq(map, s, range as int));
        }
        o += 1;
    }
    proof {
        assert(shadow_octants_from(map, s, range as int, 8) =~= Seq::<(int, int)>::empty());
        assert(pts(out@) =~= shadow_fov_seq(map, s, range as int));
        lemma_shadow_octants_props(map, s, range as int, 0);
        assert forall|i: int| 1 <= i < out@.len() implies map.spec_is_in_bound(
            pt(#[trigger] out@[i]),
        ) && sq(pt(out@[i]).0 - s.0) + sq(pt(out@[i]).1 - s.1) <= sq(range as int) by {
            assert(pt(out@[i]) == pts(out@)[i]);
            assert(pts(out@)[i] == shadow_octants_from(map, s, range as int, 0)[i - 1]);
        }
    }
    out
}

/// Negation preserves squares.
proof fn lemma_sq_neg(a: int)
    by (nonlinear_arith)
    ensures
        sq(-a) == sq(a),
{
}

/// Every point reported by a row walk is in bounds and within euclidean
/// distance `range` of `start`.
proof fn lemma_shadow_rows_props<M: Map2D + ?Sized>(
    map: &M,
    start: (int, int),
    o: int,
    range: int,
    x: int,
    y: int,
    ty: int,
    top: (int, int),
    bottom: (int, int),
    was: Option<bool>,
)
    requires
        1 <= x <= range,
        0 <= y,
        ty <= x,
        sq(x) <= sq(range),
        ty <= isqrt(sq(range) - sq(x)),
    ensures
        forall|i: int|
            0 <= i < shadow_rows(map, start, o, range, x, y, ty, top, bottom, was).0.len() ==> {
                let q = #[trigger] shadow_rows(map, start, o, range, x, y, ty, top, bottom, was).0[i];
                map.spec_is_in_bound(q) && sq(q.0 - start.0) + sq(q.1 - start.1) <= sq(range)
            },
    decreases range + 1 - x, x + 2 - y,
{
    if y <= ty {
        let w = shadow_rows(map, start, o, range, x, y, ty, top, bottom, was);
        let p = octant_from0_at(start, o, (x, y));
        let inb = map.spec_is_in_bound(p);
        let emit = if inb {
            seq![p]
        } else {
            Seq::<(int, int)>::empty()
        };
        let opq = !inb || map.spec_is_opaque(p);
        // The direct emission lies within the disc: its canonical
        // coordinates satisfy x^2 + y^2 <= range^2 by the circle clipping,
        // and the octant transform only permutes and negates them.
        lemma_isqrt_bounds(sq(range) - sq(x));
        assert(sq(y) <= sq(ty)) by (nonlinear_arith)
            requires
                0 <= y <= ty,
        {}
        assert(sq(ty) <= sq(isqrt(sq(range) - sq(x)))) by (nonlinear_arith)
            requires
                0 <= ty <= isqrt(sq(range) - sq(x)),
        {}
        lemma_sq_neg(x);
        lemma_sq_neg(y);
        assert(sq(p.0 - start.0) + sq(p.1 - start.1) <= sq(range));
        if x == range {
            lemma_shadow_rows_props(map, start, o, range, x, y + 1, ty, top, bottom, was);
            let rest = shadow_rows(map, start, o, range, x, y + 1, ty, top, bottom, was);
            assert forall|i: int| 0 <= i < w.0.len() implies {
                let q = #[trigger] w.0[i];
                map.spec_is_in_bound(q) && sq(q.0 - start.0) + sq(q.1 - start.1) <= sq(range)
            } by {
                if i >= emit.len() {
                    assert(w.0[i] == rest.0[i - emit.len()]);
                }
            }
        } else if opq {
            if was == Some(false) {
                let new_top = (x * 2 + 1, y * 2 - 1);
                if !inb || y == ty {
                    assert(w.0 == emit);
                } else {
                    lemma_shadow_cols_props(map, start, o, range, x + 1, new_top, bottom);
                    lemma_shadow_rows_props(
                        map,
                        start,
                        o,
                        range,
                        x,
                        y + 1,
                        ty,
                        top,
                        bottom,
                        Some(true),
                    );
                    let child = shadow_cols(map, start, o, range, x + 1, new_top, bottom);
                    let rest = shadow_rows(
                        map,
                        start,
                        o,
                        range,
                        x,
                        y + 1,
                        ty,
                        top,
                        bottom,
                        Some(true),
                    );
                    assert forall|i: int| 0 <= i < w.0.len() implies {
                        let q = #[trigger] w.0[i];
                        map.spec_is_in_bound(q) && sq(q.0 - start.0) + sq(q.1 - start.1) <= sq(
                            range,
                        )
                    } by {
                        assert(w.0 == emit + child + rest.0);
                        if i < emit.len() {
                            assert(w.0[i] == p);
                        } else if i < emit.len() + child.len() {
                            assert(w.0[i] == child[i - emit.len()]);
                        } else {
                            assert(w.0[i] == rest.0[i - emit.len() - child.len()]);
                        }
                    }
                }
            } else {
                lemma_shadow_rows_props(map, start, o, range, x, y + 1, ty, top, bottom, Some(true));
                let rest = shadow_rows(map, start, o, range, x, y + 1, ty, top, bottom, Some(true));
                assert forall|i: int| 0 <= i < w.0.len() implies {
                    let q = #[trigger] w.0[i];
                    map.spec_is_in_bound(q) && sq(q.0 - start.0) + sq(q.1 - start.1) <= sq(range)
                } by {
                    if i >= emit.len() {
                        assert(w.0[i] == rest.0[i - emit.len()]);
                    }
                }
            }
        } else {
            let nb = if was == Some(true) {
                (x * 2 - 1, y * 2 - 1)
            } else {
                bottom
            };
            lemma_shadow_rows_props(map, start, o, range, x, y + 1, ty, top, nb, Some(false));
            let rest = shadow_rows(map, start, o, range, x, y + 1, ty, top, nb, Some(false));
            assert forall|i: int| 0 <= i < w.0.len() implies {
                let q = #[trigger] w.0[i];
                map.spec_is_in_bound(q) && sq(q.0 - start.0) + sq(q.1 - start.1) <= sq(range)
            } by {
                if i >= emit.len() {
                    assert(w.0[i] == rest.0[i - emit.len()]);
                }
            }
        }
    }
}

/// Every point reported by a column scan is in bounds and within euclidean
/// distance `range` of `start`.
proof fn lemma_shadow_cols_props<M: Map2D + ?Sized>(
    map: &M,
    start: (int, int),
    o: int,
    range: int,
    x: int,
    top: (int, int),
    bottom: (int, int),
)
    requires
        1 <= x <= range + 1,
        0 <= range,
    ensures
        forall|i: int|
            0 <= i < shadow_cols(map, start, o, range, x, top, bottom).len() ==> {
                let q = #[trigger] shadow_cols(map, start, o, range, x, top, bottom)[i];
                map.spec_is_in_bound(q) && sq(q.0 - start.0) + sq(q.1 - start.1) <= sq(range)
            },
    decreases range + 1 - x, x + 3,
{
    if x <= range {
        let whole = shadow_cols(map, start, o, range, x, top, bottom);
        let ty = wedge_top_y(top, x, range);
        let by = wedge_bottom_y(bottom, x);
        assert(sq(x) <= sq(range)) by (nonlinear_arith)
            requires
                1 <= x <= range,
        {}
        lemma_shadow_rows_props(map, start, o, range, x, by, ty, top, bottom, None);
        let walk = shadow_rows(map, start, o, range, x, by, ty, top, bottom, None);
        if walk.1 {
            lemma_shadow_cols_props(map, start, o, range, x + 1, walk.2, walk.3);
            let rest = shadow_cols(map, start, o, range, x + 1, walk.2, walk.3);
            assert forall|i: int| 0 <= i < whole.len() implies {
                let q = #[trigger] whole[i];
                map.spec_is_in_bound(q) && sq(q.0 - start.0) + sq(q.1 - start.1) <= sq(range)
            } by {
                if i >= walk.0.len() {
                    assert(whole[i] == rest[i - walk.0.len()]);
                } else {
                    assert(whole[i] == walk.0[i]);
                }
            }
        }
    }
}

/// Every point reported by the octant sweeps is in bounds and within
/// euclidean distance `range` of `start`.
proof fn lemma_shadow_octants_props<M: Map2D + ?Sized>(
    map: &M,
    start: (int, int),
    range: int,
    o: int,
)
    requires
        0 <= o <= 8,
        0 <= range,
    ensures
        forall|i: int|
            0 <= i < shadow_octants_from(map, start, range, o).len() ==> {
                let q = #[trigger] shadow_octants_from(map, start, range, o)[i];
                map.spec_is_in_bound(q) && sq(q.0 - start.0) + sq(q.1 - start.1) <= sq(range)
            },
    decreases 8 - o,
{
    if o < 8 {
        lemma_shadow_cols_props(map, start, o, range, 1, (1, 1), (1, 0));
        lemma_shadow_octants_props(map, start, range, o + 1);
        let whole = shadow_octants_from(map, start, range, o);
        let head = shadow_cols(map, start, o, range, 1, (1, 1), (1, 0));
        let rest = shadow_octants_from(map, start, range, o + 1);
        assert forall|i: int| 0 <= i < whole.len() implies {
            let q = #[trigger] whole[i];
            map.spec_is_in_bound(q) && sq(q.0 - start.0) + sq(q.1 - start.1) <= sq(range)
        } by {
            if i >= head.len() {
                assert(whole[i] == rest[i - head.len()]);
            } else {
                assert(whole[i] == head[i]);
            }
        }
    }
}

/// A number at least some square has at least its base as integer root.
proof fn lemma_isqrt_ge(n: int, b: int)
    requires
        0 <= b,
        sq(b) <= n,
    ensures
        b <= isqrt(n),
{
    assert(0 <= sq(b)) by (nonlinear_arith);
    lemma_isqrt_bounds(n);
    if b > isqrt(n) {
        assert(sq(isqrt(n) + 1) <= sq(b)) by (nonlinear_arith)
            requires
                0 <= isqrt(n) + 1 <= b,
        {}
    }
}

/// The octant transforms only permute and negate coordinates, so they
/// preserve the squared distance from the origin.
proof fn lemma_from0_preserves_norm(o: int, d: (int, int))
    ensures
        sq(crate::geometry::octant::octant_from0(o, d).0) + sq(
            crate::geometry::octant::octant_from0(o, d).1,
        ) == sq(d.0) + sq(d.1),
{
    lemma_sq_neg(d.0);
    lemma_sq_neg(d.1);
}

/// Whether `q` is a valid, transparent cell of the map.
pub open spec fn open_cell<M: Map2D + ?Sized>(map: &M, q: (int, int)) -> bool {
    map.spec_is_in_bound(q) && !map.spec_is_opaque(q)
}

/// Whether every cell within euclidean distance `range` of `start` is a
/// valid, transparent cell of the map: nothing there blocks or clips sight.
pub open spec fn open_within<M: Map2D + ?Sized>(map: &M, start: (int, int), range: int) -> bool {
    forall|q: (int, int)|
        sq(q.0 - start.0) + sq(q.1 - start.1) <= sq(range) ==> #[trigger] open_cell(map, q)
}

/// On a map that is open throughout the range, a row walk that has seen no
/// shadow yet reports exactly the rows `y..=ty` of its column and leaves
/// the wedge untouched.
proof fn lemma_open_rows<M: Map2D + ?Sized>(
    map: &M,
    start: (int, int),
    o: int,
    range: int,
    x: int,
    y: int,
    ty: int,
    top: (int, int),
    bottom: (int, int),
    was: Option<bool>,
)
    requires
        open_within(map, start, range),
        0 <= range,
        1 <= x <= range,
        0 <= y,
        ty <= x,
        sq(x) <= sq(range),
        ty <= isqrt(sq(range) - sq(x)),
        was is None || was == Some(false),
    ensures
        ({
            let w = shadow_rows(map, start, o, range, x, y, ty, top, bottom, was);
            &&& w.1 == if x == range {
                was == Some(false)
            } else {
                was == Some(false) || y <= ty
            }
            &&& w.2 == top
            &&& w.3 == bottom
            &&& w.0.len() == if y <= ty {
                ty + 1 - y
            } else {
                0
            }
            &&& forall|k: int|
                0 <= k < w.0.len() ==> #[trigger] w.0[k] == octant_from0_at(start, o, (x, y + k))
        }),
    decreases range + 1 - x, x + 2 - y,
{
    let w = shadow_rows(map, start, o, range, x, y, ty, top, bottom, was);
    if y <= ty {
        let p = octant_from0_at(start, o, (x, y));
        // The walked cell lies within the disc, so the map is open there.
        lemma_isqrt_bounds(sq(range) - sq(x));
        assert(sq(y) <= sq(ty)) by (nonlinear_arith)
            requires
                0 <= y <= ty,
        {}
        assert(sq(ty) <= sq(isqrt(sq(range) - sq(x)))) by (nonlinear_arith)
            requires
                0 <= ty <= isqrt(sq(range) - sq(x)),
        {}
        lemma_from0_preserves_norm(o, (x, y));
        assert(sq(p.0 - start.0) + sq(p.1 - start.1) <= sq(range));
        assert(open_cell(map, p));
        if x == range {
            lemma_open_rows(map, start, o, range, x, y + 1, ty, top, bottom, was);
            let rest = shadow_rows(map, start, o, range, x, y + 1, ty, top, bottom, was);
            assert forall|k: int| 0 <= k < w.0.len() implies #[trigger] w.0[k] == octant_from0_at(
                start,
                o,
                (x, y + k),
            ) by {
                if k > 0 {
                    assert(w.0[k] == rest.0[k - 1]);
                }
            }
        } else {
            lemma_open_rows(map, start, o, range, x, y + 1, ty, top, bottom, Some(false));
            let rest = shadow_rows(map, start, o, range, x, y + 1, ty, top, bottom, Some(false));
            assert forall|k: int| 0 <= k < w.0.len() implies #[trigger] w.0[k] == octant_from0_at(
                start,
                o,
                (x, y + k),
            ) by {
                if k > 0 {
                    assert(w.0[k] == rest.0[k - 1]);
                }
            }
        }
    }
}

/// On a map that is open throughout the range, the column scan with the
/// full wedge reports every cell of every remaining column up to the
/// discrete circle boundary: in particular the canonical cell `(tx, ty0)`.
proof fn lemma_open_cols_contains<M: Map2D + ?Sized>(
    map: &M,
    start: (int, int),
    o: int,
    range: int,
    x: int,
    tx: int,
    ty0: int,
)
    requires
        open_within(map, start, range),
        0 <= range,
        1 <= x <= tx <= range,
        0 <= ty0 <= tx,
        sq(tx) + sq(ty0) <= sq(range),
    ensures
        shadow_cols(map, start, o, range, x, (1, 1), (1, 0)).contains(
            octant_from0_at(start, o, (tx, ty0)),
        ),
    decreases tx - x,
{
    let whole = shadow_cols(map, start, o, range, x, (1, 1), (1, 0));
    assert(sq(x) <= sq(range) && sq(ty0) >= 0 && sq(tx) <= sq(range)) by (nonlinear_arith)
        requires
            1 <= x <= tx <= range,
            sq(tx) + sq(ty0) <= sq(range),
    {}
    let tyx = wedge_top_y((1, 1), x, range);
    lemma_isqrt_bounds(sq(range) - sq(x));
    lemma_open_rows(map, start, o, range, x, 0, tyx, (1, 1), (1, 0), None);
    let w = shadow_rows(map, start, o, range, x, 0, tyx, (1, 1), (1, 0), None);
    let target = octant_from0_at(start, o, (tx, ty0));
    if tx == x {
        lemma_isqrt_ge(sq(range) - sq(x), ty0);
        assert(w.0[ty0] == target);
        assert(whole[ty0] == target);
        assert(whole.contains(target));
    } else {
        lemma_open_cols_contains(map, start, o, range, x + 1, tx, ty0);
        let tail = shadow_cols(map, start, o, range, x + 1, (1, 1), (1, 0));
        let i = choose|i: int| 0 <= i < tail.len() && tail[i] == target;
        assert(whole[w.0.len() + i] == target);
        assert(whole.contains(target));
    }
}

/// A point reported by one octant's full-wedge sweep is reported by the
/// eight-octant sweep.
proof fn lemma_octants_contains<M: Map2D + ?Sized>(
    map: &M,
    start: (int, int),
    range: int,
    o: int,
    o2: int,
    q: (int, int),
)
    requires
        0 <= o <= o2 < 8,
        shadow_cols(map, start, o2, range, 1, (1, 1), (1, 0)).contains(q),
    ensures
        shadow_octants_from(map, start, range, o).contains(q),
    decreases 8 - o,
{
    let whole = shadow_octants_from(map, start, range, o);
    let head = shadow_cols(map, start, o, range, 1, (1, 1), (1, 0));
    if o == o2 {
        let i = choose|i: int| 0 <= i < head.len() && head[i] == q;
        assert(whole[i] == q);
    } else {
        lemma_octants_contains(map, start, range, o + 1, o2, q);
        let tail = shadow_octants_from(map, start, range, o + 1);
        let i = choose|i: int| 0 <= i < tail.len() && tail[i] == q;
        assert(whole[head.len() + i] == q);
    }
    assert(whole.contains(q));
}

/// On a map that is open and in bounds throughout the observer's range,
/// shadow casting reports exactly the closed euclidean disc of that range:
/// a point is reported if and only if its squared distance from the
/// observer is at most the squared range.
pub proof fn lemma_shadow_fov_open_map_is_disc<MAP: Map2D + ?Sized>(
    map: &MAP,
    start: (int, int),
    range: int,
    p: (int, int),
)
    requires
        0 <= range,
        open_within(map, start, range),
    ensures
        shadow_fov_seq(map, start, range).contains(p) <==> sq(p.0 - start.0) + sq(p.1 - start.1)
            <= sq(range),
{
    let whole = shadow_fov_seq(map, start, range);
    if whole.contains(p) {
        let i = choose|i: int| 0 <= i < whole.len() && whole[i] == p;
        if i == 0 {
            assert(p == start);
            assert(sq(0) == 0) by (nonlinear_arith);
            assert(0 <= sq(range)) by (nonlinear_arith);
        } else {
            lemma_shadow_octants_props(map, start, range, 0);
            assert(whole[i] == shadow_octants_from(map, start, range, 0)[i - 1]);
        }
    }
    if sq(p.0 - start.0) + sq(p.1 - start.1) <= sq(range) {
        if p == start {
            assert(whole[0] == start);
            assert(whole.contains(p));
        } else {
            let d = (p.0 - start.0, p.1 - start.1);
            crate::geometry::octant::lemma_octant_decomp(d);
            let o = crate::geometry::octant::octant_decomp(d).0;
            let c = crate::geometry::octant::octant_decomp(d).1;
            lemma_from0_preserves_norm(o, c);
            assert(sq(c.0) + sq(c.1) == sq(d.0) + sq(d.1));
            assert(c.0 >= 1) by {
                if c.0 == 0 {
                    assert(c.1 == 0);
                    assert(crate::geometry::octant::octant_from0(o, c) == (0int, 0int));
                }
            }
            assert(c.0 <= range) by {
                if c.0 > range {
                    assert(sq(range + 1) <= sq(c.0)) by (nonlinear_arith)
                        requires
                            0 <= range + 1 <= c.0,
                    {}
                    assert(sq(range) < sq(range + 1)) by (nonlinear_arith)
                        requires
                            0 <= range,
                    {}
                    assert(0 <= sq(c.1)) by (nonlinear_arith);
                }
            }
            lemma_open_cols_contains(map, start, o, range, 1, c.0, c.1);
            assert(octant_from0_at(start, o, c) == p);
            lemma_octants_contains(map, start, range, 0, o, p);
            let t = shadow_octants_from(map, start, range, 0);
            let i = choose|i: int| 0 <= i < t.len() && t[i] == p;
            assert(whole[i + 1] == p);
            assert(whole.contains(p));
        }
    }
}

/// Shadow casting is deterministic: two runs against the same map, observer
/// and range report the same sequence of points.
pub proof fn lemma_shadow_fov_deterministic<MAP: Map2D + ?Sized>(
    map: &MAP,
    start: (int, int),
    range: int,
    a: Seq<(int, int)>,
    b: Seq<(int, int)>,
)
    requires
        a == shadow_fov_seq(map, start, range),
        b == shadow_fov_seq(map, start, range),
    ensures
        a == b,
{
}

} // verus!
