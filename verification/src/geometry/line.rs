//! Bresenham's algorithm for drawing lines.
//!
//! A line is rasterized entirely in integer arithmetic: the segment is
//! mapped into a canonical quadrant, a digital differential error
//! accumulator walks it, and every generated point is mapped back to world
//! space.  The rasterized line excludes its start point, includes its end
//! point, and has exactly `max(|dx|, |dy|)` points.

use vstd::prelude::*;

verus! {

use crate::geometry::quadrant::{
    lemma_quadrant_decomp,
    quadrant_decomp,
    quadrant_from0_at,
    Quadrant,
};
use crate::{fits_i16, pt, pts, Point};
use vstd::arithmetic::div_mod::{lemma_fundamental_div_mod, lemma_remainder};

/// The canonical minor coordinate of the `k`-th rasterized point of a line
/// with canonical major delta `m` and minor delta `n`: the Bresenham
/// rounding `floor((2kn + m) / 2m)` of the exact value `kn/m`.
pub open spec fn bres_minor(k: int, n: int, m: int) -> int {
    (2 * k * n + m) / (2 * m)
}

/// The canonical delta of the `k`-th rasterized point (`k` counted from 1)
/// of a line with canonical deltas `(dx, dy)`.
pub open spec fn line_delta(dx: int, dy: int, k: int) -> (int, int) {
    if dx >= dy {
        (k, bres_minor(k, dy, dx))
    } else {
        (bres_minor(k, dx, dy), k)
    }
}

/// The number of points on the rasterized line for displacement `d`:
/// the larger coordinate magnitude.
pub open spec fn line_len(d: (int, int)) -> int {
    let ax = if d.0 >= 0 {
        d.0
    } else {
        -d.0
    };
    let ay = if d.1 >= 0 {
        d.1
    } else {
        -d.1
    };
    if ax >= ay {
        ax
    } else {
        ay
    }
}

/// The rasterized line from `start` to `end`, excluding `start` and
/// including `end`, as a sequence of unbounded pairs.
pub open spec fn line_seq(start: (int, int), end: (int, int)) -> Seq<(int, int)> {
    let d = (end.0 - start.0, end.1 - start.1);
    let q = quadrant_decomp(d).0;
    let c = quadrant_decomp(d).1;
    Seq::new(line_len(d) as nat, |i: int| quadrant_from0_at(start, q, line_delta(c.0, c.1, i + 1)))
}

/// The division characterization of [`bres_minor`]: it is the floor of
/// `(2kn + m) / 2m`, it is non-negative for non-negative `k`, and it stays
/// within `[0, n]` while `k` stays within `[0, m]`.
proof fn lemma_bres_minor_bounds(k: int, n: int, m: int)
    requires
        1 <= m,
        0 <= n <= m,
        0 <= k,
    ensures
        2 * m * bres_minor(k, n, m) <= 2 * k * n + m < 2 * m * (bres_minor(k, n, m) + 1),
        0 <= bres_minor(k, n, m),
        k <= m ==> bres_minor(k, n, m) <= n,
{
    let b = bres_minor(k, n, m);
    assert(0 <= 2 * k * n) by (nonlinear_arith)
        requires
            0 <= k && 0 <= n,
    {}
    lemma_fundamental_div_mod(2 * k * n + m, 2 * m);
    lemma_remainder(2 * k * n + m, 2 * m);
    assert(2 * m * b <= 2 * k * n + m < 2 * m * (b + 1)) by (nonlinear_arith)
        requires
            2 * k * n + m == 2 * m * ((2 * k * n + m) / (2 * m)) + (2 * k * n + m) % (2 * m),
            0 <= (2 * k * n + m) - ((2 * k * n + m) / (2 * m)) * (2 * m) < 2 * m,
            b == (2 * k * n + m) / (2 * m),
    {}
    assert(b >= 0) by (nonlinear_arith)
        requires
            2 * m * b <= 2 * k * n + m && 0 <= 2 * k * n && 1 <= m && 2 * m * (b + 1) > 2 * k * n
                + m,
    {}
    if k <= m {
        assert(2 * k * n <= 2 * m * n) by (nonlinear_arith)
            requires
                k <= m && 0 <= n,
        {}
        assert(b <= n) by (nonlinear_arith)
            requires
                2 * m * b <= 2 * m * n + m && 1 <= m && 0 <= n && 0 <= b,
        {}
    }
}

/// How [`bres_minor`] changes from step `k` to step `k + 1`: it grows by
/// zero or one, and it grows exactly when twice the error accumulator
/// `m(1 + bres_minor(k)) - n(1 + k)` is at most `m`.  The accumulator is
/// also never below `-n / 2`, so the major axis steps every time.
proof fn lemma_bres_minor_step(k: int, n: int, m: int)
    requires
        1 <= m,
        0 <= n <= m,
        0 <= k < m,
    ensures
        bres_minor(k + 1, n, m) == bres_minor(k, n, m) || bres_minor(k + 1, n, m) == bres_minor(
            k,
            n,
            m,
        ) + 1,
        (2 * (m * (1 + bres_minor(k, n, m)) - n * (1 + k)) <= m) <==> (bres_minor(k + 1, n, m)
            == bres_minor(k, n, m) + 1),
        2 * (m * (1 + bres_minor(k, n, m)) - n * (1 + k)) >= -n,
{
    lemma_bres_minor_bounds(k, n, m);
    lemma_bres_minor_bounds(k + 1, n, m);
    let b = bres_minor(k, n, m);
    let c = bres_minor(k + 1, n, m);
    // The two floors differ by at most the growth of the numerator, 2n <= 2m.
    assert(b <= c && c <= b + 1) by (nonlinear_arith)
        requires
            2 * m * b <= 2 * k * n + m < 2 * m * (b + 1),
            2 * m * c <= 2 * (k + 1) * n + m < 2 * m * (c + 1),
            1 <= m,
            0 <= n <= m,
    {}
    // Twice the error accumulator at step k, against the step condition.
    assert((2 * (m * (1 + b) - n * (1 + k)) <= m) <==> (2 * m * (b + 1) <= 2 * (k + 1) * n + m))
        by (nonlinear_arith)
    {}
    assert((2 * m * (b + 1) <= 2 * (k + 1) * n + m) <==> (c == b + 1)) by (nonlinear_arith)
        requires
            2 * m * c <= 2 * (k + 1) * n + m < 2 * m * (c + 1),
            b <= c <= b + 1,
            1 <= m,
    {}
    // The major axis always steps: twice the error accumulator is >= -n.
    assert(2 * (m * (1 + b) - n * (1 + k)) >= -n) by (nonlinear_arith)
        requires
            2 * m * (b + 1) > 2 * k * n + m,
            0 <= n <= m,
            1 <= m,
            0 <= k,
    {}
}

/// Multiplying out one increment: `a * (b + 1) == a * b + a`.
proof fn lemma_mul_succ(a: int, b: int)
    by (nonlinear_arith)
    ensures
        a * (b + 1) == a * b + a,
{
}

/// The rasterized walk starts at minor coordinate zero and ends at `n`.
proof fn lemma_bres_minor_ends(n: int, m: int)
    requires
        1 <= m,
        0 <= n <= m,
    ensures
        bres_minor(0, n, m) == 0,
        bres_minor(m, n, m) == n,
{
    lemma_bres_minor_bounds(0, n, m);
    assert(bres_minor(0, n, m) == 0) by (nonlinear_arith)
        requires
            2 * m * bres_minor(0, n, m) <= m < 2 * m * (bres_minor(0, n, m) + 1),
            0 <= bres_minor(0, n, m),
            1 <= m,
    {}
    lemma_bres_minor_bounds(m, n, m);
    assert(bres_minor(m, n, m) == n) by (nonlinear_arith)
        requires
            2 * m * bres_minor(m, n, m) <= 2 * m * n + m < 2 * m * (bres_minor(m, n, m) + 1),
            0 <= bres_minor(m, n, m) <= n,
            1 <= m,
    {}
}

/// The last point of the rasterized line is `end`, and the line is empty
/// exactly when `start == end`.
pub proof fn lemma_line_seq_last(start: (int, int), end: (int, int))
    ensures
        line_seq(start, end).len() == line_len((end.0 - start.0, end.1 - start.1)),
        start != end ==> line_seq(start, end).len() > 0 && line_seq(start, end).last() == end,
        start == end ==> line_seq(start, end).len() == 0,
{
    let d = (end.0 - start.0, end.1 - start.1);
    let q = quadrant_decomp(d).0;
    let c = quadrant_decomp(d).1;
    lemma_quadrant_decomp(d);
    if start != end {
        let m = line_len(d);
        assert(m == if c.0 >= c.1 {
            c.0
        } else {
            c.1
        });
        let n: int = if c.0 >= c.1 {
            c.1
        } else {
            c.0
        };
        lemma_bres_minor_ends(n, m);
        assert(line_delta(c.0, c.1, m) == c);
        assert(line_seq(start, end).last() == quadrant_from0_at(start, q, c));
    }
}

/// Line-drawing iterator.  Yields the intermediate points between `start`
/// and `end`, excluding `start` and including `end`.
pub struct BresenhamLine {
    start: Point,
    quadrant: Quadrant,
    dx: i16,
    dy: i16,
    u: i16,
    v: i16,
    err: i64,
}

impl BresenhamLine {
    /// The canonical major delta of the walk.
    spec fn major(self) -> int {
        if self.dx >= self.dy {
            self.dx as int
        } else {
            self.dy as int
        }
    }

    /// The canonical minor delta of the walk.
    spec fn minor(self) -> int {
        if self.dx >= self.dy {
            self.dy as int
        } else {
            self.dx as int
        }
    }

    /// How far along the major axis the walk has come.
    spec fn steps(self) -> int {
        if self.dx >= self.dy {
            self.u as int
        } else {
            self.v as int
        }
    }

    /// Well-formedness: canonical deltas and progress are in range, the
    /// error accumulator carries its defining value, and the minor
    /// coordinate is the Bresenham rounding for the current step.
    pub closed spec fn wf(self) -> bool {
        &&& self.quadrant.0 < 4
        &&& 0 <= self.dx as int
        &&& 0 <= self.dy as int
        &&& 0 <= self.u <= self.dx
        &&& 0 <= self.v <= self.dy
        &&& self.err as int == self.dx as int * (1 + self.v as int) - self.dy as int * (1
            + self.u as int)
        &&& self.major() > 0 ==> (if self.dx >= self.dy {
            self.v as int
        } else {
            self.u as int
        }) == bres_minor(self.steps(), self.minor(), self.major())
        &&& fits_i16(
            quadrant_from0_at(
                pt(self.start),
                self.quadrant.0 as int,
                (self.dx as int, self.dy as int),
            ),
        )
    }

    /// The points the iterator has yet to yield, in order.
    pub closed spec fn remaining(self) -> Seq<(int, int)> {
        Seq::new(
            if self.major() >= self.steps() {
                (self.major() - self.steps()) as nat
            } else {
                0
            },
            |i: int|
                quadrant_from0_at(
                    pt(self.start),
                    self.quadrant.0 as int,
                    line_delta(self.dx as int, self.dy as int, self.steps() + i + 1),
                ),
        )
    }

    /// Creates a new iterator for the segment from `start` to `end`.
    pub fn new(start: Point, end: Point) -> (r: BresenhamLine)
        requires
            -0x7fff <= pt(end).0 - pt(start).0 <= 0x7fff,
            -0x7fff <= pt(end).1 - pt(start).1 <= 0x7fff,
        ensures
            r.wf(),
            r.remaining() == line_seq(pt(start), pt(end)),
    {
        let (quadrant, (dx, dy)) = Quadrant::from_points(start, end);
        let ghost d = (pt(end).0 - pt(start).0, pt(end).1 - pt(start).1);
        proof {
            lemma_quadrant_decomp(d);
        }
        let r = BresenhamLine { start, quadrant, dx, dy, u: 0, v: 0, err: dx as i64 - dy as i64 };
        proof {
            if r.major() > 0 {
                lemma_bres_minor_ends(r.minor(), r.major());
            }
            assert(line_len(d) == r.major());
            assert(r.remaining() =~= line_seq(pt(start), pt(end)));
        }
        r
    }

    /// Advances the walk by one step, in canonical space: the major axis
    /// always steps and the minor axis steps when the accumulated error
    /// calls for it.  Returns the stepped point, mapped back to world
    /// space, or `None` once `end` has been reached.
    pub fn next(&mut self) -> (r: Option<Point>)
        requires
            old(self).wf(),
        ensures
            final(self).wf(),
            old(self).remaining().len() == 0 ==> r is None && *final(self) == *old(self),
            old(self).remaining().len() > 0 ==> {
                &&& r matches Some(p) && pt(p) == old(self).remaining()[0]
                &&& final(self).remaining() == old(self).remaining().drop_first()
            },
    {
        if self.u == self.dx && self.v == self.dy {
            return None;
        }
        let ghost pre = *self;
        let ghost m = pre.major();
        let ghost n = pre.minor();
        let ghost k = pre.steps();
        proof {
            if k == m {
                // With the major axis exhausted, the minor coordinate has
                // already arrived as well, so the walk would have ended.
                if m > 0 {
                    lemma_bres_minor_ends(n, m);
                }
                assert(false);
            }
            lemma_bres_minor_step(k, n, m);
            lemma_bres_minor_bounds(k + 1, n, m);
            // The error accumulator is small: both products fit well under
            // the 64-bit range.
            assert(-0x4000_0000 <= self.err as int <= 0x4000_0000) by (nonlinear_arith)
                requires
                    self.err as int == self.dx as int * (1 + self.v as int) - self.dy as int * (1
                        + self.u as int),
                    0 <= self.dx as int <= 0x8000,
                    0 <= self.dy as int <= 0x8000,
                    0 <= self.u as int <= 0x8000,
                    0 <= self.v as int <= 0x8000,
            {}
        }
        let e2: i64 = 2 * self.err;
        if e2 >= -(self.dy as i64) {
            self.u = self.u + 1;
            self.err = self.err - (self.dy as i64);
        }
        if e2 <= self.dx as i64 {
            self.v = self.v + 1;
            self.err = self.err + (self.dx as i64);
        }
        proof {
            lemma_mul_succ(pre.dy as int, 1 + pre.u as int);
            lemma_mul_succ(pre.dx as int, 1 + pre.v as int);
            lemma_bres_minor_bounds(k, n, m);
            assert(self.steps() == k + 1 && (if self.dx >= self.dy {
                self.v as int
            } else {
                self.u as int
            }) == bres_minor(k + 1, n, m));
            assert((self.u as int, self.v as int) == line_delta(
                pre.dx as int,
                pre.dy as int,
                k + 1,
            ));
            lemma_bres_minor_bounds(k + 1, n, m);
            assert(self.remaining() =~= pre.remaining().drop_first());
        }
        let p = self.quadrant.from_quadrant0(self.start, (self.u, self.v));
        Some(p)
    }
}

/// The rasterized line from `start` to `end`, excluding `start` and
/// including `end`: exactly the sequence [`line_seq`], whose length is
/// `max(|dx|, |dy|)` and whose last point is `end`.
pub fn line(start: Point, end: Point) -> (r: Vec<Point>)
    requires
        -0x7fff <= pt(end).0 - pt(start).0 <= 0x7fff,
        -0x7fff <= pt(end).1 - pt(start).1 <= 0x7fff,
    ensures
        pts(r@) == line_seq(pt(start), pt(end)),
        r@.len() == line_len((pt(end).0 - pt(start).0, pt(end).1 - pt(start).1)),
        pt(start) != pt(end) ==> r@.len() > 0 && pt(r@[r@.len() - 1]) == pt(end),
        pt(start) == pt(end) ==> r@.len() == 0,
{
    let mut it = BresenhamLine::new(start, end);
    let mut out: Vec<Point> = Vec::new();
    loop
        invariant
            it.wf(),
            pts(out@) + it.remaining() == line_seq(pt(start), pt(end)),
        ensures
            pts(out@) == line_seq(pt(start), pt(end)),
        decreases it.remaining().len(),
    {
        match it.next() {
            None => {
                proof {
                    assert(pts(out@) =~= pts(out@) + Seq::<(int, int)>::empty());
                }
                break ;
            },
            Some(p) => {
                out.push(p);
                proof {
                    assert(pts(out@) + it.remaining() =~= line_seq(pt(start), pt(end)));
                }
            },
        }
    }
    proof {
        lemma_line_seq_last(pt(start), pt(end));
    }
    out
}

} // verus!

