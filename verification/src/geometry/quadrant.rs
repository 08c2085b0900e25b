//! The four-way symmetry of the grid plane.
//!
//! The coarser counterpart of [`super::octant`]: four transforms instead of
//! eight.  Two families are provided: a reflecting one, which mirrors
//! coordinates across the axes, and a rotating one, which turns the plane by
//! quarter turns and is used by circle drawing so that the two diagonal
//! halves of a quadrant are not distinguished.

use vstd::prelude::*;

verus! {

use crate::{fits_i16, pt, Point};

/// An integer tag in `[0, 4)` identifying one of the four symmetry
/// transforms of the plane.
#[derive(Clone, Copy, Debug, PartialEq, Eq, PartialOrd, Ord, Hash)]
pub struct Quadrant(pub u8);

/// The world-to-canonical reflecting transform of quadrant `q`.
pub open spec fn quadrant_to0(q: int, p: (int, int)) -> (int, int) {
    if q == 0 {
        (p.0, p.1)
    } else if q == 1 {
        (-p.0, p.1)
    } else if q == 2 {
        (-p.0, -p.1)
    } else {
        (p.0, -p.1)
    }
}

/// The canonical-to-world reflecting transform of quadrant `q`.
pub open spec fn quadrant_from0(q: int, d: (int, int)) -> (int, int) {
    if q == 0 {
        (d.0, d.1)
    } else if q == 1 {
        (-d.0, d.1)
    } else if q == 2 {
        (-d.0, -d.1)
    } else {
        (d.0, -d.1)
    }
}

/// The world-to-canonical rotating transform of quadrant `q`.
pub open spec fn quadrant_to0_rotating(q: int, p: (int, int)) -> (int, int) {
    if q == 0 {
        (p.0, p.1)
    } else if q == 1 {
        (p.1, -p.0)
    } else if q == 2 {
        (-p.0, -p.1)
    } else {
        (-p.1, p.0)
    }
}

/// The canonical-to-world rotating transform of quadrant `q`.
pub open spec fn quadrant_from0_rotating(q: int, d: (int, int)) -> (int, int) {
    if q == 0 {
        (d.0, d.1)
    } else if q == 1 {
        (-d.1, d.0)
    } else if q == 2 {
        (-d.0, -d.1)
    } else {
        (d.1, -d.0)
    }
}

/// The reflecting canonical-to-world transform applied to a displacement `d`
/// and anchored at `c`.
pub open spec fn quadrant_from0_at(c: (int, int), q: int, d: (int, int)) -> (int, int) {
    (c.0 + quadrant_from0(q, d).0, c.1 + quadrant_from0(q, d).1)
}

/// The rotating canonical-to-world transform applied to a displacement `d`
/// and anchored at `c`.
pub open spec fn quadrant_from0_rotating_at(c: (int, int), q: int, d: (int, int)) -> (int, int) {
    (c.0 + quadrant_from0_rotating(q, d).0, c.1 + quadrant_from0_rotating(q, d).1)
}

/// The reflecting quadrant decomposition of a displacement: the branch
/// structure of [`Quadrant::from_points`].
pub open spec fn quadrant_decomp(d: (int, int)) -> (int, (int, int)) {
    let (dx0, dy0, q0) = if d.1 < 0 {
        (-d.0, -d.1, 2int)
    } else {
        (d.0, d.1, 0int)
    };
    if dx0 < 0 {
        (q0 + 1, (-dx0, dy0))
    } else {
        (q0, (dx0, dy0))
    }
}

/// The rotating quadrant decomposition of a displacement: the branch
/// structure of [`Quadrant::from_points_rotating`].
pub open spec fn quadrant_decomp_rotating(d: (int, int)) -> (int, (int, int)) {
    let (dx0, dy0, q0) = if d.1 < 0 {
        (-d.0, -d.1, 2int)
    } else {
        (d.0, d.1, 0int)
    };
    if dx0 < 0 {
        (q0 + 1, (dy0, -dx0))
    } else {
        (q0, (dx0, dy0))
    }
}

/// Quadrant round trip: for every quadrant tag, each canonical-to-world
/// transform is the exact inverse of its world-to-canonical counterpart.
pub proof fn lemma_quadrant_round_trip(q: int, p: (int, int))
    requires
        0 <= q < 4,
    ensures
        quadrant_from0(q, quadrant_to0(q, p)) == p,
        quadrant_to0(q, quadrant_from0(q, p)) == p,
        quadrant_from0_rotating(q, quadrant_to0_rotating(q, p)) == p,
        quadrant_to0_rotating(q, quadrant_from0_rotating(q, p)) == p,
{
}

/// The reflecting decomposition is canonical (both components non-negative)
/// and inverts back to the original displacement.
pub proof fn lemma_quadrant_decomp(d: (int, int))
    ensures
        0 <= quadrant_decomp(d).0 < 4,
        0 <= quadrant_decomp(d).1.0,
        0 <= quadrant_decomp(d).1.1,
        quadrant_from0(quadrant_decomp(d).0, quadrant_decomp(d).1) == d,
{
}

/// The rotating decomposition is canonical and inverts back to the original
/// displacement.
pub proof fn lemma_quadrant_decomp_rotating(d: (int, int))
    ensures
        0 <= quadrant_decomp_rotating(d).0 < 4,
        0 <= quadrant_decomp_rotating(d).1.0,
        0 <= quadrant_decomp_rotating(d).1.1,
        quadrant_from0_rotating(quadrant_decomp_rotating(d).0, quadrant_decomp_rotating(d).1) == d,
{
}

impl Quadrant {
    /// Decomposes the displacement of `end` from `start` into a quadrant tag
    /// and a canonical delta with both components non-negative, using the
    /// reflecting transforms.
    pub fn from_points(start: Point, end: Point) -> (r: (Quadrant, Point))
        requires
            -0x7fff <= pt(end).0 - pt(start).0 <= 0x7fff,
            -0x7fff <= pt(end).1 - pt(start).1 <= 0x7fff,
        ensures
            r.0.0 as int == quadrant_decomp((pt(end).0 - pt(start).0, pt(end).1 - pt(start).1)).0,
            pt(r.1) == quadrant_decomp((pt(end).0 - pt(start).0, pt(end).1 - pt(start).1)).1,
    {
        let mut dx: i16 = end.0 - start.0;
        let mut dy: i16 = end.1 - start.1;

        let mut quadrant: u8 = 0;

        if dy < 0 {
            dx = -dx;
            dy = -dy;
            quadrant += 2;
        }

        if dx < 0 {
            dx = -dx;
            quadrant += 1;
        }

        (Quadrant(quadrant), (dx, dy))
    }

    /// Decomposes the displacement of `end` from `start` into a quadrant tag
    /// and a canonical delta, using the rotating transforms.
    pub fn from_points_rotating(start: Point, end: Point) -> (r: (Quadrant, Point))
        requires
            -0x7fff <= pt(end).0 - pt(start).0 <= 0x7fff,
            -0x7fff <= pt(end).1 - pt(start).1 <= 0x7fff,
        ensures
            r.0.0 as int == quadrant_decomp_rotating(
                (pt(end).0 - pt(start).0, pt(end).1 - pt(start).1),
            ).0,
            pt(r.1) == quadrant_decomp_rotating(
                (pt(end).0 - pt(start).0, pt(end).1 - pt(start).1),
            ).1,
    {
        let mut dx: i16 = end.0 - start.0;
        let mut dy: i16 = end.1 - start.1;

        let mut quadrant: u8 = 0;

        if dy < 0 {
            dx = -dx;
            dy = -dy;
            quadrant += 2;
        }

        if dx < 0 {
            let tmp = dx;
            dx = dy;
            dy = -tmp;
            quadrant += 1;
        }

        (Quadrant(quadrant), (dx, dy))
    }

    /// Maps a world-space point into this quadrant's canonical space,
    /// reflecting.
    pub fn to_quadrant0(&self, p: Point) -> (r: Point)
        requires
            self.0 < 4,
            fits_i16(quadrant_to0(self.0 as int, pt(p))),
        ensures
            pt(r) == quadrant_to0(self.0 as int, pt(p)),
    {
        let x32 = p.0 as i32;
        let y32 = p.1 as i32;
        let (rx, ry): (i32, i32) = match self.0 {
            0 => (x32, y32),
            1 => (-x32, y32),
            2 => (-x32, -y32),
            _ => (x32, -y32),
        };
        (rx as i16, ry as i16)
    }

    /// Maps a world-space point into this quadrant's canonical space,
    /// rotating.
    pub fn to_quadrant0_rotating(&self, p: Point) -> (r: Point)
        requires
            self.0 < 4,
            fits_i16(quadrant_to0_rotating(self.0 as int, pt(p))),
        ensures
            pt(r) == quadrant_to0_rotating(self.0 as int, pt(p)),
    {
        let x32 = p.0 as i32;
        let y32 = p.1 as i32;
        let (rx, ry): (i32, i32) = match self.0 {
            0 => (x32, y32),
            1 => (y32, -x32),
            2 => (-x32, -y32),
            _ => (-y32, x32),
        };
        (rx as i16, ry as i16)
    }

    /// Maps a displacement `d` out of this quadrant's canonical space,
    /// reflecting, and anchors it at `start`.
    pub fn from_quadrant0(&self, start: Point, d: Point) -> (r: Point)
        requires
            self.0 < 4,
            fits_i16(quadrant_from0_at(pt(start), self.0 as int, pt(d))),
        ensures
            pt(r) == quadrant_from0_at(pt(start), self.0 as int, pt(d)),
    {
        let d0 = d.0 as i32;
        let d1 = d.1 as i32;
        let (tx, ty): (i32, i32) = match self.0 {
            0 => (d0, d1),
            1 => (-d0, d1),
            2 => (-d0, -d1),
            _ => (d0, -d1),
        };
        let rx = start.0 as i32 + tx;
        let ry = start.1 as i32 + ty;
        (rx as i16, ry as i16)
    }

    /// Maps a displacement `d` out of this quadrant's canonical space,
    /// rotating, and anchors it at `start`.
    pub fn from_quadrant0_rotating(&self, start: Point, d: Point) -> (r: Point)
        requires
            self.0 < 4,
            fits_i16(quadrant_from0_rotating_at(pt(start), self.0 as int, pt(d))),
        ensures
            pt(r) == quadrant_from0_rotating_at(pt(start), self.0 as int, pt(d)),
    {
        let d0 = d.0 as i32;
        let d1 = d.1 as i32;
        let (tx, ty): (i32, i32) = match self.0 {
            0 => (d0, d1),
            1 => (-d1, d0),
            2 => (-d0, -d1),
            _ => (d1, -d0),
        };
        let rx = start.0 as i32 + tx;
        let ry = start.1 as i32 + ty;
        (rx as i16, ry as i16)
    }

    /// All four quadrants, in tag order.
    pub fn all() -> (r: Vec<Quadrant>)
        ensures
            r@.len() == 4,
            forall|i: int| 0 <= i < 4 ==> (#[trigger] r@[i]).0 as int == i,
    {
        let mut v: Vec<Quadrant> = Vec::new();
        let mut q: u8 = 0;
        while q < 4
            invariant
                q <= 4,
                v@.len() == q as int,
                forall|i: int| 0 <= i < q as int ==> (#[trigger] v@[i]).0 as int == i,
            decreases 4 - q as int,
        {
            v.push(Quadrant(q));
            q += 1;
        }
        v
    }
}

} // verus!
