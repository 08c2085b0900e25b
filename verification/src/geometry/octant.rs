//! The eight reflective/rotational symmetries of the grid plane.
//!
//! Every direction of the plane can be mapped into the canonical first
//! octant (`0 <= dy <= dx`) by one of eight coordinate transforms; running a
//! rasterization algorithm once in canonical space and transforming back
//! covers all eight directions.

use vstd::prelude::*;

verus! {

use crate::{fits_i16, pt, Point};

/// An integer tag in `[0, 8)` identifying one of the eight symmetry
/// transforms of the plane.
#[derive(Clone, Copy, Debug, PartialEq, Eq, PartialOrd, Ord, Hash)]
pub struct Octant(pub u8);

/// The world-to-canonical transform of octant `oct`, on unbounded pairs.
pub open spec fn octant_to0(oct: int, p: (int, int)) -> (int, int) {
    if oct == 0 {
        (p.0, p.1)
    } else if oct == 1 {
        (p.1, p.0)
    } else if oct == 2 {
        (p.1, -p.0)
    } else if oct == 3 {
        (-p.0, p.1)
    } else if oct == 4 {
        (-p.0, -p.1)
    } else if oct == 5 {
        (-p.1, -p.0)
    } else if oct == 6 {
        (-p.1, p.0)
    } else {
        (p.0, -p.1)
    }
}

/// The canonical-to-world transform of octant `oct`, on unbounded pairs.
pub open spec fn octant_from0(oct: int, d: (int, int)) -> (int, int) {
    if oct == 0 {
        (d.0, d.1)
    } else if oct == 1 {
        (d.1, d.0)
    } else if oct == 2 {
        (-d.1, d.0)
    } else if oct == 3 {
        (-d.0, d.1)
    } else if oct == 4 {
        (-d.0, -d.1)
    } else if oct == 5 {
        (-d.1, -d.0)
    } else if oct == 6 {
        (d.1, -d.0)
    } else {
        (d.0, -d.1)
    }
}

/// The canonical-to-world transform of octant `oct` applied to a displacement
/// `d`, translated to the origin `c`.
pub open spec fn octant_from0_at(c: (int, int), oct: int, d: (int, int)) -> (int, int) {
    (c.0 + octant_from0(oct, d).0, c.1 + octant_from0(oct, d).1)
}

/// The octant decomposition of a displacement: the branch structure of
/// [`Octant::from_points`], with ties kept in the lower-numbered octant.
pub open spec fn octant_decomp(d: (int, int)) -> (int, (int, int)) {
    let (dx0, dy0, o0) = if d.1 < 0 {
        (-d.0, -d.1, 4int)
    } else {
        (d.0, d.1, 0int)
    };
    let (dx1, dy1, o1) = if dx0 < 0 {
        (dy0, -dx0, o0 + 2)
    } else {
        (dx0, dy0, o0)
    };
    if dx1 < dy1 {
        (o1 + 1, (dy1, dx1))
    } else {
        (o1, (dx1, dy1))
    }
}

/// Octant round trip: for every octant tag, the canonical-to-world transform
/// and the world-to-canonical transform are exact inverses of one another.
pub proof fn lemma_octant_round_trip(oct: int, p: (int, int))
    requires
        0 <= oct < 8,
    ensures
        octant_from0(oct, octant_to0(oct, p)) == p,
        octant_to0(oct, octant_from0(oct, p)) == p,
{
}

/// The octant decomposition is canonical and inverts back to the original
/// displacement.
pub proof fn lemma_octant_decomp(d: (int, int))
    ensures
        0 <= octant_decomp(d).0 < 8,
        0 <= octant_decomp(d).1.1 <= octant_decomp(d).1.0,
        octant_from0(octant_decomp(d).0, octant_decomp(d).1) == d,
{
}

impl Octant {
    /// Decomposes the displacement of `end` from `start` into the unique
    /// octant in which it becomes a canonical delta `(dx, dy)` with
    /// `0 <= dy <= dx`.
    pub fn from_points(start: Point, end: Point) -> (r: (Octant, Point))
        requires
            -0x7fff <= pt(end).0 - pt(start).0 <= 0x7fff,
            -0x7fff <= pt(end).1 - pt(start).1 <= 0x7fff,
        ensures
            r.0.0 as int == octant_decomp((pt(end).0 - pt(start).0, pt(end).1 - pt(start).1)).0,
            pt(r.1) == octant_decomp((pt(end).0 - pt(start).0, pt(end).1 - pt(start).1)).1,
    {
        let mut dx: i16 = end.0 - start.0;
        let mut dy: i16 = end.1 - start.1;

        let mut octant: u8 = 0;

        if dy < 0 {
            dx = -dx;
            dy = -dy;
            octant += 4;
        }

        if dx < 0 {
            let tmp = dx;
            dx = dy;
            dy = -tmp;
            octant += 2;
        }

        if dx < dy {
            let tmp = dx;
            dx = dy;
            dy = tmp;
            octant += 1;
        }

        (Octant(octant), (dx, dy))
    }

    /// Maps a world-space point into this octant's canonical space.
    pub fn to_octant0(&self, p: Point) -> (r: Point)
        requires
            self.0 < 8,
            fits_i16(octant_to0(self.0 as int, pt(p))),
        ensures
            pt(r) == octant_to0(self.0 as int, pt(p)),
    {
        let x32 = p.0 as i32;
        let y32 = p.1 as i32;
        let (rx, ry): (i32, i32) = match self.0 {
            0 => (x32, y32),
            1 => (y32, x32),
            2 => (y32, -x32),
            3 => (-x32, y32),
            4 => (-x32, -y32),
            5 => (-y32, -x32),
            6 => (-y32, x32),
            _ => (x32, -y32),
        };
        (rx as i16, ry as i16)
    }

    /// Maps a displacement `d` out of this octant's canonical space and
    /// anchors it at `start`.
    pub fn from_octant0(&self, start: Point, d: Point) -> (r: Point)
        requires
            self.0 < 8,
            fits_i16(octant_from0_at(pt(start), self.0 as int, pt(d))),
        ensures
            pt(r) == octant_from0_at(pt(start), self.0 as int, pt(d)),
    {
        let d0 = d.0 as i32;
        let d1 = d.1 as i32;
        let (tx, ty): (i32, i32) = match self.0 {
            0 => (d0, d1),
            1 => (d1, d0),
            2 => (-d1, d0),
            3 => (-d0, d1),
            4 => (-d0, -d1),
            5 => (-d1, -d0),
            6 => (d1, -d0),
            _ => (d0, -d1),
        };
        let rx = start.0 as i32 + tx;
        let ry = start.1 as i32 + ty;
        (rx as i16, ry as i16)
    }

    /// All eight octants, in tag order.
    pub fn all() -> (r: Vec<Octant>)
        ensures
            r@.len() == 8,
            forall|i: int| 0 <= i < 8 ==> (#[trigger] r@[i]).0 as int == i,
    {
        let mut v: Vec<Octant> = Vec::new();
        let mut o: u8 = 0;
        while o < 8
            invariant
                o <= 8,
                v@.len() == o as int,
                forall|i: int| 0 <= i < o as int ==> (#[trigger] v@[i]).0 as int == i,
            decreases 8 - o as int,
        {
            v.push(Octant(o));
            o += 1;
        }
        v
    }
}

} // verus!
