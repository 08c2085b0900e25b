//! Grid field-of-view algorithms for roguelike maps.
//!
//! The crate computes, from an observer's integer coordinate and a numeric
//! range, the set of grid cells visible to that observer.  A map is anything
//! that can answer an opacity query and a bounds query (the [`fov::Map2D`]
//! trait).  Two independent visibility algorithms are provided, brute-force
//! ray casting and recursive shadow casting, together with the integer
//! rasterization primitives (Bresenham lines and circles, octant and quadrant
//! symmetry reduction) that they are built on.

pub mod components;
pub mod fov;
pub mod geometry;
pub mod rect;

use vstd::prelude::*;

verus! {

/// A grid coordinate: an ordered pair of signed integer coordinates.
pub type Point = (i16, i16);

/// The mathematical value of a point, as a pair of unbounded integers.
pub open spec fn pt(p: Point) -> (int, int) {
    (p.0 as int, p.1 as int)
}

/// Whether an unbounded integer pair is representable as a `Point`.
pub open spec fn fits_i16(p: (int, int)) -> bool {
    &&& i16::MIN <= p.0 <= i16::MAX
    &&& i16::MIN <= p.1 <= i16::MAX
}

/// The sequence of mathematical values of a sequence of points.
pub open spec fn pts(s: Seq<Point>) -> Seq<(int, int)> {
    s.map_values(|p: Point| pt(p))
}

} // verus!
