//! An axis-aligned rectangle of grid cells, used by map generators to carve
//! rooms.

use vstd::prelude::*;

verus! {

use crate::Point;

/// Halving with truncation towards zero, as machine division rounds.
pub open spec fn half_trunc(n: int) -> int {
    if n >= 0 {
        n / 2
    } else {
        -((-n) / 2)
    }
}

/// A rectangle spanning columns `x1..=x2` and rows `y1..=y2`.
#[derive(Clone, Debug, Eq, PartialEq)]
pub struct Rect {
    pub x1: i16,
    pub x2: i16,
    pub y1: i16,
    pub y2: i16,
}

impl Rect {
    /// A rectangle with corner `(x, y)`, width `w` and height `h`.
    pub fn new(x: i16, y: i16, w: i16, h: i16) -> (r: Rect)
        requires
            i16::MIN <= x + w <= i16::MAX,
            i16::MIN <= y + h <= i16::MAX,
        ensures
            r.x1 == x,
            r.y1 == y,
            r.x2 as int == x + w,
            r.y2 as int == y + h,
    {
        Rect { x1: x, y1: y, x2: x + w, y2: y + h }
    }

    /// Whether this rectangle and `other` overlap (touching edges count).
    pub fn intersect(&self, other: &Rect) -> (r: bool)
        ensures
            r == (self.x1 <= other.x2 && self.x2 >= other.x1 && self.y1 <= other.y2
                && self.y2 >= other.y1),
    {
        self.x1 <= other.x2 && self.x2 >= other.x1 && self.y1 <= other.y2 && self.y2 >= other.y1
    }

    /// The centre cell of the rectangle, rounding towards zero.
    pub fn center(&self) -> (r: Point)
        ensures
            r.0 as int == half_trunc(self.x1 + self.x2),
            r.1 as int == half_trunc(self.y1 + self.y2),
    {
        let cx = (self.x1 as i32 + self.x2 as i32) / 2;
        let cy = (self.y1 as i32 + self.y2 as i32) / 2;
        (cx as i16, cy as i16)
    }
}

} // verus!
