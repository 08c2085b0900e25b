//! A concrete rectangular map, the simplest implementation of the
//! [`Map2D`](crate::fov::Map2D) capability.

use vstd::prelude::*;

verus! {

use crate::fov::Map2D;
use crate::{pt, Point};

/// A rectangular grid of cells, each either opaque or transparent.
///
/// A point is in bounds when both coordinates are non-negative and below the
/// grid's width and height; every other point is treated as opaque.
pub struct GridMap {
    width: i16,
    height: i16,
    tiles: Vec<bool>,
}

impl GridMap {
    #[verifier::type_invariant]
    spec fn inv(self) -> bool {
        &&& 0 <= self.width
        &&& 0 <= self.height
        &&& self.tiles@.len() == self.width as int * self.height as int
    }

    /// The index of an in-bounds cell in the backing row-major vector.
    pub open spec fn spec_idx(&self, p: (int, int)) -> int {
        p.1 * self.spec_width() + p.0
    }

    /// The grid's width.
    pub closed spec fn spec_width(&self) -> int {
        self.width as int
    }

    /// The grid's height.
    pub closed spec fn spec_height(&self) -> int {
        self.height as int
    }

    /// The position of an in-bounds cell in the backing vector.
    fn cell_index(&self, point: Point) -> (idx: usize)
        requires
            self.spec_is_in_bound(pt(point)),
        ensures
            idx as int == self.spec_idx(pt(point)),
            idx < self.tiles@.len(),
    {
        proof {
            use_type_invariant(self);
            lemma_row_major_index(self.spec_width(), self.spec_height(), pt(point).0, pt(point).1);
            assert(0 <= pt(point).1 * self.spec_width() && pt(point).1 * self.spec_width()
                + pt(point).0 < 0x4000_0000) by (nonlinear_arith)
                requires
                    0 <= pt(point).0 && pt(point).0 < 0x8000,
                    0 <= pt(point).1 && pt(point).1 < 0x8000,
                    0 <= self.spec_width() && self.spec_width() < 0x8000,
            {}
        }
        (point.1 as usize) * (self.width as usize) + (point.0 as usize)
    }

    /// A grid of `width` by `height` cells, each initially opaque if
    /// `opaque` is set.
    pub fn new(width: i16, height: i16, opaque: bool) -> (r: GridMap)
        requires
            0 <= width,
            0 <= height,
        ensures
            r.spec_width() == width,
            r.spec_height() == height,
            forall|p: (int, int)|
                r.spec_is_in_bound(p) ==> #[trigger] r.spec_is_opaque(p) == opaque,
    {
        proof {
            assert((width as int) * (height as int) < 0x4000_0000) by (nonlinear_arith)
                requires
                    0 <= (width as int) && (width as int) < 0x8000,
                    0 <= (height as int) && (height as int) < 0x8000,
            {}
        }
        let n: usize = (width as usize) * (height as usize);
        let mut tiles: Vec<bool> = Vec::new();
        let mut i: usize = 0;
        while i < n
            invariant
                i <= n,
                tiles@.len() == i as int,
                forall|k: int| 0 <= k < i as int ==> tiles@[k] == opaque,
            decreases n - i,
        {
            tiles.push(opaque);
            i += 1;
        }
        let m = GridMap { width, height, tiles };
        proof {
            assert forall|p: (int, int)|
                m.spec_is_in_bound(p) implies #[trigger] m.spec_is_opaque(p) == opaque by {
                lemma_row_major_index(m.spec_width(), m.spec_height(), p.0, p.1);
            }
        }
        m
    }

    /// The grid's width.
    pub fn width(&self) -> (r: i16)
        ensures
            r as int == self.spec_width(),
    {
        self.width
    }

    /// The grid's height.
    pub fn height(&self) -> (r: i16)
        ensures
            r as int == self.spec_height(),
    {
        self.height
    }

    /// Makes the cell at `point` opaque or transparent.
    pub fn set_opaque(&mut self, point: Point, opaque: bool)
        requires
            old(self).spec_is_in_bound(pt(point)),
        ensures
            final(self).spec_width() == old(self).spec_width(),
            final(self).spec_height() == old(self).spec_height(),
            final(self).spec_is_opaque(pt(point)) == opaque,
            forall|q: (int, int)|
                q != pt(point) ==> #[trigger] final(self).spec_is_opaque(q) == old(
                    self,
                ).spec_is_opaque(q),
            forall|q: (int, int)|
                #[trigger] final(self).spec_is_in_bound(q) == old(self).spec_is_in_bound(q),
    {
        proof {
            use_type_invariant(&*self);
        }
        let idx: usize = self.cell_index(point);
        self.tiles[idx] = opaque;
        proof {
            assert forall|q: (int, int)|
                q != pt(point) implies #[trigger] self.spec_is_opaque(q) == old(
                self,
            ).spec_is_opaque(q) by {
                if self.spec_is_in_bound(q) {
                    lemma_row_major_index(self.spec_width(), self.spec_height(), q.0, q.1);
                    if self.spec_idx(q) == self.spec_idx(pt(point)) {
                        lemma_row_major_injective(
                            self.spec_width(),
                            self.spec_height(),
                            q,
                            pt(point),
                        );
                    }
                }
            }
        }
    }
}

/// The row-major index of an in-bounds cell lies inside the backing vector.
proof fn lemma_row_major_index(w: int, h: int, x: int, y: int)
    by (nonlinear_arith)
    requires
        0 <= x < w,
        0 <= y < h,
    ensures
        0 <= y * w + x < w * h,
{
}

/// Row-major indexing is injective on in-bounds cells.
proof fn lemma_row_major_injective(w: int, h: int, p: (int, int), q: (int, int))
    by (nonlinear_arith)
    requires
        0 <= p.0 < w,
        0 <= p.1 < h,
        0 <= q.0 < w,
        0 <= q.1 < h,
        p.1 * w + p.0 == q.1 * w + q.0,
    ensures
        p == q,
{
}

impl Map2D for GridMap {
    /// Opaque means: out of bounds, or an opaque cell of the grid.
    closed spec fn spec_is_opaque(&self, p: (int, int)) -> bool {
        !self.spec_is_in_bound(p) || self.tiles@[self.spec_idx(p)]
    }

    open spec fn spec_is_in_bound(&self, p: (int, int)) -> bool {
        0 <= p.0 < self.spec_width() && 0 <= p.1 < self.spec_height()
    }

    fn is_opaque(&self, point: Point) -> (r: bool)
        ensures
            r == self.spec_is_opaque(pt(point)),
    {
        if point.0 >= 0 && point.0 < self.width && point.1 >= 0 && point.1 < self.height {
            let idx: usize = self.cell_index(point);
            self.tiles[idx]
        } else {
            true
        }
    }

    fn is_in_bound(&self, point: Point) -> (r: bool)
        ensures
            r == self.spec_is_in_bound(pt(point)),
    {
        point.0 >= 0 && point.0 < self.width && point.1 >= 0 && point.1 < self.height
    }
}

} // verus!
