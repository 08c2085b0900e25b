//! Field-of-view algorithms.
//!
//! Both algorithms see the map only through the [`Map2D`] capability: an
//! opacity query and a bounds query.  They never mutate a map and hold no
//! state across calls.

pub mod grid_map;
pub mod ray_casting;
pub mod shadow_casting;

pub use grid_map::GridMap;
pub use ray_casting::ray_casting_fov;
pub use shadow_casting::shadow_casting_fov;

use vstd::prelude::*;

verus! {

use crate::{pt, Point};

/// The narrow capability the visibility algorithms require from a map: a
/// pure opacity query and a pure bounds query.
///
/// The two spec functions are the mathematical content of the queries; each
/// executable query must return exactly its spec function's value, so that
/// callers can reason about visibility in terms of the abstract map.
pub trait Map2D {
    /// Which cells block line of sight, as a predicate on unbounded pairs.
    spec fn spec_is_opaque(&self, p: (int, int)) -> bool;

    /// Which cells are valid indexes into the map, as a predicate on
    /// unbounded pairs.
    spec fn spec_is_in_bound(&self, p: (int, int)) -> bool;

    /// Whether the cell at `point` blocks line of sight.  Callers only ask
    /// this of points they have already validated with [`Self::is_in_bound`].
    fn is_opaque(&self, point: Point) -> (r: bool)
        ensures
            r == self.spec_is_opaque(pt(point)),
    ;

    /// Whether `point` is a valid index into the map.
    fn is_in_bound(&self, point: Point) -> (r: bool)
        ensures
            r == self.spec_is_in_bound(pt(point)),
    ;
}

} // verus!
