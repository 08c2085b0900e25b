//! Plain value types that callers attach to the entities of a game world.

use vstd::prelude::*;

verus! {

use crate::Point;

/// A world position.
#[derive(Clone, Debug)]
pub struct Position {
    pub x: i16,
    pub y: i16,
}

/// Marks the player's entity.
#[derive(Clone, Debug)]
pub struct Player {}

/// The cells an observer can currently see, together with its sight range.
#[derive(Clone, Debug)]
pub struct Viewshed {
    pub visible_tiles: Vec<Point>,
    pub range: i16,
}

} // verus!
