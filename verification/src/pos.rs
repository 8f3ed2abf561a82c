//! The 2D integer coordinate that keys the adventure graph.

use vstd::prelude::*;

verus! {

/// An ordered pair of signed integers, used as the unique lookup key of the
/// adventure graph. No bounds are enforced: coordinates may be negative or
/// sparse.
#[derive(Clone, Copy, Debug, PartialEq, Eq, Hash, Structural)]
pub struct Pos {
    pub x: i32,
    pub y: i32,
}

impl Pos {
    pub fn new(x: i32, y: i32) -> (p: Pos)
        ensures
            p.x == x,
            p.y == y,
    {
        Pos { x, y }
    }
}

} // verus!
