//! Plain integer vectors standing for the engine's `IVec2` and `I64Vec2`.

use vstd::prelude::*;

verus! {

/// A pair of 32-bit integers, such as a chunk position.
#[derive(Debug, Default, Clone, Copy, PartialEq, Eq, Structural, Hash)]
pub struct IVec2 {
    pub x: i32,
    pub y: i32,
}

impl IVec2 {
    pub fn new(x: i32, y: i32) -> (r: IVec2)
        ensures
            r.x == x,
            r.y == y,
    {
        IVec2 { x, y }
    }
}

/// A pair of 64-bit integers, such as a tile position in the world.
#[derive(Debug, Default, Clone, Copy, PartialEq, Eq, Structural, Hash)]
pub struct I64Vec2 {
    pub x: i64,
    pub y: i64,
}

impl I64Vec2 {
    pub fn new(x: i64, y: i64) -> (r: I64Vec2)
        ensures
            r.x == x,
            r.y == y,
    {
        I64Vec2 { x, y }
    }
}

} // verus!
