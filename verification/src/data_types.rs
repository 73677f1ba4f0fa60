//! Plain data carriers shared with entity implementations.

use vstd::prelude::*;

verus! {

/// A world-space position, in integer world units.
pub struct Transform {
    pub position: (i64, i64),
}

impl Transform {
    /// A transform at `(x, y)`.
    pub fn new(x: i64, y: i64) -> (t: Transform)
        ensures
            t.position == (x, y),
    {
        Transform { position: (x, y) }
    }
}

} // verus!
