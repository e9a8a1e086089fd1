//! The node type searched over by the A* engine.

use vstd::prelude::*;

verus! {

/// A point of the search space: a cell of a two-dimensional integer grid.
///
/// The engine never interprets the coordinates; it only compares nodes for
/// equality. The grid cartographers interpret them as positions.
#[derive(Clone, Copy, Debug, PartialEq, Eq, Structural, Hash)]
pub struct Node {
    pub x: i64,
    pub y: i64,
}

impl Node {
    /// Builds the node with the given coordinates
    pub fn new(x: i64, y: i64) -> (r: Node)
        ensures
            r == (Node { x, y }),
    {
        Node { x, y }
    }
}

} // verus!
