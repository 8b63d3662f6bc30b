//! Orientation of a component on the grid.

use vstd::prelude::*;

verus! {

/// The side towards which a component's output points.
#[derive(Clone, Copy, Debug, PartialEq, Eq, Structural)]
pub enum Direction {
    East,
    West,
    South,
    North,
}

} // verus!
