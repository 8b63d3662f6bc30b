//! Why a schematic cannot be resolved.

use vstd::prelude::*;
use crate::types::Coordinate;

verus! {

/// The ways in which a resolution pass fails. Every failure ends the whole
/// pass: no partial netlist is produced.
#[derive(Clone, Copy, Debug, PartialEq, Eq, Structural)]
pub enum CircError {
    /// A component name outside the closed set. The number is the position
    /// of the offending element among the children of the circuit.
    UnsupportedComponentType(usize),
    /// A facing other than north, south, west or none at all, on the
    /// component placed at the coordinate.
    UnsupportedOrientation(Coordinate),
    /// The component placed at the coordinate has no wire at its own
    /// coordinate.
    NoWireAtComponent(Coordinate),
    /// A wire leads to the coordinate, which is neither a pin nor the end of
    /// a further wire.
    DanglingRoute(Coordinate),
    /// A coordinate text that does not write two numbers. The number is the
    /// position of the offending element among the children of the circuit.
    MalformedCoordinate(usize),
    /// The input count of the component placed at the coordinate does not
    /// write a number.
    MalformedInputCount(Coordinate),
    /// A pin of the component placed at the coordinate would lie outside
    /// the grid.
    PinOffGrid(Coordinate),
    /// The document is not well-formed markup, or lacks an element or an
    /// attribute that a schematic must have.
    MalformedDocument,
}

} // verus!
