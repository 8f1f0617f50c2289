use vstd::prelude::*;

verus! {

/// Why an operation on the simulation was refused.
#[derive(Debug, Clone, Copy, PartialEq, Eq, Structural)]
pub enum GameError {
    /// A grid needs at least one row and one column.
    InvalidDimension,
    /// The requested population is larger than the number of cells.
    InvalidDensity,
    /// The coordinate does not name a cell of the grid.
    OutOfBounds,
}

} // verus!
