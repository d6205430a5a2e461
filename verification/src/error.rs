use vstd::prelude::*;

verus! {

/// The locally recoverable failures of puzzle and rule construction.
/// A contradiction found while solving is not an error: the solver
/// reports it as an outcome.
#[derive(Clone, Copy, PartialEq, Eq, Structural, Debug)]
pub enum Error {
    /// Zero rows or zero columns were requested for a grid.
    InvalidDimensions,
    /// The cell count handed to a grid does not equal rows times columns.
    SizeMismatch,
    /// A position lies outside the grid.
    OutOfBounds,
    /// A run with length zero or without an actual color.
    InvalidRun,
    /// A rule whose runs cannot fit its line even when packed tightly.
    InfeasibleRule,
}

} // verus!
