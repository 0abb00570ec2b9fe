//! Errors that the distribution plans report.
use vstd::prelude::*;

verus! {

/// Why a matrix operation or a distribution plan was refused.
#[derive(Debug, Clone, Copy, PartialEq, Eq, Structural)]
pub enum AlgError {
    /// The inner dimensions of a product do not agree.
    DimensionMismatch,
    /// Cannon's algorithm needs a perfect square number of processes.
    NotPerfectSquare { size: usize },
    /// Cannon's algorithm needs square matrices of one size.
    NotSquareMatrices,
    /// The matrix side is not a multiple of the process grid side.
    NotDivisible,
    /// Fox's algorithm needs a square matrix, `q * q` processes and a side
    /// divisible by `q`.
    FoxRequirements,
    /// A rank sent a piece of the wrong length.
    WrongPieceLength { rank: usize, got: usize, expected: usize },
}

} // verus!
