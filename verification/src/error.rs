//! How a puzzle fails, and how its answer is stated.

use vstd::prelude::*;

verus! {

/// Why a puzzle has no answer.
#[derive(Clone, Copy, Debug, PartialEq, Eq, Structural)]
pub enum PuzzleError {
    /// The text does not have the shape that the puzzle expects.
    Malformed,
    /// The answer, or a number on the way to it, does not fit the integer
    /// type of the answer.
    Overflow,
    /// The puzzle asks for a division by zero.
    DivisionByZero,
}

/// What `r` says, its number taken as a mathematical integer.
pub open spec fn outcome(r: Result<i64, PuzzleError>) -> Result<int, PuzzleError> {
    match r {
        Ok(n) => Ok(n as int),
        Err(e) => Err(e),
    }
}

/// The answer `n` as a 64-bit signed integer: an overflow where it does not
/// fit.
pub open spec fn fit_i64(n: int) -> Result<int, PuzzleError> {
    if i64::MIN <= n <= i64::MAX {
        Ok(n)
    } else {
        Err(PuzzleError::Overflow)
    }
}

/// What `r` says, its number taken as a mathematical integer.
pub open spec fn outcome_u32(r: Result<u32, PuzzleError>) -> Result<int, PuzzleError> {
    match r {
        Ok(n) => Ok(n as int),
        Err(e) => Err(e),
    }
}

/// The answer `n` as a 32-bit unsigned integer: an overflow where it does
/// not fit.
pub open spec fn fit_u32(n: int) -> Result<int, PuzzleError> {
    if 0 <= n <= u32::MAX {
        Ok(n)
    } else {
        Err(PuzzleError::Overflow)
    }
}

} // verus!
