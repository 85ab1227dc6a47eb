//! The ways in which an operation of this crate can refuse its input.
use vstd::prelude::*;

verus! {

/// Why an operation refused its input.
#[derive(Debug, Clone, Copy, PartialEq, Eq, Structural)]
pub enum GeohashError {
    /// A code holds a character that is not one of the 32 symbols.
    InvalidSymbol,
    /// A code or a requested precision is longer than `MAX_PRECISION` symbols.
    InvalidPrecision,
}

} // verus!
