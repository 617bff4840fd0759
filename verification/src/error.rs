//! The ways in which an operation of this crate can fail.
use vstd::prelude::*;

verus! {

#[derive(Clone, Copy, Debug, PartialEq, Eq, Structural)]
pub enum Error {
    /// A matrix operation met operands whose shapes do not fit it.
    DimensionMismatch,
    /// A layer sequence with fewer than two layers.
    InvalidGenome,
    /// Selection on a population without positive total fitness.
    EmptyPopulationSelection,
}

} // verus!
