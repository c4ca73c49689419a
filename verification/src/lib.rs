//! A quantum-circuit simulator on a state-vector model.
//!
//! Pure quantum states are complex unit vectors and quantum operations are
//! unitary matrices acting on them by linear transformation; a final
//! measurement collapses the vector to a computational-basis outcome.
//!
//! Amplitudes are exact fixed-point complex numbers: a pair of integers, each
//! standing for `x / SCALE`. Every arithmetic step therefore has an exact
//! integer specification, and the matrix and circuit algebra is verified
//! against it. The only nondeterminism is the random draw used by
//! measurement, which is taken from the `rand` crate behind a trusted
//! wrapper; everything after the draw is verified for every drawn value.

use vstd::prelude::*;

pub mod bits;
pub mod circuit;
pub mod circuitry;
pub mod gate;
pub mod matrix;
pub mod unitary;
pub mod phase;
pub mod qubit;
pub mod register;
pub mod rng;
pub mod scalar;
pub mod shor;

verus! {

/// The ways a simulator operation can fail.
///
/// Shape mismatches are excluded by preconditions; these are the failures
/// that depend on computed values.
#[derive(Clone, Copy, Debug, PartialEq, Eq, Structural)]
pub enum QError {
    /// A computed component left the stored-component bound.
    Overflow,
    /// Input data did not satisfy the constructor's shape rules.
    Malformed,
    /// A mapping supposed to be a permutation repeated a target.
    NotPermutation,
    /// A matrix expected to be unitary failed the unitarity check.
    NotUnitary,
    /// A vector to be normalized had zero norm.
    ZeroNorm,
    /// No base coprime with the modulus exists.
    NoCoprime,
    /// The requested size exceeds what the simulator supports.
    TooLarge,
}

} // verus!
