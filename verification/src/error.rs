//! Failure conditions of the exact-arithmetic core.
//!
//! Every failure is immediate and synchronous: the operation that detects it
//! returns the condition to its caller instead of panicking, and no partial
//! result is produced.

use vstd::prelude::*;

verus! {

/// The conditions under which an operation of this crate refuses an input.
#[derive(Clone, Copy, Debug, PartialEq, Eq, Structural)]
pub enum MathError {
    /// A rational was constructed, or a division requested, with a zero
    /// denominator.
    DivisionByZero,
    /// An exact integer or rational root extraction did not land on an exact
    /// value: the true root is irrational and cannot be represented.
    IrrationalResult,
    /// Solving of a degree-three-or-higher polynomial was requested while an
    /// extreme coefficient is not an integer.
    NotNormalized,
    /// The polynomial's degree has no closed form or search path.
    UnsupportedDegree,
    /// An exponent was negative where a non-negative one is required.
    NonNegativeExponentRequired,
    /// A result's reduced numerator or denominator does not fit the
    /// fixed-width representation.
    Overflow,
}

} // verus!
