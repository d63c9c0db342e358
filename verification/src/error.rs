//! The ways an operation of this library can be refused.

use vstd::prelude::*;

verus! {

/// Why an operation was refused.
#[derive(Clone, Copy, Debug, PartialEq, Eq, Structural)]
pub enum MathError {
    /// Two operands were built against different transform contexts.
    ConfigurationMismatch,
    /// A representation-specific accessor was used in the other representation.
    InvalidState,
    /// A ring degree has no root of unity under the configured modulus, or
    /// a sequence's length differs from the ring degree.
    ConstructionError,
    /// A modular inverse was asked of a value that is not coprime with
    /// the modulus.
    NoInverseExists,
}

} // verus!
