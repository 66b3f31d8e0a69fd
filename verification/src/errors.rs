//! The error taxonomy of the NTRU engine.

use vstd::prelude::*;

verus! {

/// Errors surfaced by the arithmetic layers and the NTRU primitives.
#[derive(Clone, Copy, Debug, PartialEq, Eq, Structural)]
pub enum NtruError {
    /// A caller precondition was violated: the message is too long for the
    /// ring, or a sampling weight exceeds the polynomial length.
    InvalidInput,
    /// The requested modular or polynomial inverse does not exist.
    NoInverse,
    /// Polynomial division by the zero polynomial.
    DivByZero,
    /// A byte string too short to hold the wire form of a polynomial.
    Malformed,
}

} // verus!
