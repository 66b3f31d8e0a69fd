//! The fixed NTRU parameter set.
//!
//! `N` is prime; `P` and `Q` are coprime moduli with `Q` much larger than
//! `P`; `D` is the sampling weight of the ternary key polynomials.

use vstd::prelude::*;

verus! {

/// Ring dimension: polynomials live in `Z[x]/(x^N - 1)`.
pub const N: usize = 167;

/// The small modulus of the plaintext ring `R_p`.
pub const P: i64 = 3;

/// The large modulus of the ciphertext ring `R_q` (a power of 2).
pub const Q: i64 = 128;

/// Hamming weight of the sampled ternary polynomials.
pub const D: usize = 18;

} // verus!
