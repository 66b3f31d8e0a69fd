//! NTRU public-key encryption over the truncated polynomial ring
//! `Z[x]/(x^N - 1)` and its quotients modulo small integers.
//!
//! The crate is layered: integer helpers (`arith`), the convolution
//! polynomial algebra (`convolution_polynomial`) modelled by the spec
//! functions of `poly_specs`, message serialization (`ntru_util`), the
//! byte wire form of a ciphertext (`wire`), and the NTRU key generation,
//! encryption and decryption primitives (`ntru_key`). The fixed
//! parameter set lives in `params`.

pub mod arith;
pub mod convolution_polynomial;
pub mod errors;
pub mod ntru_key;
pub mod ntru_util;
pub mod params;
pub mod poly_specs;
pub mod wire;

use vstd::prelude::*;

verus! {

/// The centered representative of `a` modulo `m`: the value congruent to
/// `a` that lies in `[-m/2, m/2]` (integer division, so the upper bound is
/// `(m-1)/2` for odd `m`).
pub open spec fn center_lift_spec(a: int, m: int) -> int
    recommends
        m >= 1,
{
    let r0 = a % m;
    if r0 > m / 2 {
        r0 - m
    } else {
        r0
    }
}

} // verus!
