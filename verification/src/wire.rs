//! The wire form of a ciphertext polynomial: each of the `N`
//! coefficients, reduced into `[0, Q)`, written in 7 bits (the width of
//! `Q`), most significant coefficient bit first, padded with zero bits to
//! whole bytes. Eight coefficients make one 56-bit group, which is the
//! same 56 bits as seven wire bytes; the contracts pin every byte and
//! every parsed coefficient through these group values.

use vstd::prelude::*;
use crate::convolution_polynomial::ConvPoly;
use crate::errors::NtruError;
use crate::params::{N, Q};
use crate::poly_specs::{coeff, reduced};

verus! {

/// The number of bytes that carry the `7 * N` coefficient bits.
pub const WIRE_BYTES: usize = 147;

/// The value of coefficient group `g`: the eight coefficients at
/// `8g .. 8g+8` (zero beyond the stored length), each 7 bits wide, read
/// as one 56-bit number with the lowest index most significant.
pub open spec fn group_val(s: Seq<i64>, g: int) -> int {
    coeff(s, 8 * g) * 0x2_0000_0000_0000 + coeff(s, 8 * g + 1) * 0x400_0000_0000 + coeff(
        s,
        8 * g + 2,
    ) * 0x8_0000_0000 + coeff(s, 8 * g + 3) * 0x1000_0000 + coeff(s, 8 * g + 4) * 0x20_0000
        + coeff(s, 8 * g + 5) * 0x4000 + coeff(s, 8 * g + 6) * 0x80 + coeff(s, 8 * g + 7)
}

/// Byte `j` (0 through 6) of a 56-bit group value, most significant
/// byte first.
pub open spec fn byte_of_group(v: int, j: int) -> int {
    if j == 0 {
        (v / 0x1_0000_0000_0000) % 256
    } else if j == 1 {
        (v / 0x100_0000_0000) % 256
    } else if j == 2 {
        (v / 0x1_0000_0000) % 256
    } else if j == 3 {
        (v / 0x100_0000) % 256
    } else if j == 4 {
        (v / 0x1_0000) % 256
    } else if j == 5 {
        (v / 0x100) % 256
    } else {
        v % 256
    }
}

/// Byte `t` of a byte string, read as an integer; zero beyond the
/// length.
pub open spec fn byte_sp(b: Seq<u8>, t: int) -> int {
    if 0 <= t < b.len() {
        b[t] as int
    } else {
        0
    }
}

/// The value of byte group `g` of a wire string: the seven bytes at
/// `7g .. 7g+7` read as one 56-bit number, most significant first.
pub open spec fn word_val(b: Seq<u8>, g: int) -> int {
    byte_sp(b, 7 * g) * 0x1_0000_0000_0000 + byte_sp(b, 7 * g + 1) * 0x100_0000_0000 + byte_sp(
        b,
        7 * g + 2,
    ) * 0x1_0000_0000 + byte_sp(b, 7 * g + 3) * 0x100_0000 + byte_sp(b, 7 * g + 4) * 0x1_0000
        + byte_sp(b, 7 * g + 5) * 0x100 + byte_sp(b, 7 * g + 6)
}

/// Coefficient `i` (0 through 7) of a 56-bit group value: its 7-bit
/// field, most significant field first.
pub open spec fn coeff_of_group(w: int, i: int) -> int {
    if i == 0 {
        (w / 0x2_0000_0000_0000) % 128
    } else if i == 1 {
        (w / 0x400_0000_0000) % 128
    } else if i == 2 {
        (w / 0x8_0000_0000) % 128
    } else if i == 3 {
        (w / 0x1000_0000) % 128
    } else if i == 4 {
        (w / 0x20_0000) % 128
    } else if i == 5 {
        (w / 0x4000) % 128
    } else if i == 6 {
        (w / 0x80) % 128
    } else {
        w % 128
    }
}

impl ConvPoly {
    /// The 56-bit value of coefficient group `g`.
    fn group_value(&self, g: usize) -> (v: u64)
        requires
            reduced(self@, Q as int),
            self@.len() <= N,
            g <= 20,
        ensures
            v as int == group_val(self@, g as int),
            v < 0x100_0000_0000_0000,
    {
        let c0 = self.coeff_at(8 * g) as u64;
        let c1 = self.coeff_at(8 * g + 1) as u64;
        let c2 = self.coeff_at(8 * g + 2) as u64;
        let c3 = self.coeff_at(8 * g + 3) as u64;
        let c4 = self.coeff_at(8 * g + 4) as u64;
        let c5 = self.coeff_at(8 * g + 5) as u64;
        let c6 = self.coeff_at(8 * g + 6) as u64;
        let c7 = self.coeff_at(8 * g + 7) as u64;
        c0 * 0x2_0000_0000_0000 + c1 * 0x400_0000_0000 + c2 * 0x8_0000_0000 + c3 * 0x1000_0000
            + c4 * 0x20_0000 + c5 * 0x4000 + c6 * 0x80 + c7
    }

    /// Packs the first `N` coefficients (zero beyond the stored length)
    /// into the big-endian 7-bit wire form: byte `t` is byte `t % 7` of
    /// the 56-bit value of coefficient group `t / 7`.
    pub fn to_be_bytes(&self) -> (r: Vec<u8>)
        requires
            reduced(self@, Q as int),
            self@.len() <= N,
        ensures
            r@.len() == WIRE_BYTES,
            forall|t: int|
                0 <= t < WIRE_BYTES ==> (#[trigger] (r@[t] as int)) == byte_of_group(
                    group_val(self@, t / 7),
                    t % 7,
                ),
    {
        let mut out: Vec<u8> = Vec::new();
        let mut t: usize = 0;
        while t < WIRE_BYTES
            invariant
                0 <= t <= 147,
                reduced(self@, Q as int),
                self@.len() <= N,
                out@.len() == t,
                forall|u: int|
                    0 <= u < t ==> (#[trigger] (out@[u] as int)) == byte_of_group(
                        group_val(self@, u / 7),
                        u % 7,
                    ),
            decreases 147 - t,
        {
            let g = t / 7;
            let j = t % 7;
            let v = self.group_value(g);
            let byte: u64 = if j == 0 {
                (v / 0x1_0000_0000_0000) % 256
            } else if j == 1 {
                (v / 0x100_0000_0000) % 256
            } else if j == 2 {
                (v / 0x1_0000_0000) % 256
            } else if j == 3 {
                (v / 0x100_0000) % 256
            } else if j == 4 {
                (v / 0x1_0000) % 256
            } else if j == 5 {
                (v / 0x100) % 256
            } else {
                v % 256
            };
            out.push(byte as u8);
            t += 1;
        }
        out
    }

    /// The 56-bit value of byte group `g` of the input.
    fn word_value(bytes: &Vec<u8>, g: usize) -> (w: u64)
        requires
            bytes@.len() >= 147,
            g <= 20,
        ensures
            w as int == word_val(bytes@, g as int),
            w < 0x100_0000_0000_0000,
    {
        let b0 = bytes[7 * g] as u64;
        let b1 = bytes[7 * g + 1] as u64;
        let b2 = bytes[7 * g + 2] as u64;
        let b3 = bytes[7 * g + 3] as u64;
        let b4 = bytes[7 * g + 4] as u64;
        let b5 = bytes[7 * g + 5] as u64;
        let b6 = bytes[7 * g + 6] as u64;
        b0 * 0x1_0000_0000_0000 + b1 * 0x100_0000_0000 + b2 * 0x1_0000_0000 + b3 * 0x100_0000 + b4
            * 0x1_0000 + b5 * 0x100 + b6
    }

    /// Parses `N` coefficients from the prefix of a byte string in the
    /// 7-bit wire form: coefficient `i` is 7-bit field `i % 8` of the
    /// 56-bit value of byte group `i / 8`. Fails with `Malformed` when
    /// the buffer is too short.
    pub fn from_be_bytes(bytes: &Vec<u8>) -> (res: Result<ConvPoly, NtruError>)
        ensures
            res is Err <==> bytes@.len() < WIRE_BYTES,
            match res {
                Ok(p) => p@.len() == N && reduced(p@, Q as int) && (forall|i: int|
                    0 <= i < N ==> (#[trigger] (p@[i] as int)) == coeff_of_group(
                        word_val(bytes@, i / 8),
                        i % 8,
                    )),
                Err(e) => e == NtruError::Malformed,
            },
    {
        if bytes.len() < WIRE_BYTES {
            return Err(NtruError::Malformed);
        }
        let mut v: Vec<i64> = Vec::new();
        let mut i: usize = 0;
        while i < N
            invariant
                0 <= i <= 167,
                bytes@.len() >= 147,
                v@.len() == i,
                forall|u: int|
                    0 <= u < i ==> (#[trigger] (v@[u] as int)) == coeff_of_group(
                        word_val(bytes@, u / 8),
                        u % 8,
                    ),
                forall|u: int| 0 <= u < i ==> 0 <= #[trigger] (v@[u] as int) < Q,
            decreases 167 - i,
        {
            let g = i / 8;
            let k = i % 8;
            let w = Self::word_value(bytes, g);
            let c: u64 = if k == 0 {
                (w / 0x2_0000_0000_0000) % 128
            } else if k == 1 {
                (w / 0x400_0000_0000) % 128
            } else if k == 2 {
                (w / 0x8_0000_0000) % 128
            } else if k == 3 {
                (w / 0x1000_0000) % 128
            } else if k == 4 {
                (w / 0x20_0000) % 128
            } else if k == 5 {
                (w / 0x4000) % 128
            } else if k == 6 {
                (w / 0x80) % 128
            } else {
                w % 128
            };
            v.push(c as i64);
            i += 1;
        }
        Ok(ConvPoly { coeffs: v })
    }
}

} // verus!
