//! NTRU key generation, encryption and decryption over the fixed
//! parameter set `(N, P, Q, D)`.

use vstd::prelude::*;
use vstd::arithmetic::div_mod::lemma_fundamental_div_mod;
use crate::convolution_polynomial::{ternary_polynomial, ConvPoly};
use crate::errors::NtruError;
use crate::ntru_util::{byte_at, deserialize, serialize, serialize_spec};
use crate::params::{D, N, P, Q};
use crate::poly_specs::{
    add_seq, canonical, center_seq, coeff, count_of, lemma_conv_monomial, lemma_fold_short,
    lemma_mod_add_zero, lemma_mod_diff, lemma_mod_mul_zero, lemma_mul_seq_coeff,
    lemma_ring_mul_coeff, lemma_trim_spec, mod_seq, mul_seq, reduced, ring_mul, ring_one_product,
    trim_spec, zero_poly,
};

verus! {

/// `r` is a ternary polynomial of length `N` with exactly `np`
/// coefficients `1` and `nn` coefficients `-1` — the set `T(np, nn)`.
pub open spec fn is_ternary(r: Seq<i64>, np: int, nn: int) -> bool {
    r.len() == N && count_of(r, 1i64) == np && count_of(r, -1i64) == nn && (forall|i: int|
        0 <= i < r.len() ==> -1 <= #[trigger] (r[i] as int) <= 1)
}

/// `f` has an inverse in `R_q`.
pub open spec fn invertible_in_rq(f: Seq<i64>) -> bool {
    exists|fi: Seq<i64>| #[trigger] ring_one_product(f, fi, Q as int, N as int)
}

/// The public polynomial `h` is a product `f^-1 * g` in `R_q`, reduced
/// into `[0, Q)`: the relation between the two halves of a key pair.
pub open spec fn h_matches(h: Seq<i64>, f: Seq<i64>, g: Seq<i64>) -> bool {
    exists|fi: Seq<i64>|
        #[trigger] ring_one_product(f, fi, Q as int, N as int) && (forall|j: int|
            #[trigger] coeff(h, j) == coeff(ring_mul(fi, g, N as int), j) % (Q as int))
}

/// The ciphertext equation: `e` is congruent, coefficient by coefficient
/// modulo `Q`, to `serialize(msg) + P * (r * h)` in the ring, for the
/// perturbation `r`.
pub open spec fn ciphertext_eq(e: Seq<i64>, msg: Seq<u8>, r: Seq<i64>, h: Seq<i64>) -> bool {
    forall|j: int|
        0 <= j < N ==> ((#[trigger] coeff(e, j)) - coeff(serialize_spec(msg), j) - (P as int)
            * coeff(ring_mul(r, h, N as int), j)) % (Q as int) == 0
}

/// The bytes that decryption computes from a ciphertext under `(f,
/// f_p_inv)`: multiply by `f` in `R_q`, lift to the symmetric range,
/// multiply by `f_p_inv` and reduce modulo `P`; the zero polynomial
/// stands for the empty message.
pub open spec fn decrypt_poly_spec(enc: Seq<i64>, f: Seq<i64>, fpi: Seq<i64>) -> Seq<i64> {
    trim_spec(
        mod_seq(
            trim_spec(
                ring_mul(
                    center_seq(
                        trim_spec(ring_mul(trim_spec(mod_seq(enc, Q as int)), f, N as int)),
                        Q as int,
                    ),
                    fpi,
                    N as int,
                ),
            ),
            P as int,
        ),
    )
}

/// A public key: the polynomial `h = f^-1 * g` computed in `R_q`, kept
/// with coefficients in `[0, Q)`.
#[derive(Clone)]
pub struct NtruPublicKey {
    /// The public polynomial.
    pub h: ConvPoly,
}

/// A private key: the ternary pair `(f, g)`, together with the inverse
/// of `f` in `R_p` that decryption uses, fixed at generation time.
#[derive(Clone)]
pub struct NtruPrivateKey {
    /// The ternary polynomial from `T(D+1, D)`, invertible in `R_p` and `R_q`.
    pub f: ConvPoly,
    /// The ternary polynomial from `T(D, D)`.
    pub g: ConvPoly,
    /// The inverse of `f` in `R_p`, computed at generation time.
    pub f_p_inv: ConvPoly,
}

/// An NTRU key pair.
#[derive(Clone)]
pub struct NtruKeyPair {
    /// The public key of the NTRU encryption scheme key pair.
    pub public_key: NtruPublicKey,
    /// The private key of the NTRU encryption scheme key pair.
    pub private_key: NtruPrivateKey,
}

impl NtruPublicKey {
    /// Well-formedness: `h` is reduced modulo `Q`, canonical, and fits
    /// the ring.
    pub open spec fn wf(&self) -> bool {
        reduced(self.h@, Q as int) && canonical(self.h@) && 1 <= self.h@.len() <= N
    }

    /// Derives the public key `h = f^-1_q * g` in `R_q` from a private
    /// key.
    pub fn new(k_priv: &NtruPrivateKey) -> (res: Result<NtruPublicKey, NtruError>)
        requires
            k_priv.wf(),
        ensures
            match res {
                Ok(k) => k.wf() && h_matches(k.h@, k_priv.f@, k_priv.g@),
                Err(e) => e == NtruError::NoInverse,
            },
    {
        let f_inv = match k_priv.f.inverse(Q, N) {
            Ok(v) => v,
            Err(_) => {
                return Err(NtruError::NoInverse);
            },
        };
        let hm = f_inv.mul(&k_priv.g, N);
        let h = hm.modulo(Q);
        proof {
            let fi = f_inv@;
            assert(ring_one_product(k_priv.f@, fi, Q as int, N as int));
            assert forall|j: int| true implies #[trigger] coeff(h@, j) == coeff(
                ring_mul(fi, k_priv.g@, N as int),
                j,
            ) % (Q as int) by {
                assert(coeff(hm@, j) == coeff(ring_mul(fi, k_priv.g@, N as int), j));
                assert(coeff(h@, j) == coeff(hm@, j) % (Q as int));
            }
            assert(h_matches(h@, k_priv.f@, k_priv.g@));
        }
        Ok(NtruPublicKey { h })
    }

    /// Encrypts an octet string: `e = (m + P*r*h) mod Q` with `m` the
    /// serialized message and `r` a fresh ternary perturbation from
    /// `T(D, D)`. Messages longer than the ring are rejected.
    pub fn encrypt(&self, msg: Vec<u8>) -> (res: Result<ConvPoly, NtruError>)
        requires
            self.wf(),
            forall|i: int| 0 <= i < msg@.len() ==> #[trigger] (msg@[i] as int) < 243,
        ensures
            match res {
                Ok(e) => 5 * msg@.len() <= N && reduced(e@, Q as int) && canonical(e@) && 1
                    <= e@.len() <= N && (exists|r: Seq<i64>|
                    #[trigger] is_ternary(r, D as int, D as int) && ciphertext_eq(
                        e@,
                        msg@,
                        r,
                        self.h@,
                    )),
                Err(er) => er == NtruError::InvalidInput && 5 * msg@.len() > N,
            },
    {
        proof {
            lemma_fundamental_div_mod(N as int, 5);
        }
        if msg.len() > N / 5 {
            return Err(NtruError::InvalidInput);
        }
        let ser = serialize(msg);
        let rand_poly = ternary_polynomial(N, D, D);
        let rhm = rand_poly.mul(&self.h, N);
        let rh = rhm.modulo(Q);
        let pc = ConvPoly::constant(P);
        let prh = pc.mul(&rh, N);
        proof {
            lemma_trim_spec(add_seq(ser@, prh@));
        }
        let sum = ser.add(&prh);
        let e = sum.modulo(Q);
        proof {
            let qi = Q as int;
            let ni = N as int;
            let r = rand_poly@;
            assert(is_ternary(r, D as int, D as int));
            lemma_mul_seq_coeff(pc@, rh@);
            lemma_ring_mul_coeff(pc@, rh@, ni);
            assert forall|j: int| 0 <= j < ni implies ((#[trigger] coeff(e@, j)) - coeff(
                serialize_spec(msg@),
                j,
            ) - (P as int) * coeff(ring_mul(r, self.h@, ni), j)) % qi == 0 by {
                let sv = coeff(serialize_spec(msg@), j);
                assert(coeff(ser@, j) == sv);
                let x = coeff(ring_mul(r, self.h@, ni), j);
                assert(coeff(rhm@, j) == x);
                assert(coeff(rh@, j) == x % qi);
                // Multiplying by the constant P scales each ring
                // coefficient by P.
                assert(coeff(prh@, j) == coeff(ring_mul(pc@, rh@, ni), j));
                lemma_conv_monomial(pc@, rh@, P, 0, j, 0);
                lemma_fold_short(mul_seq(pc@, rh@), ni, j);
                assert(coeff(ring_mul(pc@, rh@, ni), j) == (P as int) * coeff(rh@, j));
                assert(coeff(sum@, j) == coeff(ser@, j) + coeff(prh@, j));
                assert(coeff(e@, j) == coeff(sum@, j) % qi);
                // Assemble: e differs from ser + P*(r*h) by multiples of Q.
                let low = coeff(e@, j) - (coeff(ser@, j) + coeff(prh@, j));
                lemma_mod_diff(coeff(ser@, j) + coeff(prh@, j), qi);
                lemma_mod_diff(x, qi);
                lemma_mod_mul_zero(x % qi - x, P as int, qi);
                assert((x % qi - x) * (P as int) == (P as int) * (x % qi) - (P as int) * x)
                    by (nonlinear_arith);
                lemma_mod_add_zero(low, (x % qi - x) * (P as int), qi);
                assert(coeff(e@, j) - sv - (P as int) * x == low + (x % qi - x) * (P as int));
            }
            assert(ciphertext_eq(e@, msg@, r, self.h@));
        }
        Ok(e)
    }
}

impl NtruPrivateKey {
    /// Well-formedness: `f` comes from `T(D+1, D)` and is invertible in
    /// both `R_p` and `R_q`, `g` from `T(D, D)`, both of length `N`,
    /// and the stored `f_p_inv` really inverts `f` in `R_p`.
    pub open spec fn wf(&self) -> bool {
        is_ternary(self.f@, D + 1, D as int) && is_ternary(self.g@, D as int, D as int) && reduced(
            self.f_p_inv@,
            P as int,
        ) && canonical(self.f_p_inv@) && 1 <= self.f_p_inv@.len() <= N && ring_one_product(
            self.f@,
            self.f_p_inv@,
            P as int,
            N as int,
        ) && invertible_in_rq(self.f@)
    }

    /// Generates a private key: samples `f` from `T(D+1, D)` until one
    /// is invertible both in `R_p` and in `R_q` (bounded number of
    /// attempts, each overwhelmingly likely to succeed), then samples
    /// `g` from `T(D, D)`.
    pub fn new() -> (res: Result<NtruPrivateKey, NtruError>)
        ensures
            match res {
                Ok(k) => k.wf(),
                Err(e) => e == NtruError::NoInverse,
            },
    {
        let mut tries: usize = 0;
        while tries < 100
            invariant
                tries <= 100,
            decreases 100 - tries,
        {
            let f = ternary_polynomial(N, D + 1, D);
            let fq = f.inverse(Q, N);
            let fp = f.inverse(P, N);
            match (fq, fp) {
                (Ok(fq_inv), Ok(f_p_inv)) => {
                    proof {
                        assert(ring_one_product(f@, fq_inv@, Q as int, N as int));
                        assert(invertible_in_rq(f@));
                    }
                    let g = ternary_polynomial(N, D, D);
                    return Ok(NtruPrivateKey { f, g, f_p_inv });
                },
                _ => {},
            }
            tries += 1;
        }
        Err(NtruError::NoInverse)
    }

    /// Decrypts a ciphertext polynomial: computes `a = (e * f) mod Q`,
    /// lifts it into the symmetric range, multiplies by `f^-1_p` in
    /// `R_p`, and reads the octets back off the result. The zero
    /// polynomial stands for the empty message.
    pub fn decrypt_to_bytes(&self, enc_msg: ConvPoly) -> (r: Vec<u8>)
        requires
            self.wf(),
            enc_msg@.len() <= 1024,
        ensures
            ({
                let mp = decrypt_poly_spec(enc_msg@, self.f@, self.f_p_inv@);
                if zero_poly(mp) {
                    r@.len() == 0
                } else {
                    r@.len() == (mp.len() + 4) / 5 && (forall|bi: int|
                        0 <= bi < r@.len() ==> #[trigger] (r@[bi] as int) == byte_at(mp, 5 * bi))
                }
            }),
            forall|bi: int| 0 <= bi < r@.len() ==> #[trigger] (r@[bi] as int) < 243,
    {
        let e1 = enc_msg.modulo(Q);
        let a = e1.mul(&self.f, N).center_lift(Q);
        let m_poly = a.mul(&self.f_p_inv, N).modulo(P);
        proof {
            assert(m_poly@ == decrypt_poly_spec(enc_msg@, self.f@, self.f_p_inv@));
        }
        if m_poly.is_zero() {
            return Vec::new();
        }
        deserialize(m_poly)
    }
}

impl NtruKeyPair {
    /// Well-formedness of both halves, and their link: `h` is a product
    /// of an `R_q`-inverse of `f` with `g`, which is what makes
    /// decryption undo encryption.
    pub open spec fn wf(&self) -> bool {
        self.public_key.wf() && self.private_key.wf() && h_matches(
            self.public_key.h@,
            self.private_key.f@,
            self.private_key.g@,
        )
    }

    /// Generates a new public/private NTRU key pair.
    pub fn new() -> (res: Result<NtruKeyPair, NtruError>)
        ensures
            match res {
                Ok(kp) => kp.wf(),
                Err(e) => e == NtruError::NoInverse,
            },
    {
        let k_priv = match NtruPrivateKey::new() {
            Ok(k) => k,
            Err(e) => {
                return Err(e);
            },
        };
        let k_pub = match NtruPublicKey::new(&k_priv) {
            Ok(k) => k,
            Err(e) => {
                return Err(e);
            },
        };
        Ok(NtruKeyPair { public_key: k_pub, private_key: k_priv })
    }

    /// Encrypts a message under the public half.
    pub fn encrypt(&self, msg: Vec<u8>) -> (res: Result<ConvPoly, NtruError>)
        requires
            self.wf(),
            forall|i: int| 0 <= i < msg@.len() ==> #[trigger] (msg@[i] as int) < 243,
        ensures
            match res {
                Ok(e) => 5 * msg@.len() <= N && reduced(e@, Q as int) && canonical(e@) && 1
                    <= e@.len() <= N && (exists|r: Seq<i64>|
                    #[trigger] is_ternary(r, D as int, D as int) && ciphertext_eq(
                        e@,
                        msg@,
                        r,
                        self.public_key.h@,
                    )),
                Err(er) => er == NtruError::InvalidInput && 5 * msg@.len() > N,
            },
    {
        self.public_key.encrypt(msg)
    }

    /// Decrypts a ciphertext with the private half.
    pub fn decrypt(&self, enc_msg: ConvPoly) -> (r: Vec<u8>)
        requires
            self.wf(),
            enc_msg@.len() <= 1024,
        ensures
            ({
                let mp = decrypt_poly_spec(
                    enc_msg@,
                    self.private_key.f@,
                    self.private_key.f_p_inv@,
                );
                if zero_poly(mp) {
                    r@.len() == 0
                } else {
                    r@.len() == (mp.len() + 4) / 5 && (forall|bi: int|
                        0 <= bi < r@.len() ==> #[trigger] (r@[bi] as int) == byte_at(mp, 5 * bi))
                }
            }),
            forall|bi: int| 0 <= bi < r@.len() ==> #[trigger] (r@[bi] as int) < 243,
    {
        self.private_key.decrypt_to_bytes(enc_msg)
    }

    /// The public half.
    pub fn public(&self) -> (r: &NtruPublicKey)
        ensures
            *r == self.public_key,
    {
        &self.public_key
    }

    /// The private half.
    pub fn private(&self) -> (r: &NtruPrivateKey)
        ensures
            *r == self.private_key,
    {
        &self.private_key
    }
}

} // verus!
