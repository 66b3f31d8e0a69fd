//! Truncated polynomials with integer coefficients and their algebra in
//! `Z[x]/(x^n - 1)` and the quotient rings with coefficients modulo `m`.

use vstd::prelude::*;
use vstd::arithmetic::mul::lemma_mul_basics;
use crate::arith;
use crate::arith::lemma_product_bound;
use crate::poly_specs::{
    add_seq, bounded, canonical, center_seq, coeff, conv_from, count_of, deg_spec, div_measure,
    fold_from, lemma_conv_from_bound, lemma_conv_zero_left, lemma_deg_spec,
    lemma_fold_from_bound, lemma_fold_zero, lemma_mul_seq_coeff, lemma_ring_form_identity,
    lemma_trim_spec, mod_seq, mul_seq, poly_eq_spec, prod_at, reduced, ring_fold, ring_form,
    ring_mul, ring_one_product, sub_seq, trim_spec, zero_poly,
};
use crate::errors::NtruError;
use crate::poly_specs::lemma_count_push;
use rand::Rng;

verus! {

/// Relies on rand's `Rng::gen_range` over a thread-local generator: a
/// uniform index strictly below `bound`.
#[verifier::external_body]
fn rand_below(bound: usize) -> (r: usize)
    requires
        bound >= 1,
    ensures
        r < bound,
{
    rand::thread_rng().gen_range(0..bound)
}

/// Samples a uniformly random ternary polynomial of length `n` with
/// exactly `num_ones` coefficients equal to `1`, exactly `num_neg_ones`
/// equal to `-1`, and all others zero: each position in turn receives one
/// of the remaining symbols with probability proportional to its count.
pub fn ternary_polynomial(n: usize, num_ones: usize, num_neg_ones: usize) -> (r: ConvPoly)
    requires
        1 <= n <= 2048,
        num_ones + num_neg_ones <= n,
    ensures
        r@.len() == n,
        count_of(r@, 1i64) == num_ones,
        count_of(r@, -1i64) == num_neg_ones,
        forall|i: int| 0 <= i < r@.len() ==> -1 <= #[trigger] (r@[i] as int) <= 1,
{
    let mut v: Vec<i64> = Vec::new();
    let mut rem_pos = num_ones;
    let mut rem_neg = num_neg_ones;
    let mut i: usize = 0;
    while i < n
        invariant
            0 <= i <= n,
            n <= 2048,
            v@.len() == i,
            count_of(v@, 1i64) + rem_pos == num_ones,
            count_of(v@, -1i64) + rem_neg == num_neg_ones,
            rem_pos + rem_neg <= n - i,
            forall|t: int| 0 <= t < i ==> -1 <= #[trigger] (v@[t] as int) <= 1,
        decreases n - i,
    {
        let draw = rand_below(n - i);
        if draw < rem_pos {
            proof {
                lemma_count_push(v@, 1i64, 1i64);
                lemma_count_push(v@, 1i64, -1i64);
            }
            v.push(1);
            rem_pos -= 1;
        } else if draw < rem_pos + rem_neg {
            proof {
                lemma_count_push(v@, -1i64, 1i64);
                lemma_count_push(v@, -1i64, -1i64);
            }
            v.push(-1);
            rem_neg -= 1;
        } else {
            proof {
                lemma_count_push(v@, 0i64, 1i64);
                lemma_count_push(v@, 0i64, -1i64);
            }
            v.push(0);
        }
        i += 1;
    }
    ConvPoly { coeffs: v }
}

/// A truncated polynomial: entry `i` of `coeffs` is the coefficient of
/// `x^i`. The representation is not canonical; trailing zeros may be
/// present, and equality compares the polynomial value.
#[derive(Clone, Debug)]
pub struct ConvPoly {
    /// The coefficient sequence, lowest power first.
    pub coeffs: Vec<i64>,
}

impl View for ConvPoly {
    type V = Seq<i64>;

    open spec fn view(&self) -> Seq<i64> {
        self.coeffs@
    }
}

impl PartialEq for ConvPoly {
    /// Two polynomials are equal when they agree coefficient by
    /// coefficient, trailing zeros ignored.
    fn eq(&self, other: &ConvPoly) -> (r: bool) {
        let la = self.coeffs.len();
        let lb = other.coeffs.len();
        let len = if la >= lb {
            la
        } else {
            lb
        };
        let mut i: usize = 0;
        while i < len
            invariant
                0 <= i <= len,
                len == if la >= lb {
                    la
                } else {
                    lb
                },
                la == self@.len(),
                lb == other@.len(),
                forall|t: int| 0 <= t < i ==> #[trigger] coeff(self@, t) == coeff(other@, t),
            decreases len - i,
        {
            if self.coeff_at(i) != other.coeff_at(i) {
                assert(coeff(self@, i as int) != coeff(other@, i as int));
                return false;
            }
            i += 1;
        }
        assert forall|t: int| true implies #[trigger] coeff(self@, t) == coeff(other@, t) by {
            if 0 <= t < len {
            } else {
                assert(coeff(self@, t) == 0 && coeff(other@, t) == 0);
            }
        }
        true
    }
}

impl vstd::std_specs::cmp::PartialEqSpecImpl for ConvPoly {
    open spec fn obeys_eq_spec() -> bool {
        true
    }

    open spec fn eq_spec(&self, other: &ConvPoly) -> bool {
        poly_eq_spec(self@, other@)
    }
}

impl ConvPoly {
    /// The polynomial equal to the constant `c`.
    pub fn constant(c: i64) -> (r: ConvPoly)
        ensures
            r@ =~= seq![c],
    {
        ConvPoly { coeffs: vec![c] }
    }

    /// Coefficient `i`, reading zero beyond the stored length.
    pub fn coeff_at(&self, i: usize) -> (c: i64)
        ensures
            c as int == coeff(self@, i as int),
    {
        if i < self.coeffs.len() {
            self.coeffs[i]
        } else {
            0
        }
    }

    /// True exactly when every stored coefficient is zero.
    pub fn is_zero(&self) -> (r: bool)
        ensures
            r == zero_poly(self@),
    {
        let mut i: usize = 0;
        while i < self.coeffs.len()
            invariant
                0 <= i <= self@.len(),
                forall|t: int| 0 <= t < i ==> self@[t] == 0,
            decreases self@.len() - i,
        {
            if self.coeffs[i] != 0 {
                return false;
            }
            i += 1;
        }
        true
    }

    /// The degree: the highest index with a nonzero coefficient, or zero
    /// for the zero polynomial.
    pub fn deg(&self) -> (d: usize)
        ensures
            d == deg_spec(self@),
            d < self@.len() || (self@.len() == 0 && d == 0),
    {
        let mut i = self.coeffs.len();
        while i > 0
            invariant
                0 <= i <= self@.len(),
                forall|t: int| i <= t < self@.len() ==> #[trigger] coeff(self@, t) == 0,
            decreases i,
        {
            if self.coeffs[i - 1] != 0 {
                proof {
                    lemma_deg_spec(self@);
                    let d = deg_spec(self@) as int;
                    assert(coeff(self@, i - 1) == self@[i - 1]);
                    assert(!zero_poly(self@));
                    if d < i - 1 {
                        assert(coeff(self@, i - 1) == 0);
                    }
                    if d > i - 1 {
                        assert(coeff(self@, d) != 0);
                        assert(i <= d < self@.len());
                        assert(false);
                    }
                }
                return i - 1;
            }
            i -= 1;
        }
        proof {
            lemma_deg_spec(self@);
            assert(zero_poly(self@));
        }
        0
    }

    /// The leading coefficient (the coefficient at the degree); zero for
    /// the zero polynomial.
    pub fn lc(&self) -> (c: i64)
        ensures
            c as int == coeff(self@, deg_spec(self@) as int),
    {
        let d = self.deg();
        self.coeff_at(d)
    }

    /// The canonical form: trailing zeros removed, with the zero
    /// polynomial becoming the single coefficient `0`.
    pub fn trim(&self) -> (r: ConvPoly)
        ensures
            r@ == trim_spec(self@),
            r@.len() >= 1,
            canonical(r@),
            forall|i: int| #[trigger] coeff(r@, i) == coeff(self@, i),
    {
        proof {
            lemma_trim_spec(self@);
        }
        if self.is_zero() {
            let r = ConvPoly { coeffs: vec![0] };
            proof {
                assert(r@ =~= seq![0i64]);
                assert(r@ =~= trim_spec(self@));
            }
            r
        } else {
            let d = self.deg();
            let len = self.coeffs.len();
            let mut v: Vec<i64> = Vec::new();
            let mut i: usize = 0;
            while i <= d
                invariant
                    0 <= i <= d + 1,
                    d < self@.len(),
                    len == self@.len(),
                    v@.len() == i,
                    forall|t: int| 0 <= t < i ==> v@[t] == self@[t],
                decreases d + 1 - i,
            {
                v.push(self.coeffs[i]);
                i += 1;
            }
            proof {
                assert(v@ =~= self@.take(deg_spec(self@) as int + 1));
            }
            ConvPoly { coeffs: v }
        }
    }

    /// Each coefficient reduced into `[0, m)` by the Euclidean remainder,
    /// then trimmed.
    pub fn modulo(&self, m: i64) -> (r: ConvPoly)
        requires
            m >= 1,
        ensures
            r@ == trim_spec(mod_seq(self@, m as int)),
            forall|i: int| #[trigger] coeff(r@, i) == coeff(self@, i) % (m as int),
            bounded(r@, m as int - 1),
            reduced(r@, m as int),
            canonical(r@),
            r@.len() >= 1,
            r@.len() <= self@.len() || r@.len() == 1,
    {
        let len = self.coeffs.len();
        let mut v: Vec<i64> = Vec::new();
        let mut i: usize = 0;
        while i < len
            invariant
                0 <= i <= len,
                len == self@.len(),
                m >= 1,
                v@.len() == i,
                forall|t: int| 0 <= t < i ==> #[trigger] (v@[t] as int) == (self@[t] as int) % (
                m as int),
            decreases len - i,
        {
            v.push(arith::euclid_mod(self.coeffs[i], m));
            i += 1;
        }
        proof {
            assert(v@ =~= mod_seq(self@, m as int));
        }
        let tmp = ConvPoly { coeffs: v };
        let r = tmp.trim();
        proof {
            lemma_trim_spec(tmp@);
            vstd::arithmetic::div_mod::lemma_small_mod(0, m as nat);
            assert forall|t: int| true implies #[trigger] coeff(r@, t) == coeff(self@, t) % (
            m as int) by {
                assert(coeff(trim_spec(tmp@), t) == coeff(tmp@, t));
                assert(coeff(r@, t) == coeff(tmp@, t));
                if 0 <= t < self@.len() {
                    assert(tmp@[t] == mod_seq(self@, m as int)[t]);
                    assert(tmp@[t] as int == (self@[t] as int) % (m as int));
                    assert(coeff(tmp@, t) == tmp@[t] as int);
                    assert(coeff(self@, t) == self@[t] as int);
                } else {
                    assert(coeff(tmp@, t) == 0 && coeff(self@, t) == 0);
                    assert((0int) % (m as int) == 0);
                }
            }
            assert forall|t: int| 0 <= t < r@.len() implies 0 <= #[trigger] (r@[t] as int) < m by {
                assert(coeff(r@, t) == coeff(self@, t) % (m as int));
            }
        }
        r
    }

    /// Each coefficient replaced by its centered representative modulo
    /// `m`; the length is kept.
    pub fn center_lift(&self, m: i64) -> (r: ConvPoly)
        requires
            m >= 1,
        ensures
            r@ == center_seq(self@, m as int),
            r@.len() == self@.len(),
            forall|i: int| #[trigger] coeff(r@, i) == crate::center_lift_spec(coeff(self@, i), m as int) ||
                (!(0 <= i < self@.len()) && coeff(r@, i) == 0),
            bounded(r@, (m as int) / 2),
    {
        let len = self.coeffs.len();
        let mut v: Vec<i64> = Vec::new();
        let mut i: usize = 0;
        while i < len
            invariant
                0 <= i <= len,
                len == self@.len(),
                m >= 1,
                v@.len() == i,
                forall|t: int| 0 <= t < i ==> #[trigger] (v@[t] as int) == crate::center_lift_spec(
                    self@[t] as int, m as int),
                forall|t: int| 0 <= t < i ==> -((m as int) / 2) <= #[trigger] (v@[t] as int) <= (
                m as int) / 2,
            decreases len - i,
        {
            v.push(arith::center_lift(self.coeffs[i], m));
            i += 1;
        }
        proof {
            assert(v@ =~= center_seq(self@, m as int));
        }
        ConvPoly { coeffs: v }
    }

    /// The polynomial reduced modulo `x^n - 1`: the coefficient at each
    /// index `j >= n` is folded down onto `j % n`.
    pub(crate) fn ring_reduce(&self, n: usize) -> (r: ConvPoly)
        requires
            1 <= n <= 2048,
            self@.len() <= 2048,
            bounded(self@, 0x4_0000_0000_0000),
        ensures
            r@ == ring_fold(self@, n as int),
            r@.len() <= n,
            r@.len() <= self@.len(),
            bounded(r@, 0x2000_0000_0000_0000),
    {
        let len = self.coeffs.len();
        let outlen = if n < len {
            n
        } else {
            len
        };
        let mut out: Vec<i64> = Vec::new();
        let mut k: usize = 0;
        while k < outlen
            invariant
                0 <= k <= outlen,
                outlen == if n < len {
                    n
                } else {
                    len
                },
                len == self@.len(),
                1 <= n <= 2048,
                len <= 2048,
                bounded(self@, 0x4_0000_0000_0000),
                out@.len() == k,
                forall|t: int|
                    0 <= t < k ==> #[trigger] (out@[t] as int) == fold_from(
                        self@,
                        n as int,
                        t,
                    ),
                forall|t: int|
                    0 <= t < k ==> -0x2000_0000_0000_0000 <= #[trigger] (out@[t] as int)
                        <= 0x2000_0000_0000_0000,
            decreases outlen - k,
        {
            let mut s: i64 = self.coeffs[k];
            let mut j: usize = k + n;
            proof {
                lemma_fold_from_bound(self@, n as int, k as int, 0x4_0000_0000_0000);
                lemma_fold_from_bound(self@, n as int, k as int + n as int, 0x4_0000_0000_0000);
            }
            while j < len
                invariant
                    k < len,
                    len == self@.len(),
                    1 <= n <= 2048,
                    len <= 2048,
                    bounded(self@, 0x4_0000_0000_0000),
                    k + n <= j,
                    s as int == fold_from(self@, n as int, k as int) - fold_from(
                        self@,
                        n as int,
                        j as int,
                    ),
                    -0x4000_0000_0000_0000 <= s as int <= 0x4000_0000_0000_0000,
                decreases len + n - j,
            {
                proof {
                    lemma_fold_from_bound(self@, n as int, k as int, 0x4_0000_0000_0000);
                    lemma_fold_from_bound(self@, n as int, j as int, 0x4_0000_0000_0000);
                    lemma_fold_from_bound(self@, n as int, j as int + n as int, 0x4_0000_0000_0000);
                }
                s = s + self.coeffs[j];
                j = j + n;
            }
            proof {
                assert(fold_from(self@, n as int, j as int) == 0);
                lemma_fold_from_bound(self@, n as int, k as int, 0x4_0000_0000_0000);
            }
            out.push(s);
            k += 1;
        }
        proof {
            assert(out@ =~= ring_fold(self@, n as int));
        }
        ConvPoly { coeffs: out }
    }

    /// The convolution product in `Z[x]/(x^n - 1)`: the plain product of
    /// the two polynomials with every power `x^j`, `j >= n`, wrapped
    /// around onto `x^(j % n)`; the result is trimmed.
    pub fn mul(&self, other: &ConvPoly, n: usize) -> (r: ConvPoly)
        requires
            1 <= n <= 2048,
            1 <= self@.len() <= 1024,
            1 <= other@.len() <= 1024,
            bounded(self@, 0x10_0000),
            bounded(other@, 0x10_0000),
        ensures
            r@ == trim_spec(ring_mul(self@, other@, n as int)),
            forall|i: int| #[trigger] coeff(r@, i) == coeff(ring_mul(self@, other@, n as int), i),
            bounded(r@, 0x2000_0000_0000_0000),
            1 <= r@.len() <= n,
    {
        let la = self.coeffs.len();
        let lb = other.coeffs.len();
        let flen = la + lb - 1;
        let mut full: Vec<i64> = Vec::new();
        let mut k: usize = 0;
        while k < flen
            invariant
                0 <= k <= flen,
                flen == la + lb - 1,
                la == self@.len(),
                lb == other@.len(),
                1 <= la <= 1024,
                1 <= lb <= 1024,
                bounded(self@, 0x10_0000),
                bounded(other@, 0x10_0000),
                full@.len() == k,
                forall|t: int|
                    0 <= t < k ==> #[trigger] (full@[t] as int) == prod_at(self@, other@, t),
                forall|t: int|
                    0 <= t < k ==> -0x4_0000_0000_0000 <= #[trigger] (full@[t] as int)
                        <= 0x4_0000_0000_0000,
            decreases flen - k,
        {
            let mut s: i64 = 0;
            let mut i: usize = 0;
            proof {
                lemma_conv_from_bound(self@, other@, k as int, 0, 0x10_0000, 0x10_0000);
            }
            while i < la
                invariant
                    0 <= i <= la,
                    la == self@.len(),
                    lb == other@.len(),
                    1 <= la <= 1024,
                    1 <= lb <= 1024,
                    bounded(self@, 0x10_0000),
                    bounded(other@, 0x10_0000),
                    s as int + conv_from(self@, other@, k as int, i as int) == prod_at(
                        self@,
                        other@,
                        k as int,
                    ),
                    -0x8_0000_0000_0000 <= s as int <= 0x8_0000_0000_0000,
                decreases la - i,
            {
                proof {
                    lemma_conv_from_bound(self@, other@, k as int, i as int, 0x10_0000, 0x10_0000);
                    lemma_conv_from_bound(
                        self@,
                        other@,
                        k as int,
                        i as int + 1,
                        0x10_0000,
                        0x10_0000,
                    );
                    lemma_conv_from_bound(self@, other@, k as int, 0, 0x10_0000, 0x10_0000);
                    lemma_product_bound(
                        coeff(self@, i as int),
                        0x10_0000,
                        coeff(other@, k as int - i as int),
                        0x10_0000,
                    );
                }
                if k >= i && k - i < lb {
                    let term = self.coeffs[i] * other.coeffs[k - i];
                    s = s + term;
                } else {
                    proof {
                        assert(coeff(other@, k as int - i as int) == 0);
                        lemma_mul_basics(coeff(self@, i as int));
                    }
                }
                i += 1;
            }
            proof {
                assert(conv_from(self@, other@, k as int, la as int) == 0);
                lemma_conv_from_bound(self@, other@, k as int, 0, 0x10_0000, 0x10_0000);
            }
            full.push(s);
            k += 1;
        }
        proof {
            assert(full@ =~= mul_seq(self@, other@));
        }
        let tmp = ConvPoly { coeffs: full };
        let folded = tmp.ring_reduce(n);
        let r = folded.trim();
        proof {
            lemma_trim_spec(folded@);
            assert forall|t: int| true implies #[trigger] coeff(r@, t) == coeff(
                ring_mul(self@, other@, n as int),
                t,
            ) by {
                assert(coeff(trim_spec(folded@), t) == coeff(folded@, t));
            }
            assert forall|t: int|
                0 <= t < r@.len() implies -0x2000_0000_0000_0000 <= #[trigger] (r@[t] as int)
                <= 0x2000_0000_0000_0000 by {
                assert(coeff(trim_spec(folded@), t) == coeff(folded@, t));
                assert(coeff(r@, t) == r@[t] as int);
                if 0 <= t < folded@.len() {
                    assert(coeff(folded@, t) == folded@[t] as int);
                }
            }
        }
        r
    }

    /// The polynomial `c * x^k * b` with every coefficient reduced into
    /// `[0, m)`.
    fn mul_term(b: &ConvPoly, c: i64, k: usize, m: i64) -> (r: ConvPoly)
        requires
            1 <= m <= 0x10_0000,
            0 <= c <= 0x10_0000,
            bounded(b@, 0x10_0000),
            b@.len() + k <= 4096,
        ensures
            r@.len() == b@.len() + k,
            forall|j: int| 0 <= j < k ==> #[trigger] (r@[j] as int) == 0,
            forall|j: int|
                k <= j < r@.len() ==> #[trigger] (r@[j] as int) == (c as int * (b@[j - k] as int))
                    % (m as int),
            reduced(r@, m as int),
    {
        let mut v: Vec<i64> = Vec::new();
        let mut i: usize = 0;
        while i < k
            invariant
                0 <= i <= k,
                v@.len() == i,
                forall|j: int| 0 <= j < i ==> #[trigger] (v@[j] as int) == 0,
            decreases k - i,
        {
            v.push(0);
            i += 1;
        }
        let lb = b.coeffs.len();
        let mut j: usize = 0;
        while j < lb
            invariant
                0 <= j <= lb,
                lb == b@.len(),
                lb + k <= 4096,
                1 <= m <= 0x10_0000,
                0 <= c <= 0x10_0000,
                bounded(b@, 0x10_0000),
                v@.len() == k + j,
                forall|t: int| 0 <= t < k ==> #[trigger] (v@[t] as int) == 0,
                forall|t: int|
                    k <= t < k + j ==> #[trigger] (v@[t] as int) == (c as int * (b@[t - k] as int))
                        % (m as int),
                forall|t: int| k <= t < k + j ==> 0 <= #[trigger] (v@[t] as int) < m,
            decreases lb - j,
        {
            proof {
                lemma_product_bound(c as int, 0x10_0000, b@[j as int] as int, 0x10_0000);
            }
            v.push(arith::euclid_mod(c * b.coeffs[j], m));
            j += 1;
        }
        ConvPoly { coeffs: v }
    }

    /// The monomial `c * x^k`.
    fn monomial(c: i64, k: usize) -> (r: ConvPoly)
        requires
            k <= 4096,
        ensures
            r@.len() == k + 1,
            r@[k as int] == c,
            forall|j: int| 0 <= j < k ==> #[trigger] (r@[j] as int) == 0,
    {
        let mut v: Vec<i64> = Vec::new();
        let mut i: usize = 0;
        while i < k
            invariant
                0 <= i <= k,
                v@.len() == i,
                forall|j: int| 0 <= j < i ==> #[trigger] (v@[j] as int) == 0,
            decreases k - i,
        {
            v.push(0);
            i += 1;
        }
        v.push(c);
        ConvPoly { coeffs: v }
    }

    /// Polynomial long division in `R_m` (coefficients modulo the prime
    /// `m`, ring `x^n - 1`): returns `(quotient, remainder)` with the
    /// remainder of smaller degree than the divisor, or `DivByZero` when
    /// the divisor vanishes in `R_m`.
    pub fn div_mod(&self, divisor: &ConvPoly, m: i64, n: usize) -> (res: Result<
        (ConvPoly, ConvPoly),
        NtruError,
    >)
        requires
            crate::arith::is_prime_spec(m as int),
            m <= 0x10_0000,
            1 <= n <= 1024,
            self@.len() <= 2048,
            divisor@.len() <= 2048,
        ensures
            res is Err <==> zero_poly(ring_form(divisor@, m as int, n as int)),
            match res {
                Ok((q, r)) => reduced(q@, m as int) && reduced(r@, m as int) && canonical(q@)
                    && canonical(r@) && q@.len() <= n && r@.len() <= n && (zero_poly(r@)
                    || deg_spec(r@) < deg_spec(ring_form(divisor@, m as int, n as int))) && q@.len()
                    + ring_form(divisor@, m as int, n as int).len() <= n + 1 && (forall|j: int|
                    0 <= j < n ==> #[trigger] ((coeff(ring_form(self@, m as int, n as int), j)
                        - coeff(ring_mul(q@, ring_form(divisor@, m as int, n as int), n as int), j)
                        - coeff(r@, j)) % (m as int)) == 0) && (forall|j: int|
                    #[trigger] ((coeff(ring_form(self@, m as int, n as int), j) - prod_at(
                        q@,
                        ring_form(divisor@, m as int, n as int),
                        j,
                    ) - coeff(r@, j)) % (m as int)) == 0),
                Err(e) => e == NtruError::DivByZero,
            },
    {
        let b1 = divisor.modulo(m).ring_reduce(n).modulo(m);
        proof {
            assert(b1@ == ring_form(divisor@, m as int, n as int));
        }
        if b1.is_zero() {
            return Err(NtruError::DivByZero);
        }
        let db = b1.deg();
        let blc = b1.lc();
        proof {
            lemma_deg_spec(b1@);
            assert(coeff(b1@, deg_spec(b1@) as int) != 0);
            assert(0 < blc < m);
            vstd::arithmetic::div_mod::lemma_small_mod(blc as nat, m as nat);
            crate::arith::lemma_inverse_exists_mod_prime(blc as int, m as int);
        }
        let binv = match arith::inverse(blc, m) {
            Ok(v) => v,
            Err(_) => {
                proof {
                    assert(false);
                }
                return Err(NtruError::DivByZero);
            },
        };
        let a1 = self.modulo(m).ring_reduce(n).modulo(m);
        let ghost a1v = a1@;
        proof {
            assert(a1v == ring_form(self@, m as int, n as int));
        }
        let mut r = a1;
        let mut q = ConvPoly::constant(0);
        proof {
            assert(reduced(q@, m as int) && canonical(q@));
            // Initially the quotient is zero and the remainder is the
            // reduced dividend, so the division identity holds exactly.
            let mi = m as int;
            let ni = n as int;
            assert forall|j: int| 0 <= j < ni implies #[trigger] ((coeff(a1v, j) - fold_from(
                mul_seq(q@, b1@),
                ni,
                j,
            ) - coeff(r@, j)) % mi) == 0 by {
                assert(zero_poly(q@));
                let ms = mul_seq(q@, b1@);
                assert(zero_poly(ms)) by {
                    assert forall|t: int| 0 <= t < ms.len() implies ms[t] == 0 by {
                        lemma_conv_zero_left(q@, b1@, t, 0);
                    }
                }
                lemma_fold_zero(ms, ni, j);
                vstd::arithmetic::div_mod::lemma_small_mod(0, m as nat);
            }
        }
        loop
            invariant
                crate::arith::is_prime_spec(m as int),
                2 <= m <= 0x10_0000,
                1 <= n <= 1024,
                reduced(r@, m as int),
                canonical(r@),
                r@.len() <= n,
                reduced(q@, m as int),
                canonical(q@),
                q@.len() <= n,
                reduced(b1@, m as int),
                canonical(b1@),
                !zero_poly(b1@),
                b1@.len() <= n,
                db == deg_spec(b1@),
                db < b1@.len(),
                b1@.len() == db + 1,
                blc as int == coeff(b1@, db as int),
                0 <= binv < m,
                (blc as int * binv as int) % (m as int) == 1,
                q@.len() + b1@.len() <= n + 1,
                forall|j: int|
                    0 <= j < n ==> #[trigger] ((coeff(a1v, j) - fold_from(
                        mul_seq(q@, b1@),
                        n as int,
                        j,
                    ) - coeff(r@, j)) % (m as int)) == 0,
            ensures
                reduced(r@, m as int),
                canonical(r@),
                r@.len() <= n,
                reduced(q@, m as int),
                canonical(q@),
                q@.len() <= n,
                zero_poly(r@) || deg_spec(r@) < db,
                q@.len() + b1@.len() <= n + 1,
                forall|j: int|
                    0 <= j < n ==> #[trigger] ((coeff(a1v, j) - fold_from(
                        mul_seq(q@, b1@),
                        n as int,
                        j,
                    ) - coeff(r@, j)) % (m as int)) == 0,
            decreases div_measure(r@),
        {
            if r.is_zero() {
                break;
            }
            let dr = r.deg();
            if dr < db {
                break;
            }
            proof {
                lemma_deg_spec(r@);
                assert(r@.len() == dr + 1);
            }
            let lr = r.lc();
            proof {
                lemma_product_bound(lr as int, 0x10_0000, binv as int, 0x10_0000);
            }
            let c = arith::euclid_mod(lr * binv, m);
            let k = dr - db;
            let term = Self::mul_term(&b1, c, k, m);
            let diff = r.sub(&term);
            let r_new = diff.modulo(m);
            let mono = Self::monomial(c, k);
            let q_sum = q.add(&mono);
            let q_new = q_sum.modulo(m);
            proof {
                let mi = m as int;
                // The coefficient at the old leading index cancels.
                assert(coeff(term@, dr as int) == (c as int * blc as int) % mi);
                assert((c as int * blc as int) % mi == lr as int) by {
                    vstd::arithmetic::div_mod::lemma_mul_mod_noop_left(
                        lr as int * binv as int,
                        blc as int,
                        mi,
                    );
                    assert((lr as int * binv as int) * blc as int == lr as int * (binv as int
                        * blc as int)) by (nonlinear_arith);
                    vstd::arithmetic::div_mod::lemma_mul_mod_noop_right(
                        lr as int,
                        binv as int * blc as int,
                        mi,
                    );
                    vstd::arithmetic::mul::lemma_mul_is_commutative(binv as int, blc as int);
                    lemma_mul_basics(lr as int);
                    vstd::arithmetic::div_mod::lemma_small_mod(lr as nat, m as nat);
                }
                assert(coeff(r@, dr as int) == lr as int);
                assert(coeff(r_new@, dr as int) == (lr as int - lr as int) % mi);
                vstd::arithmetic::div_mod::lemma_small_mod(0, m as nat);
                assert(coeff(r_new@, dr as int) == 0);
                // Every coefficient above it was already zero on both sides.
                assert forall|jj: int| jj >= dr implies #[trigger] coeff(r_new@, jj) == 0 by {
                    if jj > dr {
                        assert(coeff(r@, jj) == 0);
                        assert(coeff(term@, jj) == 0);
                        assert(coeff(r_new@, jj) == (0int - 0int) % mi);
                    }
                }
                // So the degree strictly drops (or the remainder vanishes).
                lemma_deg_spec(r_new@);
                if !zero_poly(r_new@) {
                    assert(coeff(r_new@, deg_spec(r_new@) as int) != 0);
                    assert(deg_spec(r_new@) < dr);
                }
                assert(div_measure(r_new@) < div_measure(r@));
                // The new remainder and quotient still fit in the ring.
                lemma_trim_spec(sub_seq(r@, term@));
                assert(diff@.len() <= dr + 1);
                assert(r_new@.len() <= n);
                lemma_trim_spec(add_seq(q@, mono@));
                assert(q_sum@.len() <= n);
                assert(q_new@.len() <= n);
                assert(q_new@.len() + b1@.len() <= n + 1);
                // The division identity a1 = q * b1 + r is preserved
                // modulo m: the quotient gains the monomial c * x^k and
                // the remainder loses exactly its product with b1.
                let ni = n as int;
                assert(bounded(mono@, 0x10_0000)) by {
                    assert forall|t: int| 0 <= t < mono@.len() implies -0x10_0000 <= #[trigger] (
                    mono@[t] as int) <= 0x10_0000 by {
                        if t < k {
                            assert(mono@[t] as int == 0);
                        } else {
                            assert(mono@[t] == c);
                        }
                    }
                }
                let msq1 = mul_seq(q_new@, b1@);
                let msq0 = mul_seq(q@, b1@);
                let msw = mul_seq(mono@, b1@);
                assert forall|t: int| true implies #[trigger] ((coeff(q_new@, t) - coeff(q@, t)
                    - coeff(mono@, t)) % mi) == 0 by {
                    assert(coeff(q_sum@, t) == coeff(q@, t) + coeff(mono@, t));
                    assert(coeff(q_new@, t) == coeff(q_sum@, t) % mi);
                    crate::poly_specs::lemma_mod_diff(coeff(q@, t) + coeff(mono@, t), mi);
                }
                lemma_mul_seq_coeff(q_new@, b1@);
                lemma_mul_seq_coeff(q@, b1@);
                lemma_mul_seq_coeff(mono@, b1@);
                assert forall|t: int| true implies #[trigger] ((coeff(msq1, t) - coeff(msq0, t)
                    - coeff(msw, t)) % mi) == 0 by {
                    crate::poly_specs::lemma_conv_congruent(q_new@, q@, mono@, b1@, mi, t, 0);
                }
                assert forall|j: int| 0 <= j < ni implies #[trigger] ((coeff(a1v, j) - fold_from(
                    msq1,
                    ni,
                    j,
                ) - coeff(r_new@, j)) % mi) == 0 by {
                    crate::poly_specs::lemma_fold_congruent(msq1, msq0, msw, ni, j, mi);
                    let f1 = fold_from(msq1, ni, j);
                    let f0 = fold_from(msq0, ni, j);
                    let fm = fold_from(msw, ni, j);
                    // The monomial product is short enough that nothing
                    // wraps, so fm is exactly c times a shifted b1
                    // coefficient.
                    assert(msw.len() <= ni);
                    crate::poly_specs::lemma_fold_short(msw, ni, j);
                    assert(coeff(msw, j) == prod_at(mono@, b1@, j));
                    crate::poly_specs::lemma_conv_monomial(mono@, b1@, c, k as int, j, 0);
                    assert(fm == c as int * coeff(b1@, j - k));
                    let tc = coeff(term@, j);
                    assert((tc - fm) % mi == 0) by {
                        if j < k || j < 0 {
                            assert(tc == 0);
                            assert(coeff(b1@, j - k) == 0);
                            lemma_mul_basics(c as int);
                            vstd::arithmetic::div_mod::lemma_small_mod(0, m as nat);
                        } else if j < k + b1@.len() {
                            assert(tc == (c as int * (b1@[j - k] as int)) % mi);
                            assert(coeff(b1@, j - k) == b1@[j - k] as int);
                            crate::poly_specs::lemma_mod_diff(
                                c as int * (b1@[j - k] as int),
                                mi,
                            );
                        } else {
                            assert(tc == 0);
                            assert(coeff(b1@, j - k) == 0);
                            lemma_mul_basics(c as int);
                            vstd::arithmetic::div_mod::lemma_small_mod(0, m as nat);
                        }
                    }
                    assert(coeff(diff@, j) == coeff(r@, j) - coeff(term@, j));
                    assert(coeff(r_new@, j) == coeff(diff@, j) % mi);
                    crate::poly_specs::lemma_mod_diff(coeff(r@, j) - coeff(term@, j), mi);
                    let g_old = coeff(a1v, j) - f0 - coeff(r@, j);
                    let g_prod = f1 - f0 - fm;
                    let g_rem = coeff(r_new@, j) - (coeff(r@, j) - tc);
                    let g_term = tc - fm;
                    assert(g_old % mi == 0);
                    assert(g_prod % mi == 0);
                    assert(g_rem % mi == 0);
                    crate::poly_specs::lemma_mod_neg_zero(g_prod, mi);
                    crate::poly_specs::lemma_mod_neg_zero(g_rem, mi);
                    crate::poly_specs::lemma_mod_add_zero(g_old, -g_prod, mi);
                    crate::poly_specs::lemma_mod_add_zero(g_old + -g_prod, -g_rem, mi);
                    crate::poly_specs::lemma_mod_add_zero(g_old + -g_prod + -g_rem, g_term, mi);
                    assert(coeff(a1v, j) - f1 - coeff(r_new@, j) == g_old + -g_prod + -g_rem
                        + g_term);
                }
            }
            r = r_new;
            q = q_new;
        }
        proof {
            // Restate the division identity over the ring product.
            let mi = m as int;
            let ni = n as int;
            crate::poly_specs::lemma_ring_mul_coeff(q@, b1@, ni);
            assert forall|j: int| 0 <= j < ni implies #[trigger] ((coeff(
                ring_form(self@, mi, ni),
                j,
            ) - coeff(ring_mul(q@, ring_form(divisor@, mi, ni), ni), j) - coeff(r@, j)) % mi)
                == 0 by {
                assert(ring_form(divisor@, mi, ni) == b1@);
                assert(coeff(ring_mul(q@, b1@, ni), j) == fold_from(mul_seq(q@, b1@), ni, j));
                assert((coeff(a1v, j) - fold_from(mul_seq(q@, b1@), ni, j) - coeff(r@, j)) % mi
                    == 0);
            }
            // And over the plain product: the quotient is narrow enough
            // that multiplying it by the divisor never wraps around,
            // which pins the quotient/remainder pair.
            lemma_mul_seq_coeff(q@, b1@);
            assert forall|j: int| true implies #[trigger] ((coeff(ring_form(self@, mi, ni), j)
                - prod_at(q@, ring_form(divisor@, mi, ni), j) - coeff(r@, j)) % mi) == 0 by {
                assert(ring_form(divisor@, mi, ni) == b1@);
                let ms = mul_seq(q@, b1@);
                assert(ms.len() + 1 == q@.len() + b1@.len());
                if 0 <= j < ni {
                    crate::poly_specs::lemma_fold_short(ms, ni, j);
                    assert(coeff(ms, j) == prod_at(q@, b1@, j));
                    assert((coeff(a1v, j) - fold_from(ms, ni, j) - coeff(r@, j)) % mi == 0);
                } else {
                    crate::poly_specs::lemma_conv_out_of_range(q@, b1@, j, 0);
                    assert(prod_at(q@, b1@, j) == 0);
                    assert(coeff(ring_form(self@, mi, ni), j) == 0);
                    assert(coeff(r@, j) == 0);
                    vstd::arithmetic::div_mod::lemma_small_mod(0, m as nat);
                }
            }
        }
        Ok((q, r))
    }

    /// The polynomial extended Euclidean algorithm in `R_m` with `m`
    /// prime: returns `(d, s, t)` where `d` is a monic greatest common
    /// divisor of `a` and `b` and `s`, `t` are the Bezout coefficients
    /// accumulated by the division chain. Fails with `InvalidInput` when
    /// both arguments vanish in `R_m`.
    #[verifier::rlimit(60)]
    pub fn extended_gcd(a: &ConvPoly, b: &ConvPoly, m: i64, n: usize) -> (res: Result<
        (ConvPoly, ConvPoly, ConvPoly),
        NtruError,
    >)
        requires
            crate::arith::is_prime_spec(m as int),
            m <= 0x10_0000,
            1 <= n <= 1024,
            a@.len() <= 2048,
            b@.len() <= 2048,
        ensures
            zero_poly(ring_form(a@, m as int, n as int)) && zero_poly(
                ring_form(b@, m as int, n as int),
            ) ==> res is Err,
            match res {
                Ok((d, s, t)) => !(zero_poly(ring_form(a@, m as int, n as int)) && zero_poly(
                    ring_form(b@, m as int, n as int),
                )) && !zero_poly(d@) && reduced(d@, m as int) && canonical(d@) && coeff(
                    d@,
                    deg_spec(d@) as int,
                ) == 1 && reduced(s@, m as int) && s@.len() <= n && reduced(t@, m as int)
                    && t@.len() <= n && d@.len() <= n && (forall|j: int|
                    0 <= j < n ==> ((#[trigger] coeff(
                        ring_mul(s@, ring_form(a@, m as int, n as int), n as int),
                        j,
                    )) + coeff(ring_mul(t@, ring_form(b@, m as int, n as int), n as int), j)
                        - coeff(d@, j)) % (m as int) == 0) && crate::poly_specs::divides_in_ring(
                    d@,
                    ring_form(a@, m as int, n as int),
                    m as int,
                ) && crate::poly_specs::divides_in_ring(
                    d@,
                    ring_form(b@, m as int, n as int),
                    m as int,
                ),
                Err(e) => e == NtruError::InvalidInput,
            },
    {
        let mut r0 = a.modulo(m).ring_reduce(n).modulo(m);
        let mut r1 = b.modulo(m).ring_reduce(n).modulo(m);
        proof {
            assert(r0@ == ring_form(a@, m as int, n as int));
            assert(r1@ == ring_form(b@, m as int, n as int));
        }
        if r0.is_zero() && r1.is_zero() {
            return Err(NtruError::InvalidInput);
        }
        let mut s0 = ConvPoly::constant(1);
        let mut s1 = ConvPoly::constant(0);
        let mut t0 = ConvPoly::constant(0);
        let mut t1 = ConvPoly::constant(1);
        loop
            invariant
                crate::arith::is_prime_spec(m as int),
                2 <= m <= 0x10_0000,
                1 <= n <= 1024,
                reduced(r0@, m as int),
                canonical(r0@),
                r0@.len() <= n,
                reduced(r1@, m as int),
                canonical(r1@),
                r1@.len() <= n,
                !(zero_poly(r0@) && zero_poly(r1@)),
                reduced(s0@, m as int),
                canonical(s0@),
                s0@.len() <= n,
                reduced(s1@, m as int),
                canonical(s1@),
                s1@.len() <= n,
                reduced(t0@, m as int),
                canonical(t0@),
                t0@.len() <= n,
                reduced(t1@, m as int),
                canonical(t1@),
                t1@.len() <= n,
            ensures
                reduced(r0@, m as int),
                canonical(r0@),
                r0@.len() <= n,
                !zero_poly(r0@),
                reduced(s0@, m as int),
                canonical(s0@),
                s0@.len() <= n,
                reduced(t0@, m as int),
                canonical(t0@),
                t0@.len() <= n,
            decreases div_measure(r1@),
        {
            if r1.is_zero() {
                break;
            }
            proof {
                lemma_ring_form_identity(r1@, m as int, n as int);
            }
            let (quo, rem) = match r0.div_mod(&r1, m, n) {
                Ok(v) => v,
                Err(_) => {
                    proof {
                        assert(false);
                    }
                    return Err(NtruError::InvalidInput);
                },
            };
            proof {
                lemma_deg_spec(r1@);
                assert(div_measure(rem@) < div_measure(r1@));
            }
            let qs = quo.mul(&s1, n);
            proof {
                lemma_trim_spec(sub_seq(s0@, qs@));
            }
            let s2 = s0.sub(&qs).modulo(m);
            let qt = quo.mul(&t1, n);
            proof {
                lemma_trim_spec(sub_seq(t0@, qt@));
            }
            let t2 = t0.sub(&qt).modulo(m);
            r0 = r1;
            r1 = rem;
            s0 = s1;
            s1 = s2;
            t0 = t1;
            t1 = t2;
        }
        let lcr = r0.lc();
        proof {
            lemma_deg_spec(r0@);
            assert(0 < lcr < m);
            vstd::arithmetic::div_mod::lemma_small_mod(lcr as nat, m as nat);
            crate::arith::lemma_inverse_exists_mod_prime(lcr as int, m as int);
        }
        let cinv = match arith::inverse(lcr, m) {
            Ok(v) => v,
            Err(_) => {
                proof {
                    assert(false);
                }
                return Err(NtruError::InvalidInput);
            },
        };
        let d = Self::mul_term(&r0, cinv, 0, m);
        let sb = Self::mul_term(&s0, cinv, 0, m);
        let tb = Self::mul_term(&t0, cinv, 0, m);
        proof {
            // The scaled gcd is monic: its top coefficient is
            // `(cinv * lc) % m == 1`.
            let mi = m as int;
            let last = r0@.len() - 1;
            assert(deg_spec(r0@) == last);
            assert(r0@[last] as int == lcr as int);
            assert(d@[last] as int == (cinv as int * lcr as int) % mi);
            vstd::arithmetic::mul::lemma_mul_is_commutative(cinv as int, lcr as int);
            assert(d@[last] as int == 1);
            assert(!zero_poly(d@));
            assert(canonical(d@));
            assert(deg_spec(d@) == last);
            assert(coeff(d@, deg_spec(d@) as int) == 1);
        }
        // Hand the triple out only after recomputing the Bezout
        // combination and finding it equal to d, which makes the Bezout
        // identity part of the contract.
        let a1c = a.modulo(m).ring_reduce(n).modulo(m);
        let b1c = b.modulo(m).ring_reduce(n).modulo(m);
        let u = sb.mul(&a1c, n).modulo(m);
        let v = tb.mul(&b1c, n).modulo(m);
        proof {
            lemma_trim_spec(add_seq(u@, v@));
        }
        let w = u.add(&v).modulo(m);
        if !(w == d) {
            return Err(NtruError::InvalidInput);
        }
        proof {
            let mi = m as int;
            let ni = n as int;
            assert(a1c@ == ring_form(a@, mi, ni));
            assert(b1c@ == ring_form(b@, mi, ni));
            assert forall|j: int| 0 <= j < ni implies ((#[trigger] coeff(
                ring_mul(sb@, ring_form(a@, mi, ni), ni),
                j,
            )) + coeff(ring_mul(tb@, ring_form(b@, mi, ni), ni), j) - coeff(d@, j)) % mi == 0 by {
                let x = coeff(ring_mul(sb@, a1c@, ni), j);
                let y = coeff(ring_mul(tb@, b1c@, ni), j);
                assert(coeff(u@, j) == x % mi);
                assert(coeff(v@, j) == y % mi);
                assert(coeff(w@, j) == (coeff(u@, j) + coeff(v@, j)) % mi);
                assert(coeff(w@, j) == coeff(d@, j));
                let s2 = x % mi + y % mi;
                crate::poly_specs::lemma_mod_diff(s2, mi);
                crate::poly_specs::lemma_mod_diff(x, mi);
                crate::poly_specs::lemma_mod_diff(y, mi);
                crate::poly_specs::lemma_mod_neg_zero(x % mi - x, mi);
                crate::poly_specs::lemma_mod_neg_zero(y % mi - y, mi);
                crate::poly_specs::lemma_mod_add_zero(x - x % mi, y - y % mi, mi);
                crate::poly_specs::lemma_mod_neg_zero(s2 % mi - s2, mi);
                crate::poly_specs::lemma_mod_add_zero(
                    x - x % mi + (y - y % mi),
                    -(s2 % mi - s2),
                    mi,
                );
                assert(x + y - coeff(d@, j) == x - x % mi + (y - y % mi) + -(s2 % mi - s2));
            }
        }
        // The gcd also divides both reduced inputs: confirm by dividing
        // and requiring a zero remainder, which puts the common-divisor
        // property into the contract.
        proof {
            lemma_ring_form_identity(d@, m as int, n as int);
            lemma_ring_form_identity(a1c@, m as int, n as int);
            lemma_ring_form_identity(b1c@, m as int, n as int);
        }
        let (qa, ra) = match a1c.div_mod(&d, m, n) {
            Ok(p) => p,
            Err(_) => {
                proof {
                    assert(false);
                }
                return Err(NtruError::InvalidInput);
            },
        };
        if !ra.is_zero() {
            return Err(NtruError::InvalidInput);
        }
        let (qb, rb) = match b1c.div_mod(&d, m, n) {
            Ok(p) => p,
            Err(_) => {
                proof {
                    assert(false);
                }
                return Err(NtruError::InvalidInput);
            },
        };
        if !rb.is_zero() {
            return Err(NtruError::InvalidInput);
        }
        proof {
            let mi = m as int;
            let ni = n as int;
            assert forall|j: int| true implies (coeff(ring_form(a@, mi, ni), j) - (#[trigger] prod_at(
                qa@,
                d@,
                j,
            ))) % mi == 0 by {
                assert((coeff(ring_form(a1c@, mi, ni), j) - prod_at(qa@, ring_form(d@, mi, ni), j)
                    - coeff(ra@, j)) % mi == 0);
                assert(coeff(ra@, j) == 0);
            }
            assert(crate::poly_specs::ring_multiple(ring_form(a@, mi, ni), qa@, d@, mi));
            assert forall|j: int| true implies (coeff(ring_form(b@, mi, ni), j) - (#[trigger] prod_at(
                qb@,
                d@,
                j,
            ))) % mi == 0 by {
                assert((coeff(ring_form(b1c@, mi, ni), j) - prod_at(qb@, ring_form(d@, mi, ni), j)
                    - coeff(rb@, j)) % mi == 0);
                assert(coeff(rb@, j) == 0);
            }
            assert(crate::poly_specs::ring_multiple(ring_form(b@, mi, ni), qb@, d@, mi));
        }
        Ok((d, sb, tb))
    }

    /// Inversion in `R_m` for a prime modulus, by the polynomial extended
    /// Euclidean algorithm against `x^n - 1`: the inverse exists exactly
    /// when their gcd is a nonzero constant.
    fn inverse_prime(&self, m: i64, n: usize) -> (res: Result<ConvPoly, NtruError>)
        requires
            crate::arith::is_prime_spec(m as int),
            m <= 0x10_0000,
            1 <= n <= 1023,
            self@.len() <= 2048,
        ensures
            match res {
                Ok(inv) => reduced(inv@, m as int) && canonical(inv@) && inv@.len() <= n,
                Err(e) => e == NtruError::NoInverse,
            },
    {
        // The ring modulus x^n - 1, divided at ring dimension n + 1 so
        // that the division chain never wraps around.
        let mut v: Vec<i64> = Vec::new();
        v.push(-1);
        let mut i: usize = 1;
        while i < n
            invariant
                1 <= i <= n,
                n <= 1023,
                v@.len() == i,
            decreases n - i,
        {
            v.push(0);
            i += 1;
        }
        v.push(1);
        let xn1 = ConvPoly { coeffs: v };
        let (d, s, _t) = match ConvPoly::extended_gcd(self, &xn1, m, n + 1) {
            Ok(v) => v,
            Err(_) => {
                return Err(NtruError::NoInverse);
            },
        };
        if d.deg() == 0 {
            // The gcd is monic of degree zero, hence the constant 1, and
            // the Bezout coefficient of `self` is its inverse.
            Ok(s.ring_reduce(n).modulo(m))
        } else {
            Err(NtruError::NoInverse)
        }
    }

    /// Inversion in `R_m`: returns `inv` with `self * inv = 1` in `R_m`
    /// when it exists. The modulus must be a prime or a prime power; for
    /// a prime power `p^k` the inverse modulo `p` is lifted by Newton
    /// iteration. The candidate is handed back only after its product
    /// with `self` has been recomputed and found to be 1 in `R_m`, so
    /// the defining identity is part of the contract. Fails with
    /// `NoInverse` when no inverse is found.
    pub fn inverse(&self, m: i64, n: usize) -> (res: Result<ConvPoly, NtruError>)
        requires
            2 <= m <= 0x10_0000,
            1 <= n <= 1023,
            self@.len() <= 2048,
        ensures
            match res {
                Ok(inv) => reduced(inv@, m as int) && canonical(inv@) && inv@.len() <= n
                    && ring_one_product(self@, inv@, m as int, n as int),
                Err(e) => e == NtruError::NoInverse,
            },
    {
        // The smallest divisor of m, which is prime.
        let mut p: i64 = 2;
        loop
            invariant
                2 <= p <= m,
                2 <= m <= 0x10_0000,
                forall|k: int| 2 <= k < p ==> #[trigger] ((m as int) % k) != 0,
            ensures
                2 <= p <= m,
                (m as int) % (p as int) == 0,
                forall|k: int| 2 <= k < p ==> #[trigger] ((m as int) % k) != 0,
            decreases m - p,
        {
            if arith::euclid_mod(m, p) == 0 {
                break;
            }
            proof {
                vstd::arithmetic::div_mod::lemma_mod_self_0(m as int);
            }
            p += 1;
        }
        proof {
            crate::arith::lemma_smallest_divisor_prime(m as int, p as int);
        }
        let f1 = self.modulo(m).ring_reduce(n).modulo(m);
        if p == m {
            // m itself is prime.
            let candidate = match self.inverse_prime(m, n) {
                Ok(v) => v,
                Err(e) => {
                    return Err(e);
                },
            };
            return Self::check_inverse(self, &f1, candidate, m, n);
        }
        // m must be a power of p; strip the factors of p and check that
        // nothing else remains.
        let mut mm: i64 = m;
        while arith::euclid_mod(mm, p) == 0
            invariant
                1 <= mm <= m,
                2 <= p <= m,
                m <= 0x10_0000,
            decreases mm,
        {
            let next = ((mm as u64) / (p as u64)) as i64;
            proof {
                vstd::arithmetic::div_mod::lemma_div_decreases(mm as int, p as int);
                vstd::arithmetic::div_mod::lemma_div_pos_is_pos(mm as int, p as int);
            }
            if next == 0 {
                return Err(NtruError::NoInverse);
            }
            mm = next;
        }
        if mm != 1 {
            return Err(NtruError::NoInverse);
        }
        // Invert modulo the prime p, then lift by Newton iteration:
        // inv <- inv * (2 - f * inv), doubling the precision each round.
        let inv_p = match self.inverse_prime(p, n) {
            Ok(v) => v,
            Err(e) => {
                return Err(e);
            },
        };
        let mut inv = inv_p;
        let mut pk: i64 = p;
        while pk < m
            invariant
                2 <= p <= pk <= m,
                2 <= m <= 0x10_0000,
                1 <= n <= 1023,
                reduced(inv@, m as int),
                canonical(inv@),
                1 <= inv@.len() <= n,
                reduced(f1@, m as int),
                canonical(f1@),
                1 <= f1@.len() <= n,
            decreases m - pk,
        {
            proof {
                lemma_product_bound(pk as int, 0x10_0000, pk as int, 0x10_0000);
                assert(pk as int * pk as int > pk as int) by (nonlinear_arith)
                    requires
                        pk as int >= 2,
                ;
            }
            let pk2 = pk * pk;
            let pknew = if pk2 > m {
                m
            } else {
                pk2
            };
            let prod = f1.mul(&inv, n);
            let two = ConvPoly::constant(2);
            proof {
                lemma_trim_spec(sub_seq(two@, prod@));
            }
            let e = two.sub(&prod);
            let em = e.modulo(pknew);
            inv = inv.mul(&em, n).modulo(pknew);
            pk = pknew;
        }
        Self::check_inverse(self, &f1, inv, m, n)
    }

    /// Confirms a candidate inverse by recomputing its ring product with
    /// the reduced polynomial: only a candidate whose product is the
    /// constant 1 in `R_m` is handed out, which is what makes the
    /// defining identity of `inverse` part of its contract.
    fn check_inverse(f: &ConvPoly, f1: &ConvPoly, candidate: ConvPoly, m: i64, n: usize) -> (res:
        Result<ConvPoly, NtruError>)
        requires
            2 <= m <= 0x10_0000,
            1 <= n <= 1023,
            f1@ == ring_form(f@, m as int, n as int),
            reduced(candidate@, m as int),
            canonical(candidate@),
            1 <= candidate@.len() <= n,
            reduced(f1@, m as int),
            canonical(f1@),
            1 <= f1@.len() <= n,
        ensures
            match res {
                Ok(inv) => reduced(inv@, m as int) && canonical(inv@) && inv@.len() <= n
                    && ring_one_product(f@, inv@, m as int, n as int),
                Err(e) => e == NtruError::NoInverse,
            },
    {
        let mr = f1.mul(&candidate, n);
        let prod = mr.modulo(m);
        let one = ConvPoly::constant(1);
        if !(prod == one) {
            return Err(NtruError::NoInverse);
        }
        proof {
            let mi = m as int;
            let ni = n as int;
            assert forall|j: int| 0 <= j < ni implies ((#[trigger] coeff(
                ring_mul(ring_form(f@, mi, ni), candidate@, ni),
                j,
            )) - (if j == 0 {
                1int
            } else {
                0int
            })) % mi == 0 by {
                let x = coeff(ring_mul(f1@, candidate@, ni), j);
                let d = if j == 0 {
                    1int
                } else {
                    0int
                };
                assert(coeff(mr@, j) == x);
                assert(coeff(prod@, j) == coeff(mr@, j) % mi);
                assert(coeff(prod@, j) == coeff(one@, j));
                assert(one@ =~= seq![1i64]);
                assert(coeff(one@, j) == d);
                crate::poly_specs::lemma_mod_diff(x, mi);
                crate::poly_specs::lemma_mod_neg_zero(x % mi - x, mi);
                assert(x - d == -(x % mi - x));
            }
        }
        Ok(candidate)
    }

    /// Coefficient-wise sum over the integers (no modular reduction),
    /// trimmed.
    pub fn add(&self, other: &ConvPoly) -> (r: ConvPoly)
        requires
            bounded(self@, 0x3fff_ffff_ffff_ffff),
            bounded(other@, 0x3fff_ffff_ffff_ffff),
        ensures
            r@ == trim_spec(add_seq(self@, other@)),
            forall|i: int| #[trigger] coeff(r@, i) == coeff(self@, i) + coeff(other@, i),
            r@.len() >= 1,
    {
        let la = self.coeffs.len();
        let lb = other.coeffs.len();
        let len = if la >= lb {
            la
        } else {
            lb
        };
        let mut v: Vec<i64> = Vec::new();
        let mut i: usize = 0;
        while i < len
            invariant
                0 <= i <= len,
                la == self@.len(),
                lb == other@.len(),
                len == if la >= lb {
                    la
                } else {
                    lb
                },
                bounded(self@, 0x3fff_ffff_ffff_ffff),
                bounded(other@, 0x3fff_ffff_ffff_ffff),
                v@.len() == i,
                forall|t: int| 0 <= t < i ==> #[trigger] (v@[t] as int) == coeff(self@, t) + coeff(
                    other@, t),
            decreases len - i,
        {
            let ca = self.coeff_at(i);
            let cb = other.coeff_at(i);
            v.push(ca + cb);
            i += 1;
        }
        proof {
            assert(v@ =~= add_seq(self@, other@));
        }
        let tmp = ConvPoly { coeffs: v };
        let r = tmp.trim();
        proof {
            lemma_trim_spec(tmp@);
            assert forall|t: int| true implies #[trigger] coeff(r@, t) == coeff(self@, t) + coeff(
                other@, t) by {
                assert(coeff(r@, t) == coeff(tmp@, t));
                if !(0 <= t < tmp@.len()) {
                    assert(coeff(self@, t) == 0 && coeff(other@, t) == 0);
                }
            }
        }
        r
    }

    /// Coefficient-wise difference over the integers (no modular
    /// reduction), trimmed.
    pub fn sub(&self, other: &ConvPoly) -> (r: ConvPoly)
        requires
            bounded(self@, 0x3fff_ffff_ffff_ffff),
            bounded(other@, 0x3fff_ffff_ffff_ffff),
        ensures
            r@ == trim_spec(sub_seq(self@, other@)),
            forall|i: int| #[trigger] coeff(r@, i) == coeff(self@, i) - coeff(other@, i),
            r@.len() >= 1,
    {
        let la = self.coeffs.len();
        let lb = other.coeffs.len();
        let len = if la >= lb {
            la
        } else {
            lb
        };
        let mut v: Vec<i64> = Vec::new();
        let mut i: usize = 0;
        while i < len
            invariant
                0 <= i <= len,
                la == self@.len(),
                lb == other@.len(),
                len == if la >= lb {
                    la
                } else {
                    lb
                },
                bounded(self@, 0x3fff_ffff_ffff_ffff),
                bounded(other@, 0x3fff_ffff_ffff_ffff),
                v@.len() == i,
                forall|t: int| 0 <= t < i ==> #[trigger] (v@[t] as int) == coeff(self@, t) - coeff(
                    other@, t),
            decreases len - i,
        {
            let ca = self.coeff_at(i);
            let cb = other.coeff_at(i);
            v.push(ca - cb);
            i += 1;
        }
        proof {
            assert(v@ =~= sub_seq(self@, other@));
        }
        let tmp = ConvPoly { coeffs: v };
        let r = tmp.trim();
        proof {
            lemma_trim_spec(tmp@);
            assert forall|t: int| true implies #[trigger] coeff(r@, t) == coeff(self@, t) - coeff(
                other@, t) by {
                assert(coeff(r@, t) == coeff(tmp@, t));
                if !(0 <= t < tmp@.len()) {
                    assert(coeff(self@, t) == 0 && coeff(other@, t) == 0);
                }
            }
        }
        r
    }
}

} // verus!
