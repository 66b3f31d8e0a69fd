//! The mathematical model of truncated polynomials: a polynomial is a
//! coefficient sequence `Seq<i64>`, read as coefficient `i` of `x^i`, with
//! every index beyond the sequence holding zero. All polynomial contracts
//! are stated over these spec functions.

use vstd::prelude::*;
use crate::arith::lemma_product_bound;

verus! {

/// Coefficient `i` of the polynomial `s`; zero beyond the stored length.
pub open spec fn coeff(s: Seq<i64>, i: int) -> int {
    if 0 <= i < s.len() {
        s[i] as int
    } else {
        0
    }
}

/// Every coefficient of `s` is zero.
pub open spec fn zero_poly(s: Seq<i64>) -> bool {
    forall|i: int| 0 <= i < s.len() ==> s[i] == 0
}

/// The two sequences denote the same polynomial (equal coefficient by
/// coefficient, ignoring trailing zeros).
pub open spec fn poly_eq_spec(a: Seq<i64>, b: Seq<i64>) -> bool {
    forall|i: int| #[trigger] coeff(a, i) == coeff(b, i)
}

/// The degree of `s`: the highest index holding a nonzero coefficient, or
/// zero for the zero polynomial.
pub open spec fn deg_spec(s: Seq<i64>) -> nat
    decreases s.len(),
{
    if s.len() == 0 {
        0
    } else if s[s.len() - 1] != 0 {
        (s.len() - 1) as nat
    } else {
        deg_spec(s.drop_last())
    }
}

/// The canonical form of `s`: trailing zeros removed, with the zero
/// polynomial represented as the single coefficient `[0]`.
pub open spec fn trim_spec(s: Seq<i64>) -> Seq<i64> {
    if zero_poly(s) {
        seq![0i64]
    } else {
        s.take(deg_spec(s) as int + 1)
    }
}

/// Every coefficient of `s` lies in `[-bound, bound]`.
pub open spec fn bounded(s: Seq<i64>, bound: int) -> bool {
    forall|i: int| 0 <= i < s.len() ==> -bound <= #[trigger] (s[i] as int) <= bound
}

/// Coefficient-wise sum of two polynomials, at the length of the longer.
pub open spec fn add_seq(a: Seq<i64>, b: Seq<i64>) -> Seq<i64> {
    Seq::new(
        if a.len() >= b.len() {
            a.len()
        } else {
            b.len()
        },
        |i: int| (coeff(a, i) + coeff(b, i)) as i64,
    )
}

/// Coefficient-wise difference of two polynomials.
pub open spec fn sub_seq(a: Seq<i64>, b: Seq<i64>) -> Seq<i64> {
    Seq::new(
        if a.len() >= b.len() {
            a.len()
        } else {
            b.len()
        },
        |i: int| (coeff(a, i) - coeff(b, i)) as i64,
    )
}

/// Each coefficient reduced into `[0, m)` by the Euclidean remainder.
pub open spec fn mod_seq(s: Seq<i64>, m: int) -> Seq<i64> {
    Seq::new(s.len(), |i: int| ((s[i] as int) % m) as i64)
}

/// Each coefficient replaced by its centered representative modulo `m`.
pub open spec fn center_seq(s: Seq<i64>, m: int) -> Seq<i64> {
    Seq::new(s.len(), |i: int| crate::center_lift_spec(s[i] as int, m) as i64)
}

/// The tail of the convolution sum for coefficient `k` of the plain
/// product `a * b`, starting at index `i` of `a`.
pub open spec fn conv_from(a: Seq<i64>, b: Seq<i64>, k: int, i: int) -> int
    decreases a.len() - i,
{
    if i < 0 || i >= a.len() {
        0
    } else {
        coeff(a, i) * coeff(b, k - i) + conv_from(a, b, k, i + 1)
    }
}

/// Coefficient `k` of the plain (not yet ring-reduced) product `a * b`.
pub open spec fn prod_at(a: Seq<i64>, b: Seq<i64>, k: int) -> int {
    conv_from(a, b, k, 0)
}

/// Length of the plain product of `a` and `b`.
pub open spec fn full_len(a: Seq<i64>, b: Seq<i64>) -> nat {
    if a.len() == 0 || b.len() == 0 {
        0
    } else {
        (a.len() + b.len() - 1) as nat
    }
}

/// The plain product of `a` and `b` as a coefficient sequence.
pub open spec fn mul_seq(a: Seq<i64>, b: Seq<i64>) -> Seq<i64> {
    Seq::new(full_len(a, b), |k: int| prod_at(a, b, k) as i64)
}

/// The tail of the wrap-around sum for ring index `k`: the coefficients
/// at `j, j + n, j + 2n, ...` of `s` added together.
pub open spec fn fold_from(s: Seq<i64>, n: int, j: int) -> int
    decreases s.len() + n - j,
{
    if n < 1 || j < 0 || j >= s.len() {
        0
    } else {
        s[j] as int + fold_from(s, n, j + n)
    }
}

/// `s` reduced modulo `x^n - 1`: index `i` is folded onto `i % n`.
pub open spec fn ring_fold(s: Seq<i64>, n: int) -> Seq<i64> {
    Seq::new(
        if s.len() <= n {
            s.len()
        } else {
            n as nat
        },
        |k: int| fold_from(s, n, k) as i64,
    )
}

/// The convolution product of `a` and `b` in `Z[x]/(x^n - 1)`.
pub open spec fn ring_mul(a: Seq<i64>, b: Seq<i64>, n: int) -> Seq<i64> {
    ring_fold(mul_seq(a, b), n)
}

/// Every coefficient of `s` lies in `[0, m)`.
pub open spec fn reduced(s: Seq<i64>, m: int) -> bool {
    forall|i: int| 0 <= i < s.len() ==> 0 <= #[trigger] (s[i] as int) < m
}

/// `s` is in canonical form: nonempty, and its last coefficient is
/// nonzero unless it is the single coefficient `[0]`.
pub open spec fn canonical(s: Seq<i64>) -> bool {
    s.len() >= 1 && (s.len() == 1 || s[s.len() - 1] != 0)
}

/// The canonical representative of `s` in the ring `R_m` of dimension
/// `n`: coefficients reduced modulo `m`, powers folded modulo `x^n - 1`,
/// reduced again and trimmed.
pub open spec fn ring_form(s: Seq<i64>, m: int, n: int) -> Seq<i64> {
    trim_spec(mod_seq(ring_fold(trim_spec(mod_seq(s, m)), n), m))
}

/// `fi` inverts `f` in `R_m` of dimension `n`: their ring product is
/// congruent to the constant 1, coefficient by coefficient.
pub open spec fn ring_one_product(f: Seq<i64>, fi: Seq<i64>, m: int, n: int) -> bool {
    forall|j: int|
        0 <= j < n ==> ((#[trigger] coeff(ring_mul(ring_form(f, m, n), fi, n), j)) - (if j == 0 {
            1int
        } else {
            0int
        })) % m == 0
}

/// `s` is congruent, coefficient by coefficient modulo `m`, to the plain
/// polynomial product `q * d`.
pub open spec fn ring_multiple(s: Seq<i64>, q: Seq<i64>, d: Seq<i64>, m: int) -> bool {
    forall|j: int| (coeff(s, j) - (#[trigger] prod_at(q, d, j))) % m == 0
}

/// `d` divides `s` in `R_m`: some quotient multiplies with `d` to `s`
/// modulo `m`.
pub open spec fn divides_in_ring(d: Seq<i64>, s: Seq<i64>, m: int) -> bool {
    exists|q: Seq<i64>| #[trigger] ring_multiple(s, q, d, m)
}

/// Termination measure for polynomial long division: strictly above the
/// measure of every polynomial of smaller degree, with the zero
/// polynomial below everything.
pub open spec fn div_measure(s: Seq<i64>) -> int {
    if zero_poly(s) {
        0
    } else {
        deg_spec(s) as int + 1
    }
}

/// How often the value `v` occurs among the coefficients of `s`.
pub open spec fn count_of(s: Seq<i64>, v: i64) -> nat
    decreases s.len(),
{
    if s.len() == 0 {
        0
    } else {
        count_of(s.drop_last(), v) + if s.last() == v {
            1nat
        } else {
            0nat
        }
    }
}

/// Replacing a value by its remainder changes it by a multiple of `m`.
pub proof fn lemma_mod_diff(x: int, m: int)
    requires
        m >= 1,
    ensures
        (x % m - x) % m == 0,
{
    vstd::arithmetic::div_mod::lemma_fundamental_div_mod(x, m);
    vstd::arithmetic::mul::lemma_mul_unary_negation(m, x / m);
    assert(x % m - x == m * (-(x / m)));
    vstd::arithmetic::div_mod::lemma_mod_multiples_vanish(-(x / m), 0, m);
    vstd::arithmetic::div_mod::lemma_small_mod(0, m as nat);
}

/// The sum of two multiples of `m` is a multiple of `m`.
pub proof fn lemma_mod_add_zero(x: int, y: int, m: int)
    requires
        m >= 1,
        x % m == 0,
        y % m == 0,
    ensures
        (x + y) % m == 0,
{
    vstd::arithmetic::div_mod::lemma_add_mod_noop(x, y, m);
    vstd::arithmetic::div_mod::lemma_small_mod(0, m as nat);
}

/// The negation of a multiple of `m` is a multiple of `m`.
pub proof fn lemma_mod_neg_zero(x: int, m: int)
    requires
        m >= 1,
        x % m == 0,
    ensures
        (-x) % m == 0,
{
    vstd::arithmetic::div_mod::lemma_fundamental_div_mod(x, m);
    vstd::arithmetic::mul::lemma_mul_unary_negation(m, x / m);
    assert(-x == m * (-(x / m)));
    vstd::arithmetic::div_mod::lemma_mod_multiples_vanish(-(x / m), 0, m);
    vstd::arithmetic::div_mod::lemma_small_mod(0, m as nat);
}

/// A multiple of `m` times anything is a multiple of `m`.
pub proof fn lemma_mod_mul_zero(x: int, z: int, m: int)
    requires
        m >= 1,
        x % m == 0,
    ensures
        (x * z) % m == 0,
{
    vstd::arithmetic::div_mod::lemma_mul_mod_noop_left(x, z, m);
    vstd::arithmetic::mul::lemma_mul_basics(z);
    vstd::arithmetic::div_mod::lemma_small_mod(0, m as nat);
}

/// The convolution tail over a zero polynomial vanishes.
pub proof fn lemma_conv_zero_left(z: Seq<i64>, b: Seq<i64>, k: int, i: int)
    requires
        zero_poly(z),
        i >= 0,
    ensures
        conv_from(z, b, k, i) == 0,
    decreases z.len() - i,
{
    if i < z.len() {
        lemma_conv_zero_left(z, b, k, i + 1);
        vstd::arithmetic::mul::lemma_mul_basics(coeff(b, k - i));
    }
}

/// The wrap-around tail over a zero polynomial vanishes.
pub proof fn lemma_fold_zero(s: Seq<i64>, n: int, j: int)
    requires
        zero_poly(s),
        n >= 1,
        j >= 0,
    ensures
        fold_from(s, n, j) == 0,
    decreases s.len() + n - j,
{
    if j < s.len() {
        lemma_fold_zero(s, n, j + n);
    }
}

/// A coefficient of the plain product beyond its length, or at a
/// negative index, is zero.
pub proof fn lemma_conv_out_of_range(a: Seq<i64>, b: Seq<i64>, t: int, i: int)
    requires
        i >= 0,
        t < 0 || t >= a.len() + b.len() - 1,
    ensures
        conv_from(a, b, t, i) == 0,
    decreases a.len() - i,
{
    if i < a.len() {
        lemma_conv_out_of_range(a, b, t, i + 1);
        assert(coeff(b, t - i) == 0);
        vstd::arithmetic::mul::lemma_mul_basics(coeff(a, i));
    }
}

/// The convolution tail against an empty factor vanishes.
pub proof fn lemma_conv_empty_right(a: Seq<i64>, b: Seq<i64>, t: int, i: int)
    requires
        b.len() == 0,
        i >= 0,
    ensures
        conv_from(a, b, t, i) == 0,
    decreases a.len() - i,
{
    if i < a.len() {
        lemma_conv_empty_right(a, b, t, i + 1);
        vstd::arithmetic::mul::lemma_mul_basics(coeff(a, i));
    }
}

/// Every coefficient of `mul_seq`, read at any index as a mathematical
/// integer, is the convolution value `prod_at`.
pub proof fn lemma_mul_seq_coeff(a: Seq<i64>, b: Seq<i64>)
    requires
        bounded(a, 0x10_0000),
        bounded(b, 0x10_0000),
        a.len() <= 1024,
        b.len() <= 1024,
    ensures
        forall|t: int| #[trigger] coeff(mul_seq(a, b), t) == prod_at(a, b, t),
{
    assert forall|t: int| true implies #[trigger] coeff(mul_seq(a, b), t) == prod_at(a, b, t) by {
        if 0 <= t < mul_seq(a, b).len() {
            lemma_conv_from_bound(a, b, t, 0, 0x10_0000, 0x10_0000);
        } else if a.len() == 0 {
            assert(conv_from(a, b, t, 0) == 0);
        } else if b.len() == 0 {
            lemma_conv_empty_right(a, b, t, 0);
        } else {
            lemma_conv_out_of_range(a, b, t, 0);
        }
    }
}

/// For a sequence that already fits the ring, the wrap-around sum is a
/// single coefficient.
pub proof fn lemma_fold_short(s: Seq<i64>, n: int, j: int)
    requires
        s.len() <= n,
        n >= 1,
        j >= 0,
    ensures
        fold_from(s, n, j) == coeff(s, j),
{
    if j < s.len() {
        assert(fold_from(s, n, j + n) == 0);
    }
}

/// Convolution against a monomial `c * x^k` picks out one shifted
/// coefficient of the other factor.
pub proof fn lemma_conv_monomial(w: Seq<i64>, b: Seq<i64>, c: i64, k: int, t: int, i: int)
    requires
        0 <= k,
        w.len() == k + 1,
        w[k] == c,
        forall|j: int| 0 <= j < k ==> w[j] == 0,
        0 <= i,
    ensures
        conv_from(w, b, t, i) == if i <= k {
            c as int * coeff(b, t - k)
        } else {
            0
        },
    decreases w.len() - i,
{
    if i < w.len() {
        lemma_conv_monomial(w, b, c, k, t, i + 1);
        if i < k {
            vstd::arithmetic::mul::lemma_mul_basics(coeff(b, t - i));
        }
    }
}

/// Coefficient-wise congruence modulo `m` carries through convolution
/// against a common right factor: if `q1 - q2 - w` vanishes modulo `m`
/// at every index, so does the corresponding combination of the
/// convolution tails.
pub proof fn lemma_conv_congruent(
    q1: Seq<i64>,
    q2: Seq<i64>,
    w: Seq<i64>,
    b: Seq<i64>,
    m: int,
    k: int,
    i: int,
)
    requires
        m >= 1,
        i >= 0,
        forall|t: int| #[trigger] ((coeff(q1, t) - coeff(q2, t) - coeff(w, t)) % m) == 0,
    ensures
        (conv_from(q1, b, k, i) - conv_from(q2, b, k, i) - conv_from(w, b, k, i)) % m == 0,
    decreases q1.len() + q2.len() + w.len() - i,
{
    if i >= q1.len() && i >= q2.len() && i >= w.len() {
        vstd::arithmetic::div_mod::lemma_small_mod(0, m as nat);
    } else {
        lemma_conv_congruent(q1, q2, w, b, m, k, i + 1);
        let c1 = coeff(q1, i);
        let c2 = coeff(q2, i);
        let cw = coeff(w, i);
        let z = coeff(b, k - i);
        assert((c1 - c2 - cw) % m == 0);
        lemma_mod_mul_zero(c1 - c2 - cw, z, m);
        assert((c1 - c2 - cw) * z == c1 * z - c2 * z - cw * z) by (nonlinear_arith);
        // Each tail expands by one product term, at any index.
        assert(conv_from(q1, b, k, i) == c1 * z + conv_from(q1, b, k, i + 1)) by {
            if i >= q1.len() {
                vstd::arithmetic::mul::lemma_mul_basics(z);
            }
        }
        assert(conv_from(q2, b, k, i) == c2 * z + conv_from(q2, b, k, i + 1)) by {
            if i >= q2.len() {
                vstd::arithmetic::mul::lemma_mul_basics(z);
            }
        }
        assert(conv_from(w, b, k, i) == cw * z + conv_from(w, b, k, i + 1)) by {
            if i >= w.len() {
                vstd::arithmetic::mul::lemma_mul_basics(z);
            }
        }
        lemma_mod_add_zero(
            (c1 - c2 - cw) * z,
            conv_from(q1, b, k, i + 1) - conv_from(q2, b, k, i + 1) - conv_from(w, b, k, i + 1),
            m,
        );
    }
}

/// Coefficient-wise congruence modulo `m` carries through the
/// wrap-around sums.
pub proof fn lemma_fold_congruent(
    s1: Seq<i64>,
    s2: Seq<i64>,
    s3: Seq<i64>,
    n: int,
    j: int,
    m: int,
)
    requires
        m >= 1,
        n >= 1,
        j >= 0,
        forall|t: int| #[trigger] ((coeff(s1, t) - coeff(s2, t) - coeff(s3, t)) % m) == 0,
    ensures
        (fold_from(s1, n, j) - fold_from(s2, n, j) - fold_from(s3, n, j)) % m == 0,
    decreases s1.len() + s2.len() + s3.len() + n - j,
{
    if j >= s1.len() && j >= s2.len() && j >= s3.len() {
        vstd::arithmetic::div_mod::lemma_small_mod(0, m as nat);
    } else {
        lemma_fold_congruent(s1, s2, s3, n, j + n, m);
        assert(fold_from(s1, n, j) == coeff(s1, j) + fold_from(s1, n, j + n));
        assert(fold_from(s2, n, j) == coeff(s2, j) + fold_from(s2, n, j + n));
        assert(fold_from(s3, n, j) == coeff(s3, j) + fold_from(s3, n, j + n));
        lemma_mod_add_zero(
            coeff(s1, j) - coeff(s2, j) - coeff(s3, j),
            fold_from(s1, n, j + n) - fold_from(s2, n, j + n) - fold_from(s3, n, j + n),
            m,
        );
    }
}

/// The coefficients of the ring product, over the whole ring dimension,
/// are the wrap-around sums of the plain product.
pub proof fn lemma_ring_mul_coeff(a: Seq<i64>, b: Seq<i64>, n: int)
    requires
        bounded(a, 0x10_0000),
        bounded(b, 0x10_0000),
        a.len() <= 1024,
        b.len() <= 1024,
        1 <= n <= 2048,
    ensures
        forall|j: int|
            0 <= j < n ==> #[trigger] coeff(ring_mul(a, b, n), j) == fold_from(mul_seq(a, b), n, j),
{
    let ms = mul_seq(a, b);
    lemma_mul_seq_coeff(a, b);
    assert forall|j: int| 0 <= j < n implies #[trigger] coeff(ring_mul(a, b, n), j) == fold_from(
        ms,
        n,
        j,
    ) by {
        assert(bounded(ms, 0x4_0000_0000_0000)) by {
            assert forall|t: int|
                0 <= t < ms.len() implies -0x4_0000_0000_0000 <= #[trigger] (ms[t] as int)
                <= 0x4_0000_0000_0000 by {
                lemma_conv_from_bound(a, b, t, 0, 0x10_0000, 0x10_0000);
                assert(coeff(ms, t) == prod_at(a, b, t));
            }
        }
        if j < ring_mul(a, b, n).len() {
            lemma_fold_from_bound(ms, n, j, 0x4_0000_0000_0000);
        } else {
            // Beyond the product length nothing folds onto this index.
            assert(fold_from(ms, n, j) == 0);
        }
    }
}

/// Appending one coefficient raises the count of exactly that value.
pub proof fn lemma_count_push(s: Seq<i64>, x: i64, v: i64)
    ensures
        count_of(s.push(x), v) == count_of(s, v) + (if x == v {
            1nat
        } else {
            0nat
        }),
{
    assert(s.push(x).drop_last() =~= s);
    assert(s.push(x).last() == x);
}

/// Basic facts about `deg_spec`: it lies below the length, the
/// coefficient there is nonzero unless the polynomial is zero, and all
/// higher coefficients vanish.
pub proof fn lemma_deg_spec(s: Seq<i64>)
    ensures
        s.len() == 0 ==> deg_spec(s) == 0,
        s.len() > 0 ==> deg_spec(s) < s.len(),
        zero_poly(s) ==> deg_spec(s) == 0,
        !zero_poly(s) ==> coeff(s, deg_spec(s) as int) != 0,
        forall|i: int| i > deg_spec(s) ==> #[trigger] coeff(s, i) == 0,
    decreases s.len(),
{
    if s.len() == 0 {
    } else if s[s.len() - 1] != 0 {
        assert(!zero_poly(s));
    } else {
        let t = s.drop_last();
        lemma_deg_spec(t);
        assert(forall|i: int| 0 <= i < t.len() ==> t[i] == s[i]);
        assert(zero_poly(t) ==> zero_poly(s));
        if !zero_poly(s) {
            assert(!zero_poly(t)) by {
                let w = choose|w: int| 0 <= w < s.len() && s[w] != 0;
                assert(w < t.len() && t[w] != 0);
            }
            assert(coeff(t, deg_spec(t) as int) != 0);
            assert(coeff(s, deg_spec(s) as int) != 0);
        }
        assert forall|i: int| i > deg_spec(s) implies #[trigger] coeff(s, i) == 0 by {
            if 0 <= i < s.len() {
                if i == s.len() - 1 {
                } else {
                    assert(coeff(t, i) == 0);
                }
            }
        }
    }
}

/// Trimming keeps every coefficient: `trim_spec(s)` denotes the same
/// polynomial as `s`, its length is positive, and it is canonical.
pub proof fn lemma_trim_spec(s: Seq<i64>)
    ensures
        trim_spec(s).len() >= 1,
        poly_eq_spec(trim_spec(s), s),
        forall|i: int| #[trigger] coeff(trim_spec(s), i) == coeff(s, i),
        zero_poly(s) <==> trim_spec(s) =~= seq![0i64],
        trim_spec(s).len() == 1 || trim_spec(s).last() != 0,
        deg_spec(s) < trim_spec(s).len(),
        !zero_poly(s) ==> trim_spec(s).len() == deg_spec(s) + 1 && trim_spec(s).len() <= s.len(),
{
    lemma_deg_spec(s);
    if zero_poly(s) {
        assert forall|i: int| true implies #[trigger] coeff(trim_spec(s), i) == coeff(s, i) by {
            if 0 <= i < s.len() {
                assert(s[i] == 0);
            }
        }
    } else {
        let t = s.take(deg_spec(s) as int + 1);
        assert forall|i: int| true implies #[trigger] coeff(t, i) == coeff(s, i) by {
            if 0 <= i <= deg_spec(s) {
                assert(t[i] == s[i]);
            } else if i > deg_spec(s) {
                assert(coeff(s, i) == 0);
            }
        }
        assert(t.last() == s[deg_spec(s) as int]);
        assert(!(trim_spec(s) =~= seq![0i64]));
    }
}

/// A polynomial already reduced, canonical and short enough for the ring
/// is its own canonical ring representative.
pub proof fn lemma_ring_form_identity(s: Seq<i64>, m: int, n: int)
    requires
        reduced(s, m),
        canonical(s),
        m >= 1,
        1 <= n,
        s.len() <= n,
    ensures
        ring_form(s, m, n) == s,
{
    let s1 = mod_seq(s, m);
    assert forall|i: int| 0 <= i < s.len() implies s1[i] == s[i] by {
        vstd::arithmetic::div_mod::lemma_small_mod(s[i] as nat, m as nat);
    }
    assert(s1 =~= s);
    lemma_trim_spec(s);
    lemma_deg_spec(s);
    let t = trim_spec(s);
    if zero_poly(s) {
        assert(s.len() == 1 && s[0] == 0);
        assert(t =~= s);
    } else {
        assert(s[s.len() - 1] != 0);
        assert(deg_spec(s) == s.len() - 1);
        assert(t =~= s);
    }
    // With every index below `n`, folding modulo `x^n - 1` changes nothing.
    let f = ring_fold(s, n);
    assert forall|k: int| 0 <= k < s.len() implies f[k] == s[k] by {
        assert(fold_from(s, n, k) == s[k] as int + fold_from(s, n, k + n));
        assert(fold_from(s, n, k + n) == 0);
    }
    assert(f =~= s);
    assert(ring_form(s, m, n) == trim_spec(mod_seq(s, m)));
    assert(ring_form(s, m, n) == s);
}

/// A bound on the convolution tail: at most `a.len() - i` products, each
/// bounded by `c1 * c2`.
pub proof fn lemma_conv_from_bound(a: Seq<i64>, b: Seq<i64>, k: int, i: int, c1: int, c2: int)
    requires
        bounded(a, c1),
        bounded(b, c2),
        0 <= c1,
        0 <= c2,
        0 <= i <= a.len(),
    ensures
        -((a.len() - i) * (c1 * c2)) <= conv_from(a, b, k, i) <= (a.len() - i) * (c1 * c2),
    decreases a.len() - i,
{
    if i >= a.len() {
        assert((a.len() - i) * (c1 * c2) == 0) by (nonlinear_arith)
            requires
                a.len() - i == 0,
        ;
    } else {
        lemma_conv_from_bound(a, b, k, i + 1, c1, c2);
        lemma_product_bound(coeff(a, i), c1, coeff(b, k - i), c2);
        assert(-((a.len() - i) * (c1 * c2)) <= conv_from(a, b, k, i) <= (a.len() - i) * (c1
            * c2)) by (nonlinear_arith)
            requires
                conv_from(a, b, k, i) == coeff(a, i) * coeff(b, k - i) + conv_from(a, b, k, i + 1),
                -(c1 * c2) <= coeff(a, i) * coeff(b, k - i) <= c1 * c2,
                -((a.len() - (i + 1)) * (c1 * c2)) <= conv_from(a, b, k, i + 1) <= (a.len() - (i
                    + 1)) * (c1 * c2),
        ;
    }
}

/// A bound on the wrap-around tail: at most `s.len() - j` terms, each
/// bounded by `c`.
pub proof fn lemma_fold_from_bound(s: Seq<i64>, n: int, j: int, c: int)
    requires
        bounded(s, c),
        0 <= c,
        n >= 1,
        j >= 0,
    ensures
        j >= s.len() ==> fold_from(s, n, j) == 0,
        j < s.len() ==> -((s.len() - j) * c) <= fold_from(s, n, j) <= (s.len() - j) * c,
        -(s.len() * c) <= fold_from(s, n, j) <= s.len() * c,
    decreases s.len() + n - j,
{
    if j >= s.len() {
        assert(s.len() * c >= 0) by (nonlinear_arith)
            requires
                s.len() >= 0,
                c >= 0,
        ;
    } else {
        lemma_fold_from_bound(s, n, j + n, c);
        let tail = fold_from(s, n, j + n);
        assert(-((s.len() - j - 1) * c) <= tail <= (s.len() - j - 1) * c) by (nonlinear_arith)
            requires
                j + n >= s.len() ==> tail == 0,
                j + n < s.len() ==> -((s.len() - (j + n)) * c) <= tail <= (s.len() - (j + n)) * c,
                n >= 1,
                c >= 0,
                j < s.len(),
        ;
        assert(-((s.len() - j) * c) <= s[j] as int + tail <= (s.len() - j) * c)
            by (nonlinear_arith)
            requires
                -c <= s[j] as int <= c,
                -((s.len() - j - 1) * c) <= tail <= (s.len() - j - 1) * c,
        ;
        assert((s.len() - j) * c <= s.len() * c && -(s.len() * c) <= -((s.len() - j) * c))
            by (nonlinear_arith)
            requires
                j >= 0,
                c >= 0,
        ;
    }
}

} // verus!
