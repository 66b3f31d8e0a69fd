//! Integer helpers: Euclidean remainder, centered lift, greatest common
//! divisor, the extended Euclidean algorithm and modular inverses.

use vstd::prelude::*;
use vstd::arithmetic::div_mod::{
    lemma_fundamental_div_mod, lemma_fundamental_div_mod_converse_mod, lemma_add_mod_noop,
    lemma_mul_mod_noop_left, lemma_mul_mod_noop_right, lemma_mod_multiples_vanish,
    lemma_mod_self_0, lemma_mod_sub_multiples_vanish, lemma_small_mod,
};
use vstd::arithmetic::mul::{
    lemma_mul_basics, lemma_mul_is_commutative, lemma_mul_is_distributive_add,
    lemma_mul_unary_negation,
};
use crate::errors::NtruError;
use crate::center_lift_spec;

verus! {

/// The absolute value of a mathematical integer.
pub open spec fn abs_int(a: int) -> int {
    if a < 0 {
        -a
    } else {
        a
    }
}

/// Euclid's greatest common divisor of two naturals; `gcd_spec(a, 0) == a`.
pub open spec fn gcd_spec(a: nat, b: nat) -> nat
    decreases b,
{
    if b == 0 {
        a
    } else {
        gcd_spec(b, (a as int % b as int) as nat)
    }
}

/// `m` is a prime number.
pub open spec fn is_prime_spec(m: int) -> bool {
    m >= 2 && forall|k: int| 1 < k < m ==> #[trigger] (m % k) != 0
}

/// The gcd of two naturals, not both zero, is positive.
pub proof fn lemma_gcd_pos(a: nat, b: nat)
    requires
        a > 0 || b > 0,
    ensures
        gcd_spec(a, b) > 0,
    decreases b,
{
    if b > 0 {
        lemma_gcd_pos(b, (a as int % b as int) as nat);
    }
}

/// The gcd of two naturals, not both zero, divides both of them.
pub proof fn lemma_gcd_divides(a: nat, b: nat)
    requires
        a > 0 || b > 0,
    ensures
        gcd_spec(a, b) > 0,
        a as int % gcd_spec(a, b) as int == 0,
        b as int % gcd_spec(a, b) as int == 0,
    decreases b,
{
    lemma_gcd_pos(a, b);
    let g = gcd_spec(a, b) as int;
    if b == 0 {
        lemma_mod_self_0(a as int);
        lemma_small_mod(0, a);
    } else {
        assert(gcd_spec(a, b) == gcd_spec(b, (a as int % b as int) as nat));
        lemma_gcd_divides(b, (a as int % b as int) as nat);
        let q = a as int / b as int;
        let r = a as int % b as int;
        lemma_fundamental_div_mod(a as int, b as int);
        assert(a as int == b as int * q + r);
        lemma_mul_mod_noop_left(b as int, q, g);
        assert(((b as int % g) * q) % g == (b as int * q) % g);
        lemma_mul_basics(q);
        lemma_small_mod(0, g as nat);
        assert((b as int * q) % g == 0);
        lemma_add_mod_noop(b as int * q, r, g);
        assert(a as int % g == ((b as int * q) % g + r % g) % g);
    }
}

/// Law: modulo a prime `m`, any `a` that is not congruent to zero is
/// coprime to `m`, so its modular inverse exists (`inverse` returns `Ok`).
pub proof fn lemma_inverse_exists_mod_prime(a: int, m: int)
    requires
        is_prime_spec(m),
        a % m != 0,
    ensures
        gcd_spec(abs_int(a) as nat, m as nat) == 1,
{
    let aa = abs_int(a);
    lemma_gcd_divides(aa as nat, m as nat);
    let g = gcd_spec(aa as nat, m as nat) as int;
    assert(m % g == 0);
    assert(g <= m) by {
        if g > m {
            lemma_small_mod(m as nat, g as nat);
        }
    }
    if g == m {
        // Then m divides |a|, so a is congruent to 0 modulo m.
        assert(aa % m == 0);
        lemma_fundamental_div_mod(aa, m);
        let k = aa / m;
        assert(aa == m * k);
        lemma_mul_is_commutative(m, k);
        assert(aa == k * m);
        if a < 0 {
            lemma_mul_unary_negation(k, m);
            assert(a == (-k) * m);
            lemma_fundamental_div_mod_converse_mod(a, m, -k, 0);
        } else {
            lemma_fundamental_div_mod_converse_mod(a, m, k, 0);
        }
        assert(false);
    }
    if 1 < g < m {
        assert(false);
    }
}

/// The smallest divisor (at least 2) of a number is prime.
pub proof fn lemma_smallest_divisor_prime(m: int, p: int)
    requires
        2 <= p <= m,
        m % p == 0,
        forall|k: int| 2 <= k < p ==> #[trigger] (m % k) != 0,
    ensures
        is_prime_spec(p),
{
    assert forall|k: int| 1 < k < p implies #[trigger] (p % k) != 0 by {
        if p % k == 0 {
            lemma_fundamental_div_mod(p, k);
            lemma_fundamental_div_mod(m, p);
            assert(m == k * ((p / k) * (m / p))) by (nonlinear_arith)
                requires
                    p == k * (p / k) + p % k,
                    p % k == 0,
                    m == p * (m / p) + m % p,
                    m % p == 0,
            ;
            lemma_mul_is_commutative(k, (p / k) * (m / p));
            lemma_fundamental_div_mod_converse_mod(m, k, (p / k) * (m / p), 0);
            assert(m % k == 0);
            assert(false);
        }
    }
}

/// The Euclidean remainder of `a` modulo `m`, always in `[0, m)`.
pub fn euclid_mod(a: i64, m: i64) -> (r: i64)
    requires
        m >= 1,
    ensures
        r as int == (a as int) % (m as int),
        0 <= r < m,
{
    if a >= 0 {
        let r = ((a as u64) % (m as u64)) as i64;
        proof {
            lemma_small_mod((a as int % m as int) as nat, m as nat);
        }
        r
    } else {
        let b = -(a + 1);
        let rb = ((b as u64) % (m as u64)) as i64;
        proof {
            let bi = b as int;
            let mi = m as int;
            let k = bi / mi;
            lemma_fundamental_div_mod(bi, mi);
            assert(bi == mi * k + bi % mi);
            lemma_mul_is_distributive_add(mi, -k, -1);
            lemma_mul_unary_negation(mi, k);
            assert(mi * (-k + -1) == -(mi * k) - mi);
            assert(a as int == mi * (-k - 1) + (mi - 1 - bi % mi));
            lemma_fundamental_div_mod_converse_mod(a as int, mi, -k - 1, mi - 1 - bi % mi);
        }
        (m - 1) - rb
    }
}

/// The representative of `a` modulo `m` centered around zero: reduce into
/// `[0, m)`, then subtract `m` from any value above `m / 2`.
pub fn center_lift(a: i64, m: i64) -> (r: i64)
    requires
        m >= 1,
    ensures
        r as int == center_lift_spec(a as int, m as int),
        r as int % (m as int) == (a as int) % (m as int),
        -((m as int) / 2) <= r as int <= (m as int) / 2,
{
    let r0 = euclid_mod(a, m);
    let half = ((m as u64) / 2) as i64;
    proof {
        let mi = m as int;
        lemma_fundamental_div_mod(mi, 2);
        if r0 as int > mi / 2 {
            lemma_mod_sub_multiples_vanish(r0 as int, mi);
            lemma_small_mod(r0 as nat, m as nat);
        } else {
            lemma_small_mod(r0 as nat, m as nat);
        }
    }
    if r0 > half {
        r0 - m
    } else {
        r0
    }
}

/// Greatest common divisor of two integers, not both zero; the result is
/// `gcd_spec` of their absolute values and is always positive.
pub fn gcd(a: i64, b: i64) -> (r: i64)
    requires
        !(a == 0 && b == 0),
        a != i64::MIN,
        b != i64::MIN,
    ensures
        r as int == gcd_spec(abs_int(a as int) as nat, abs_int(b as int) as nat),
        r >= 1,
{
    let mut x: i64 = if a < 0 { -a } else { a };
    let mut y: i64 = if b < 0 { -b } else { b };
    while y != 0
        invariant
            x >= 0,
            y >= 0,
            !(x == 0 && y == 0),
            gcd_spec(x as nat, y as nat) == gcd_spec(
                abs_int(a as int) as nat,
                abs_int(b as int) as nat,
            ),
        decreases y,
    {
        let r = ((x as u64) % (y as u64)) as i64;
        x = y;
        y = r;
    }
    proof {
        lemma_gcd_pos(x as nat, 0);
    }
    x
}

/// A product of two values bounded in magnitude is bounded by the product
/// of the bounds.
#[verifier::nonlinear]
pub proof fn lemma_product_bound(x: int, xb: int, y: int, yb: int)
    requires
        -xb <= x <= xb,
        -yb <= y <= yb,
        0 <= xb,
        0 <= yb,
    ensures
        -(xb * yb) <= x * y <= xb * yb,
{
}

/// The extended Euclidean algorithm. For `(a, b)` not both zero it returns
/// `(d, x, y)` with `d == gcd(|a|, |b|)` and the Bezout identity
/// `d == |a|*x + |b|*y`; the coefficients satisfy `|x| <= |b| + 1` and
/// `|y| <= |a| + 1`.
pub fn extended_gcd(a: i64, b: i64) -> (res: (i64, i64, i64))
    requires
        !(a == 0 && b == 0),
        a != i64::MIN,
        b != i64::MIN,
    ensures
        res.0 as int == gcd_spec(abs_int(a as int) as nat, abs_int(b as int) as nat),
        res.0 >= 1,
        res.0 as int == abs_int(a as int) * res.1 as int + abs_int(b as int) * res.2 as int,
        abs_int(res.1 as int) <= (if b == 0 { 1int } else { abs_int(b as int) }),
        abs_int(res.2 as int) <= (if a == 0 { 1int } else { abs_int(a as int) }),
{
    let a_abs: i64 = if a < 0 { -a } else { a };
    let b_abs: i64 = if b < 0 { -b } else { b };
    if b_abs == 0 {
        proof {
            lemma_mul_basics(a_abs as int);
            lemma_mul_basics(0int);
        }
        return (a_abs, 1, 0);
    }
    if a_abs == 0 {
        proof {
            lemma_small_mod(0, b_abs as nat);
            assert(gcd_spec(0, b_abs as nat) == gcd_spec(b_abs as nat, (0int % b_abs as int) as nat));
            assert(gcd_spec(b_abs as nat, 0) == b_abs as nat);
            lemma_mul_basics(b_abs as int);
            lemma_mul_basics(0int);
        }
        return (b_abs, 0, 1);
    }
    let aa: i128 = a_abs as i128;
    let bb: i128 = b_abs as i128;
    let mut r0: i128 = aa;
    let mut r1: i128 = bb;
    let mut x0: i128 = 1;
    let mut x1: i128 = 0;
    let mut y0: i128 = 0;
    let mut y1: i128 = 1;
    proof {
        lemma_mul_basics(aa as int);
        lemma_mul_basics(bb as int);
        lemma_mul_basics(0int);
        lemma_mul_basics(1int);
    }
    while r1 != 0
        invariant
            1 <= aa <= 0x7fff_ffff_ffff_ffff,
            1 <= bb <= 0x7fff_ffff_ffff_ffff,
            1 <= r0,
            0 <= r1,
            r0 <= aa || r0 <= bb,
            r1 <= aa || r1 <= bb,
            aa as int * x0 as int + bb as int * y0 as int == r0 as int,
            aa as int * x1 as int + bb as int * y1 as int == r1 as int,
            x0 as int * x1 as int <= 0,
            y0 as int * y1 as int <= 0,
            r0 as int * abs_int(x1 as int) + r1 as int * abs_int(x0 as int) == bb as int,
            r0 as int * abs_int(y1 as int) + r1 as int * abs_int(y0 as int) == aa as int,
            abs_int(x0 as int) <= bb as int,
            abs_int(y0 as int) <= aa as int,
            gcd_spec(r0 as nat, r1 as nat) == gcd_spec(aa as nat, bb as nat),
        decreases r1 as int,
    {
        let ghost r0i = r0 as int;
        let ghost r1i = r1 as int;
        let ghost x0i = x0 as int;
        let ghost x1i = x1 as int;
        let ghost y0i = y0 as int;
        let ghost y1i = y1 as int;
        let ghost ax0 = abs_int(x0i);
        let ghost ax1 = abs_int(x1i);
        let ghost ay0 = abs_int(y0i);
        let ghost ay1 = abs_int(y1i);
        let ghost mx: int = 0x7fff_ffff_ffff_ffff;
        proof {
            // Inside the loop both remainders are at least 1, so the two
            // weighted-sum invariants bound the Bezout coefficients.
            assert(ax1 <= bb as int && ay1 <= aa as int) by (nonlinear_arith)
                requires
                    r0i * ax1 + r1i * ax0 == bb as int,
                    r0i * ay1 + r1i * ay0 == aa as int,
                    r0i >= 1,
                    r1i >= 1,
                    ax0 >= 0,
                    ax1 >= 0,
                    ay0 >= 0,
                    ay1 >= 0,
            ;
        }
        let q: i128 = ((r0 as u128) / (r1 as u128)) as i128;
        let ghost qi = q as int;
        proof {
            lemma_fundamental_div_mod(r0i, r1i);
            assert(qi == r0i / r1i);
            assert(0 <= qi <= r0i) by (nonlinear_arith)
                requires
                    qi == r0i / r1i,
                    1 <= r1i,
                    1 <= r0i,
            ;
            lemma_product_bound(qi, mx, x1 as int, bb as int);
            lemma_product_bound(qi, mx, y1 as int, aa as int);
            lemma_product_bound(qi, mx, r1i, mx);
        }
        let r2: i128 = r0 - q * r1;
        let x2: i128 = x0 - q * x1;
        let y2: i128 = y0 - q * y1;
        let ghost r2i = r2 as int;
        let ghost x2i = x2 as int;
        let ghost y2i = y2 as int;
        let ghost ax2 = abs_int(x2i);
        let ghost ay2 = abs_int(y2i);
        proof {
            lemma_mul_is_commutative(r1i, qi);
            assert(r2i == r0i % r1i);
            assert(0 <= r2i < r1i);
            // The Bezout relations are preserved.
            assert(aa as int * x2i + bb as int * y2i == (aa as int * x0i + bb as int * y0i) - qi
                * (aa as int * x1i + bb as int * y1i)) by (nonlinear_arith)
                requires
                    x2i == x0i - qi * x1i,
                    y2i == y0i - qi * y1i,
            ;
            assert(qi * r1i == r0i - r2i) by (nonlinear_arith)
                requires
                    r2i == r0i - qi * r1i,
            ;
            // Consecutive coefficients keep opposite signs.
            assert(x1i * x2i <= 0 && y1i * y2i <= 0) by (nonlinear_arith)
                requires
                    x2i == x0i - qi * x1i,
                    y2i == y0i - qi * y1i,
                    x0i * x1i <= 0,
                    y0i * y1i <= 0,
                    qi >= 0,
            ;
            // Magnitudes add up exactly because the signs alternate.
            assert(ax2 == ax0 + qi * ax1 && ay2 == ay0 + qi * ay1) by (nonlinear_arith)
                requires
                    x2i == x0i - qi * x1i,
                    y2i == y0i - qi * y1i,
                    x0i * x1i <= 0,
                    y0i * y1i <= 0,
                    qi >= 0,
                    (x0i >= 0 ==> ax0 == x0i) && (x0i < 0 ==> ax0 == -x0i),
                    (x1i >= 0 ==> ax1 == x1i) && (x1i < 0 ==> ax1 == -x1i),
                    (x2i >= 0 ==> ax2 == x2i) && (x2i < 0 ==> ax2 == -x2i),
                    (y0i >= 0 ==> ay0 == y0i) && (y0i < 0 ==> ay0 == -y0i),
                    (y1i >= 0 ==> ay1 == y1i) && (y1i < 0 ==> ay1 == -y1i),
                    (y2i >= 0 ==> ay2 == y2i) && (y2i < 0 ==> ay2 == -y2i),
            ;
            // The weighted-sum invariants are preserved.
            assert(r1i * ax2 + r2i * ax1 == bb as int && r1i * ay2 + r2i * ay1 == aa as int)
                by (nonlinear_arith)
                requires
                    ax2 == ax0 + qi * ax1,
                    ay2 == ay0 + qi * ay1,
                    r2i == r0i - qi * r1i,
                    r0i * ax1 + r1i * ax0 == bb as int,
                    r0i * ay1 + r1i * ay0 == aa as int,
            ;
            assert(gcd_spec(r1 as nat, r2 as nat) == gcd_spec(r0 as nat, r1 as nat));
        }
        r0 = r1;
        r1 = r2;
        x0 = x1;
        x1 = x2;
        y0 = y1;
        y1 = y2;
    }
    (r0 as i64, x0 as i64, y0 as i64)
}

/// The inverse of `a` modulo `m`: the unique `inv` in `[0, m)` with
/// `(a * inv) % m == 1`, which exists exactly when `gcd(|a|, m) == 1`.
pub fn inverse(a: i64, m: i64) -> (res: Result<i64, NtruError>)
    requires
        2 <= m,
        a != i64::MIN,
    ensures
        match res {
            Ok(inv) => gcd_spec(abs_int(a as int) as nat, m as nat) == 1 && 0 <= inv < m && (
            a as int * inv as int) % (m as int) == 1,
            Err(e) => e == NtruError::NoInverse && gcd_spec(abs_int(a as int) as nat, m as nat)
                != 1,
        },
{
    let (d, x, y) = extended_gcd(a, m);
    if d != 1 {
        return Err(NtruError::NoInverse);
    }
    let xs: i64 = if a < 0 { -x } else { x };
    let inv = euclid_mod(xs, m);
    proof {
        let ai = a as int;
        let xi = x as int;
        let yi = y as int;
        let mi = m as int;
        let aai = abs_int(ai);
        assert(aai * xi + mi * yi == 1);
        assert(ai * xs as int == aai * xi) by (nonlinear_arith)
            requires
                (ai >= 0 ==> aai == ai && xs as int == xi),
                (ai < 0 ==> aai == -ai && xs as int == -xi),
        ;
        assert(ai * xs as int == mi * (-yi) + 1) by (nonlinear_arith)
            requires
                ai * xs as int == aai * xi,
                aai * xi + mi * yi == 1,
        ;
        lemma_mod_multiples_vanish(-yi, 1, mi);
        lemma_small_mod(1, mi as nat);
        assert((ai * xs as int) % mi == 1);
        lemma_mul_mod_noop_right(ai, xs as int, mi);
        assert((ai * (xs as int % mi)) % mi == 1);
    }
    Ok(inv)
}

} // verus!

