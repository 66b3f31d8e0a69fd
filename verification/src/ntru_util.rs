//! Message serialization: an octet string becomes a ternary polynomial by
//! writing each byte in base 3 with five digits and carrying the digit 2
//! as the coefficient -1; deserialization reads the digits back modulo 3.

use vstd::prelude::*;
use vstd::arithmetic::div_mod::{
    lemma_div_pos_is_pos, lemma_fundamental_div_mod,
    lemma_fundamental_div_mod_converse, lemma_div_denominator, lemma_basic_div,
};
use crate::convolution_polynomial::ConvPoly;
use crate::poly_specs::coeff;

verus! {

/// The j-th power of three.
pub open spec fn pow3(j: nat) -> int
    decreases j,
{
    if j == 0 {
        1
    } else {
        3 * pow3((j - 1) as nat)
    }
}

/// The j-th base-3 digit of `b`.
pub open spec fn trit(b: int, j: nat) -> int {
    (b / pow3(j)) % 3
}

/// The coefficient that carries a base-3 digit: 2 is written as -1.
pub open spec fn bal(d: int) -> int {
    if d == 2 {
        -1
    } else {
        d
    }
}

/// The base-3 digit carried by a coefficient in `[-1, 2]`.
pub open spec fn trit_val(c: int) -> int {
    if c < 0 {
        c + 3
    } else {
        c
    }
}

/// The serialized form of a message: five balanced base-3 digits per
/// byte, lowest digit first.
pub open spec fn serialize_spec(msg: Seq<u8>) -> Seq<i64> {
    Seq::new(5 * msg.len(), |i: int| bal(trit(msg[i / 5] as int, (i % 5) as nat)) as i64)
}

/// The byte encoded by the five coefficients of `s` starting at `base`.
pub open spec fn byte_at(s: Seq<i64>, base: int) -> int {
    trit_val(coeff(s, base)) + 3 * trit_val(coeff(s, base + 1)) + 9 * trit_val(coeff(s, base + 2))
        + 27 * trit_val(coeff(s, base + 3)) + 81 * trit_val(coeff(s, base + 4))
}

/// A byte below `3^5` is the value of its five balanced digits: the law
/// behind the serialization round trip.
pub proof fn lemma_byte_digits(b: int)
    requires
        0 <= b < 243,
    ensures
        b == trit_val(bal(trit(b, 0))) + 3 * trit_val(bal(trit(b, 1))) + 9 * trit_val(
            bal(trit(b, 2)),
        ) + 27 * trit_val(bal(trit(b, 3))) + 81 * trit_val(bal(trit(b, 4))),
{
    assert(pow3(0) == 1);
    assert(pow3(1) == 3);
    assert(pow3(2) == 9);
    assert(pow3(3) == 27);
    assert(pow3(4) == 81);
    assert(b / 1 == b) by (nonlinear_arith);
    lemma_div_denominator(b, 3, 3);
    lemma_div_denominator(b, 9, 3);
    lemma_div_denominator(b, 27, 3);
    lemma_fundamental_div_mod(b, 3);
    lemma_fundamental_div_mod(b / 3, 3);
    lemma_fundamental_div_mod(b / 9, 3);
    lemma_fundamental_div_mod(b / 27, 3);
    lemma_basic_div(b / 81, 3);
    assert(b / 81 < 3);
    lemma_div_pos_is_pos(b / 81, 3);
    lemma_fundamental_div_mod(b / 81, 3);
    assert(forall|d: int| 0 <= d < 3 ==> trit_val(bal(d)) == d);
    assert(0 <= trit(b, 0) < 3);
    assert(0 <= trit(b, 1) < 3);
    assert(0 <= trit(b, 2) < 3);
    assert(0 <= trit(b, 3) < 3);
    assert(0 <= trit(b, 4) < 3);
}

/// Law: deserialization undoes serialization. For any coefficient
/// sequence that carries the balanced base-3 digits of a byte sequence
/// (each byte below `3^5`), reading the bytes back recovers the message
/// exactly.
pub proof fn lemma_serialize_round_trip(msg: Seq<u8>, s: Seq<i64>)
    requires
        s.len() == 5 * msg.len(),
        forall|i: int|
            0 <= i < s.len() ==> #[trigger] (s[i] as int) == bal(trit(msg[i / 5] as int, (i
                % 5) as nat)),
        forall|bi: int| 0 <= bi < msg.len() ==> #[trigger] (msg[bi] as int) < 243,
    ensures
        forall|bi: int| 0 <= bi < msg.len() ==> byte_at(s, 5 * bi) == msg[bi] as int,
{
    assert forall|bi: int| 0 <= bi < msg.len() implies byte_at(s, 5 * bi) == msg[bi] as int by {
        let b = msg[bi] as int;
        assert(b < 243);
        lemma_byte_digits(b);
        assert forall|j: int| 0 <= j < 5 implies #[trigger] coeff(s, 5 * bi + j) == bal(
            trit(b, j as nat),
        ) by {
            let x = 5 * bi + j;
            assert(0 <= x < s.len()) by (nonlinear_arith)
                requires
                    x == 5 * bi + j,
                    0 <= bi < msg.len(),
                    0 <= j < 5,
                    s.len() == 5 * msg.len(),
            ;
            assert(s[x] as int == bal(trit(msg[x / 5] as int, (x % 5) as nat)));
            lemma_fundamental_div_mod_converse(x, 5, bi, j);
            assert(x / 5 == bi && x % 5 == j);
        }
    }
}

/// Encodes an octet string as a ternary polynomial: five balanced base-3
/// digits per byte, lowest digit first. Every byte must lie below `3^5`.
pub fn serialize(msg: Vec<u8>) -> (r: ConvPoly)
    requires
        forall|i: int| 0 <= i < msg@.len() ==> #[trigger] (msg@[i] as int) < 243,
        msg@.len() <= 400,
    ensures
        r@ == serialize_spec(msg@),
        r@.len() == 5 * msg@.len(),
        forall|i: int|
            0 <= i < r@.len() ==> #[trigger] (r@[i] as int) == bal(trit(msg@[i / 5] as int, (i
                % 5) as nat)),
        forall|i: int| 0 <= i < r@.len() ==> -1 <= #[trigger] (r@[i] as int) <= 1,
{
    let len = msg.len();
    let mut v: Vec<i64> = Vec::new();
    let mut bi: usize = 0;
    while bi < len
        invariant
            0 <= bi <= len,
            len == msg@.len(),
            len <= 400,
            forall|i: int| 0 <= i < msg@.len() ==> #[trigger] (msg@[i] as int) < 243,
            v@.len() == 5 * bi,
            forall|i: int|
                0 <= i < v@.len() ==> #[trigger] (v@[i] as int) == bal(trit(msg@[i / 5] as int, (
                i % 5) as nat)),
            forall|i: int| 0 <= i < v@.len() ==> -1 <= #[trigger] (v@[i] as int) <= 1,
        decreases len - bi,
    {
        let b0 = msg[bi];
        let mut b: u64 = b0 as u64;
        let mut j: usize = 0;
        proof {
            assert(pow3(0) == 1);
            assert(b0 as int / 1 == b0 as int) by (nonlinear_arith);
        }
        while j < 5
            invariant
                0 <= j <= 5,
                bi < len,
                len == msg@.len(),
                len <= 400,
                (b0 as int) == (msg@[bi as int] as int),
                0 <= (b0 as int) < 243,
                (b as int) == (b0 as int) / pow3(j as nat),
                b < 243,
                v@.len() == 5 * bi + j,
                forall|i: int|
                    0 <= i < v@.len() ==> #[trigger] (v@[i] as int) == bal(
                        trit(msg@[i / 5] as int, (i % 5) as nat),
                    ),
                forall|i: int| 0 <= i < v@.len() ==> -1 <= #[trigger] (v@[i] as int) <= 1,
            decreases 5 - j,
        {
            let d = (b % 3) as i64;
            let c: i64 = if d == 2 {
                -1
            } else {
                d
            };
            proof {
                let x = 5 * bi + j;
                lemma_fundamental_div_mod_converse(x as int, 5, bi as int, j as int);
                assert(x as int / 5 == bi as int && x as int % 5 == j as int);
                assert(c as int == bal(trit(b0 as int, j as nat)));
                // The next quotient is the value at the next digit.
                lemma_pow3_pos(j as nat);
                lemma_div_denominator(b0 as int, pow3(j as nat), 3);
                assert(pow3((j + 1) as nat) == 3 * pow3(j as nat));
                assert(pow3(j as nat) * 3 == 3 * pow3(j as nat)) by (nonlinear_arith);
                lemma_div_pos_is_pos(b as int, 3);
            }
            v.push(c);
            b = b / 3;
            j += 1;
        }
        bi += 1;
    }
    proof {
        assert(v@ =~= serialize_spec(msg@));
    }
    ConvPoly { coeffs: v }
}

/// Positivity of the powers of three.
pub proof fn lemma_pow3_pos(j: nat)
    ensures
        pow3(j) >= 1,
    decreases j,
{
    if j > 0 {
        lemma_pow3_pos((j - 1) as nat);
    }
}

/// Decodes a ternary polynomial back into an octet string: consecutive
/// groups of five coefficients, each read modulo 3, form one byte. A
/// final partial group is padded with zeros.
pub fn deserialize(poly: ConvPoly) -> (r: Vec<u8>)
    requires
        forall|i: int| 0 <= i < poly@.len() ==> -1 <= #[trigger] (poly@[i] as int) <= 2,
        poly@.len() <= 2048,
    ensures
        r@.len() == (poly@.len() + 4) / 5,
        forall|bi: int| 0 <= bi < r@.len() ==> #[trigger] (r@[bi] as int) == byte_at(poly@, 5 * bi),
        forall|bi: int| 0 <= bi < r@.len() ==> #[trigger] (r@[bi] as int) < 243,
{
    let len = poly.coeffs.len();
    let nbytes = (len + 4) / 5;
    let mut out: Vec<u8> = Vec::new();
    let mut bi: usize = 0;
    while bi < nbytes
        invariant
            0 <= bi <= nbytes,
            len == poly@.len(),
            len <= 2048,
            nbytes == (len + 4) / 5,
            forall|i: int| 0 <= i < poly@.len() ==> -1 <= #[trigger] (poly@[i] as int) <= 2,
            out@.len() == bi,
            forall|t: int|
                0 <= t < bi ==> #[trigger] (out@[t] as int) == byte_at(poly@, 5 * t),
            forall|t: int| 0 <= t < bi ==> #[trigger] (out@[t] as int) < 243,
        decreases nbytes - bi,
    {
        let base = 5 * bi;
        let c0 = digit_of(poly.coeff_at(base));
        let c1 = digit_of(poly.coeff_at(base + 1));
        let c2 = digit_of(poly.coeff_at(base + 2));
        let c3 = digit_of(poly.coeff_at(base + 3));
        let c4 = digit_of(poly.coeff_at(base + 4));
        let val: i64 = c0 + 3 * c1 + 9 * c2 + 27 * c3 + 81 * c4;
        out.push(val as u8);
        bi += 1;
    }
    out
}

/// The base-3 digit carried by one coefficient.
fn digit_of(c: i64) -> (r: i64)
    requires
        -1 <= c <= 2,
    ensures
        r as int == trit_val(c as int),
        0 <= r <= 2,
{
    if c < 0 {
        c + 3
    } else {
        c
    }
}

} // verus!
