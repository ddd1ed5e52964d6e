//! Whole numbers: where the arithmetic does not round.
//!
//! Sums, differences and products of whole numbers are exact as long as the
//! result has at most 53 bits, and so are quotients that come out even and
//! roots of squares.
use vstd::prelude::*;
use vstd::arithmetic::power2::{
    lemma2_to64_rest, lemma_pow2_adds, lemma_pow2_pos, lemma_pow2_strictly_increases,
    lemma_pow2_unfold, pow2,
};
use crate::number::nearest::{
    binade, lemma_binade_bounds, lemma_nearest_of_expanded, lemma_pattern_units,
    lemma_round_of_whole, nearest_dyadic_spec, nearest_pattern, round_half_even, signed,
    SIGNIFICAND_END,
};
use crate::number::root::{is_whole_root, lemma_whole_root_exists, lemma_whole_root_is_unique, whole_root};
use crate::number::scalar::{Scalar, INFINITY_BITS};
use crate::number::value::FRACTION_MODULUS;

verus! {

impl Scalar {
    /// Whether this is the whole number `k`. Zero may have either sign bit.
    pub open spec fn is_integer(self, k: int) -> bool {
        self.is_finite_spec() && self.signed_units() == k * pow2(1074)
    }
}

/// A whole number without a sign is that whole number.
pub proof fn lemma_whole_is_integer(a: Scalar, n: nat)
    requires
        a.is_whole(n),
    ensures
        a.is_integer(n as int),
{
}

/// A finite number of no units is a zero.
pub proof fn lemma_no_units_is_zero(a: Scalar)
    requires
        a.is_finite_spec(),
    ensures
        a.magnitude_units() == 0 <==> a.is_zero_spec(),
{
    if a.exponent_field() > 0 {
        lemma_pow2_pos((a.exponent_field() - 1) as nat);
        assert((a.fraction_field() + FRACTION_MODULUS) * pow2((a.exponent_field() - 1) as nat) > 0)
            by (nonlinear_arith)
            requires
                pow2((a.exponent_field() - 1) as nat) > 0,
                a.fraction_field() >= 0,
                FRACTION_MODULUS > 0,
        ;
    }
}

/// Two patterns of one whole number are one number.
pub proof fn lemma_integers_are_one_number(a: Scalar, b: Scalar, k: int)
    requires
        a.is_integer(k),
        b.is_integer(k),
    ensures
        a.same_number(b),
{
    lemma_integer_parts(a, k);
    lemma_integer_parts(b, k);
    if k != 0 {
        crate::number::value::lemma_one_pattern_per_number(a, b);
    }
}

/// A whole number of at most 53 bits is a double: rounding it changes
/// nothing.
pub proof fn lemma_whole_number_is_a_double(m: nat)
    requires
        0 < m < SIGNIFICAND_END,
    ensures
        nearest_pattern(m * pow2(1074), 1) < INFINITY_BITS,
        signed(nearest_pattern(m * pow2(1074), 1), false).is_integer(m as int),
        signed(nearest_pattern(m * pow2(1074), 1), true).is_integer(-(m as int)),
{
    let unit = pow2(1074);
    let n = m * unit;
    let e = binade(n, 1);
    let step = pow2(e);
    lemma2_to64_rest();
    lemma_pow2_pos(1074);
    lemma_pow2_pos(e);
    lemma_pow2_strictly_increases(53, 1074);
    lemma_binade_bounds(n, 1);
    assert(n >= unit) by (nonlinear_arith)
        requires
            n == m * unit,
            m >= 1,
            unit > 0,
    ;
    assert(SIGNIFICAND_END * 1 * 1 == SIGNIFICAND_END);
    assert(e > 0) by {
        if e == 0 {
            assert(pow2(0) == 1) by {
                vstd::arithmetic::power2::lemma2_to64();
            }
        }
    }
    // The step of the binade divides the unit.
    assert(step < 2 * unit) by (nonlinear_arith)
        requires
            n >= FRACTION_MODULUS * 1 * step,
            n == m * unit,
            m < 2 * FRACTION_MODULUS,
            FRACTION_MODULUS > 0,
            unit > 0,
    ;
    lemma_pow2_unfold(1075);
    if e >= 1075 {
        if e > 1075 {
            lemma_pow2_strictly_increases(1075, e);
        }
    }
    let fine = pow2((1074 - e) as nat);
    lemma_pow2_adds((1074 - e) as nat, e);
    let s = m * fine;
    assert(n == s * (1 * step)) by (nonlinear_arith)
        requires
            n == m * unit,
            unit == fine * step,
            s == m * fine,
    ;
    lemma_round_of_whole(s, 1 * step);
    assert(FRACTION_MODULUS <= s < SIGNIFICAND_END) by (nonlinear_arith)
        requires
            n == s * (1 * step),
            n < SIGNIFICAND_END * 1 * step,
            n >= FRACTION_MODULUS * 1 * step,
            step > 0,
    ;
    assert(e * FRACTION_MODULUS + s < INFINITY_BITS) by (nonlinear_arith)
        requires
            e <= 1074,
            s < 2 * FRACTION_MODULUS,
            FRACTION_MODULUS == 0x10_0000_0000_0000,
            INFINITY_BITS == 0x7FF0_0000_0000_0000,
    ;
    lemma_pattern_units(e, s);
    assert(s * step == m * unit) by (nonlinear_arith)
        requires
            n == s * (1 * step),
            n == m * unit,
    ;
    let p = nearest_pattern(n, 1);
    assert(p == e * FRACTION_MODULUS + s);
    assert(signed(p, false).magnitude() == p);
    assert(signed(p, true).magnitude() == p);
    assert(-(m as int) * unit == -(m * unit)) by (nonlinear_arith);
}

/// The negation of a whole number is the whole number of the other sign.
pub proof fn lemma_exact_negation(a: Scalar, x: int)
    requires
        a.is_integer(x),
    ensures
        a.neg_spec().is_integer(-x),
{
    assert(a.neg_spec().magnitude() == a.magnitude());
    assert(a.neg_spec().magnitude_units() == a.magnitude_units());
    assert((-x) * pow2(1074) == -(x * pow2(1074))) by (nonlinear_arith);
}

/// The sum of two whole numbers is their sum exactly where that has at most
/// 53 bits.
pub proof fn lemma_exact_sum(a: Scalar, b: Scalar, x: int, y: int)
    requires
        a.is_integer(x),
        b.is_integer(y),
        -SIGNIFICAND_END < x + y < SIGNIFICAND_END,
    ensures
        a.add_spec(b).is_integer(x + y),
{
    reveal(Scalar::add_spec);
    let unit = pow2(1074);
    lemma_pow2_pos(1074);
    let sum = a.signed_units() + b.signed_units();
    assert(sum == (x + y) * unit) by (nonlinear_arith)
        requires
            sum == x * unit + y * unit,
    ;
    assert((sum == 0 <==> x + y == 0) && (sum > 0 <==> x + y > 0)) by (nonlinear_arith)
        requires
            sum == (x + y) * unit,
            unit > 0,
    ;
    if x + y > 0 {
        lemma_whole_number_is_a_double((x + y) as nat);
    } else if x + y < 0 {
        lemma_whole_number_is_a_double((-(x + y)) as nat);
        assert(-sum == (-(x + y)) * unit) by (nonlinear_arith)
            requires
                sum == (x + y) * unit,
        ;
    } else {
        assert(0 * unit == 0);
    }
}

/// The difference of two whole numbers is their difference exactly where
/// that has at most 53 bits.
pub proof fn lemma_exact_difference(a: Scalar, b: Scalar, x: int, y: int)
    requires
        a.is_integer(x),
        b.is_integer(y),
        -SIGNIFICAND_END < x - y < SIGNIFICAND_END,
    ensures
        a.sub_spec(b).is_integer(x - y),
{
    lemma_exact_negation(b, y);
    lemma_exact_sum(a, b.neg_spec(), x, -y);
}

/// The sign bit of a whole number other than zero is set exactly when the
/// number is below zero, and its size in units is the size of the number.
proof fn lemma_integer_parts(a: Scalar, x: int)
    requires
        a.is_integer(x),
    ensures
        x != 0 ==> (a.is_sign_negative() <==> x < 0),
        x == 0 <==> a.is_zero_spec(),
        a.magnitude_units() == (if x < 0 {
            -x
        } else {
            x
        }) * pow2(1074),
{
    let unit = pow2(1074);
    lemma_pow2_pos(1074);
    lemma_no_units_is_zero(a);
    assert((x * unit == 0 <==> x == 0) && (x * unit > 0 <==> x > 0) && (-x) * unit == -(x * unit))
        by (nonlinear_arith)
        requires
            unit > 0,
    ;
}

/// The product of two whole numbers is their product exactly where that
/// has at most 53 bits.
pub proof fn lemma_exact_product(a: Scalar, b: Scalar, x: int, y: int)
    requires
        a.is_integer(x),
        b.is_integer(y),
        -SIGNIFICAND_END < x * y < SIGNIFICAND_END,
    ensures
        a.mul_spec(b).is_integer(x * y),
{
    reveal(Scalar::mul_spec);
    let unit = pow2(1074);
    lemma_pow2_pos(1074);
    lemma_integer_parts(a, x);
    lemma_integer_parts(b, y);
    let ax: nat = if x < 0 {
        (-x) as nat
    } else {
        x as nat
    };
    let ay: nat = if y < 0 {
        (-y) as nat
    } else {
        y as nat
    };
    if x == 0 || y == 0 {
        assert(x * y == 0) by (nonlinear_arith)
            requires
                x == 0 || y == 0,
        ;
        assert(0 * unit == 0);
    } else {
        assert(0 < ax * ay < SIGNIFICAND_END && (x * y == ax * ay || x * y == -(ax * ay)) && ((x
            < 0) != (y < 0) <==> x * y < 0)) by (nonlinear_arith)
            requires
                -SIGNIFICAND_END < x * y < SIGNIFICAND_END,
                x != 0,
                y != 0,
                ax == (if x < 0 {
                    -x
                } else {
                    x
                }),
                ay == (if y < 0 {
                    -y
                } else {
                    y
                }),
        ;
        assert(a.magnitude_units() * b.magnitude_units() == unit * ((ax * ay) * unit))
            by (nonlinear_arith)
            requires
                a.magnitude_units() == ax * unit,
                b.magnitude_units() == ay * unit,
        ;
        lemma_nearest_of_expanded((ax * ay) * unit, 1, unit);
        assert(unit * 1 == unit);
        lemma_whole_number_is_a_double(ax * ay);
    }
}

/// The quotient of two whole numbers is a whole number where the division
/// comes out even and the quotient has at most 53 bits.
pub proof fn lemma_exact_quotient(a: Scalar, b: Scalar, k: int, y: int)
    requires
        a.is_integer(k * y),
        b.is_integer(y),
        y != 0,
        -SIGNIFICAND_END < k < SIGNIFICAND_END,
    ensures
        a.div_spec(b).is_integer(k),
{
    reveal(Scalar::div_spec);
    let unit = pow2(1074);
    let x = k * y;
    lemma_pow2_pos(1074);
    lemma_integer_parts(a, x);
    lemma_integer_parts(b, y);
    let ak: nat = if k < 0 {
        (-k) as nat
    } else {
        k as nat
    };
    let ay: nat = if y < 0 {
        (-y) as nat
    } else {
        y as nat
    };
    assert(x == 0 <==> k == 0) by (nonlinear_arith)
        requires
            x == k * y,
            y != 0,
    ;
    assert(k != 0 ==> ((x < 0) != (y < 0) <==> k < 0)) by (nonlinear_arith)
        requires
            x == k * y,
            y != 0,
    ;
    assert((if x < 0 {
        -x
    } else {
        x
    }) == ak * ay) by (nonlinear_arith)
        requires
            x == k * y,
            y != 0,
            ak == (if k < 0 {
                -k
            } else {
                k
            }),
            ay == (if y < 0 {
                -y
            } else {
                y
            }),
    ;
    if k == 0 {
        assert(0 * unit == 0);
    } else {
        let d = ay * unit;
        assert(d > 0) by (nonlinear_arith)
            requires
                d == ay * unit,
                ay > 0,
                unit > 0,
        ;
        assert(a.magnitude_units() * unit == d * (ak * unit)) by (nonlinear_arith)
            requires
                a.magnitude_units() == (ak * ay) * unit,
                d == ay * unit,
        ;
        lemma_nearest_of_expanded(ak * unit, 1, d);
        assert(d * 1 == d);
        lemma_whole_number_is_a_double(ak);
    }
}

/// The root of the square of a whole number of at most 53 bits is that
/// number.
pub proof fn lemma_exact_root(a: Scalar, k: nat)
    requires
        a.is_integer((k * k) as int),
        !a.is_sign_negative() || k == 0,
        k < SIGNIFICAND_END,
    ensures
        a.sqrt_spec().is_integer(k as int),
{
    reveal(Scalar::sqrt_spec);
    let unit = pow2(1074);
    lemma_pow2_pos(1074);
    lemma_integer_parts(a, (k * k) as int);
    assert(k * k == 0 <==> k == 0) by (nonlinear_arith);
    if k == 0 {
        assert(0 * unit == 0);
    } else {
        let square = a.magnitude_units() * pow2(1202);
        let scale = pow2(1138);
        lemma_pow2_adds(1138, 1138);
        lemma_pow2_adds(1074, 1202);
        lemma_pow2_adds(1074, 64);
        lemma_pow2_pos(1138);
        lemma_pow2_pos(64);
        let q = k * scale;
        assert(square == q * q) by (nonlinear_arith)
            requires
                square == (k * k) * unit * pow2(1202),
                unit * pow2(1202) == scale * scale,
                q == k * scale,
        ;
        assert(is_whole_root(q, square)) by (nonlinear_arith)
            requires
                square == q * q,
        ;
        lemma_whole_root_exists(square);
        lemma_whole_root_is_unique(whole_root(square), q, square);
        // q with 64 binary places is k units of the model.
        lemma_nearest_of_expanded(k * unit, 1, pow2(64));
        assert(pow2(64) * (k * unit) == q) by (nonlinear_arith)
            requires
                q == k * scale,
                scale == unit * pow2(64),
        ;
        assert(pow2(64) * 1 == pow2(64));
        lemma_whole_number_is_a_double(k);
    }
}

} // verus!
