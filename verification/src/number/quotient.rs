//! Division.
use vstd::prelude::*;
use vstd::arithmetic::power2::{lemma2_to64, lemma2_to64_rest, lemma_pow2_adds, lemma_pow2_pos, pow2};
use vstd::arithmetic::div_mod::lemma_fundamental_div_mod;
use crate::number::nearest::{
    lemma_nearest_of_expanded, lemma_sticky, nearest_dyadic, nearest_dyadic_spec, nearest_pattern,
    signed, SIGNIFICAND_END,
};
use crate::number::scalar::{Scalar, INFINITY_BITS, QUIET_NAN, SIGN_BIT};
use crate::number::value::{normalized, split, FRACTION_MODULUS};

verus! {

impl Scalar {
    /// The quotient, rounded to the nearest double. A quotient with a NaN,
    /// of two infinities or of two zeros is a NaN. Division by zero is no
    /// failure: a number that is not zero, divided by zero, is an infinity,
    /// as is an infinity divided by a number; a number divided by an
    /// infinity is zero. The sign bit of every quotient but a NaN is set
    /// exactly when the signs differ.
    #[verifier::opaque]
    pub open spec fn div_spec(self, other: Scalar) -> Scalar {
        let negative = self.is_sign_negative() != other.is_sign_negative();
        if self.is_nan_spec() || other.is_nan_spec() {
            Scalar { bits: QUIET_NAN }
        } else if !self.is_finite_spec() {
            if !other.is_finite_spec() {
                Scalar { bits: QUIET_NAN }
            } else {
                signed(INFINITY_BITS as nat, negative)
            }
        } else if !other.is_finite_spec() {
            signed(0, negative)
        } else if other.is_zero_spec() {
            if self.is_zero_spec() {
                Scalar { bits: QUIET_NAN }
            } else {
                signed(INFINITY_BITS as nat, negative)
            }
        } else if self.is_zero_spec() {
            signed(0, negative)
        } else {
            signed(
                nearest_pattern(self.magnitude_units() * pow2(1074), other.magnitude_units()),
                negative,
            )
        }
    }

    /// The quotient, rounded to the nearest double.
    pub fn div(self, other: Scalar) -> (r: Scalar)
        ensures
            r == self.div_spec(other),
    {
        reveal(Scalar::div_spec);
        let ma: u64 = self.magnitude_bits();
        let mb: u64 = other.magnitude_bits();
        let negative = (self.bits >= SIGN_BIT) != (other.bits >= SIGN_BIT);
        if ma > INFINITY_BITS || mb > INFINITY_BITS {
            return Scalar { bits: QUIET_NAN };
        }
        if ma == INFINITY_BITS {
            if mb == INFINITY_BITS {
                return Scalar { bits: QUIET_NAN };
            }
            return Scalar::with_sign(INFINITY_BITS, negative);
        }
        if mb == INFINITY_BITS {
            return Scalar::with_sign(0, negative);
        }
        if mb == 0 {
            if ma == 0 {
                return Scalar { bits: QUIET_NAN };
            }
            return Scalar::with_sign(INFINITY_BITS, negative);
        }
        if ma == 0 {
            return Scalar::with_sign(0, negative);
        }
        let (sa, xa) = split(ma);
        let (sb, xb) = split(mb);
        let (top, ka) = normalized(sa);
        let (bottom, kb) = normalized(sb);
        let widened: u128 = (top as u128) * 0x100_0000_0000_0000;
        let q: u128 = widened / (bottom as u128);
        let rest: u128 = widened % (bottom as u128);
        let t: i64 = (xa as i64 - ka as i64) - (xb as i64 - kb as i64) + 1018;
        proof {
            assert((Scalar { bits: ma }).magnitude_units() == self.magnitude_units());
            assert((Scalar { bits: mb }).magnitude_units() == other.magnitude_units());
            lemma_fundamental_div_mod(widened as int, bottom as int);
            lemma_quotient_size(top as nat, bottom as nat, q as nat, rest as nat);
            lemma_quotient_is_between(
                self.magnitude_units(),
                other.magnitude_units(),
                sa as nat,
                xa as nat,
                ka as nat,
                sb as nat,
                xb as nat,
                kb as nat,
                top as nat,
                bottom as nat,
                q as nat,
                rest as nat,
                t as int,
            );
        }
        if rest == 0 {
            Scalar::with_sign(nearest_dyadic(q, t), negative)
        } else {
            Scalar::with_sign(nearest_dyadic(2 * q + 1, t - 1), negative)
        }
    }
}

/// The quotient of a 53-bit number times two to the 56th by a 53-bit number
/// has 56 or 57 bits.
proof fn lemma_quotient_size(top: nat, bottom: nat, q: nat, rest: nat)
    requires
        FRACTION_MODULUS <= top < SIGNIFICAND_END,
        FRACTION_MODULUS <= bottom < SIGNIFICAND_END,
        top * 0x100_0000_0000_0000 == bottom * q + rest,
        0 <= rest < bottom,
    ensures
        0x80_0000_0000_0000 <= q < 0x200_0000_0000_0000,
{
    assert(q < 0x200_0000_0000_0000) by (nonlinear_arith)
        requires
            top * 0x100_0000_0000_0000 == bottom * q + rest,
            top < 0x20_0000_0000_0000,
            bottom >= 0x10_0000_0000_0000,
            rest >= 0,
    ;
    assert(q >= 0x80_0000_0000_0000) by (nonlinear_arith)
        requires
            top * 0x100_0000_0000_0000 == bottom * q + rest,
            top >= 0x10_0000_0000_0000,
            bottom < 0x20_0000_0000_0000,
            rest < bottom,
    ;
}

/// The quotient of two numbers given by their parts is `q * 2^t` units when
/// the division of the significands leaves no rest, and lies strictly
/// between `q * 2^t` and `(q + 1) * 2^t` units when it leaves one.
proof fn lemma_quotient_is_between(
    ua: nat,
    ub: nat,
    sa: nat,
    xa: nat,
    ka: nat,
    sb: nat,
    xb: nat,
    kb: nat,
    top: nat,
    bottom: nat,
    q: nat,
    rest: nat,
    t: int,
)
    requires
        xa >= 1,
        xb >= 1,
        ua == sa * pow2((xa - 1) as nat),
        ub == sb * pow2((xb - 1) as nat),
        top == sa * pow2(ka),
        bottom == sb * pow2(kb),
        bottom > 0,
        top * 0x100_0000_0000_0000 == bottom * q + rest,
        0 <= rest < bottom,
        0x80_0000_0000_0000 <= q < 0x200_0000_0000_0000,
        t == (xa - ka) - (xb - kb) + 1018,
    ensures
        rest == 0 ==> nearest_pattern(ua * pow2(1074), ub) == nearest_dyadic_spec(q, t),
        rest != 0 ==> nearest_pattern(ua * pow2(1074), ub) == nearest_dyadic_spec(
            2 * q + 1,
            t - 1,
        ),
{
    let n = ua * pow2(1074);
    let d = ub;
    let up: nat = if t >= 0 {
        t as nat
    } else {
        0
    };
    let down: nat = if t >= 0 {
        0
    } else {
        (-t) as nat
    };
    // Both sides of the fraction, brought to the common factor `c`.
    let c = pow2(ka + 56 + kb);
    let w = pow2(xa + 1073 + kb + down);
    lemma2_to64();
    lemma2_to64_rest();
    lemma_pow2_pos(ka + 56 + kb);
    lemma_pow2_pos(xa + 1073 + kb + down);
    lemma_pow2_pos(up);
    lemma_pow2_pos(down);
    lemma_pow2_pos(kb);
    lemma_pow2_pos((xb - 1) as nat);
    assert(d > 0) by (nonlinear_arith)
        requires
            bottom == sb * pow2(kb),
            bottom > 0,
            d == sb * pow2((xb - 1) as nat),
            pow2((xb - 1) as nat) > 0,
    ;
    assert(n * pow2(down) * c == (bottom * q + rest) * w) by {
        lemma_pow2_adds((xa - 1) as nat, 1074);
        lemma_pow2_adds(ka, 56);
        lemma_pow2_adds(ka + 56, kb);
        lemma_pow2_adds((xa + 1073) as nat, down);
        lemma_pow2_adds((xa + 1073 + down) as nat, ka + 56 + kb);
        lemma_pow2_adds(ka + 56, (xa + 1073 + kb + down) as nat);
        assert(n * pow2(down) * c == (sa * pow2(ka) * pow2(56)) * w) by (nonlinear_arith)
            requires
                n == sa * pow2((xa - 1) as nat) * pow2(1074),
                pow2((xa - 1) as nat) * pow2(1074) * pow2(down) * c == pow2(ka) * pow2(56) * w,
        ;
    }
    assert(d * pow2(up) * c == bottom * w) by {
        lemma_pow2_adds((xb - 1) as nat, up);
        lemma_pow2_adds((xb - 1 + up) as nat, ka + 56 + kb);
        lemma_pow2_adds(kb, (xa + 1073 + kb + down) as nat);
        assert(d * pow2(up) * c == (sb * pow2(kb)) * w) by (nonlinear_arith)
            requires
                d == sb * pow2((xb - 1) as nat),
                pow2((xb - 1) as nat) * pow2(up) * c == pow2(kb) * w,
        ;
    }
    let wide_n = n * pow2(down);
    let wide_d = d * pow2(up);
    if rest == 0 {
        assert(wide_n == q * wide_d) by (nonlinear_arith)
            requires
                wide_n * c == (bottom * q) * w,
                wide_d * c == bottom * w,
                c > 0,
        ;
        if t >= 0 {
            assert(n * 1 == n) by (nonlinear_arith);
            assert(n == d * (q * pow2(up))) by (nonlinear_arith)
                requires
                    n == q * (d * pow2(up)),
            ;
            lemma_nearest_of_expanded(q * pow2(up), 1, d);
            assert(d * 1 == d) by (nonlinear_arith);
        } else {
            assert(d * 1 == d) by (nonlinear_arith);
            lemma_nearest_of_expanded(n, d, pow2(down));
            lemma_nearest_of_expanded(q, pow2(down), d);
            assert(pow2(down) * n == d * q) by (nonlinear_arith)
                requires
                    n * pow2(down) == q * d,
            ;
            assert(pow2(down) * d == d * pow2(down)) by (nonlinear_arith);
        }
    } else {
        assert(q * wide_d < wide_n < (q + 1) * wide_d) by (nonlinear_arith)
            requires
                wide_n * c == (bottom * q + rest) * w,
                wide_d * c == bottom * w,
                0 < rest < bottom,
                c > 0,
                w > 0,
        ;
        if t >= 0 {
            assert(n * 1 == n) by (nonlinear_arith);
            assert(q * pow2(up) * d == q * (d * pow2(up))) by (nonlinear_arith);
            assert((q + 1) * pow2(up) * d == (q + 1) * (d * pow2(up))) by (nonlinear_arith);
        } else {
            assert(d * 1 == d) by (nonlinear_arith);
        }
        let l: nat = if q < 0x100_0000_0000_0000 {
            56
        } else {
            57
        };
        lemma_sticky(n, d, q, l, t);
    }
}

} // verus!
