//! Multiplication.
use vstd::prelude::*;
use vstd::arithmetic::power2::{lemma_pow2_adds, lemma_pow2_pos, pow2};
use crate::number::nearest::{lemma_nearest_of_expanded, nearest_dyadic, nearest_dyadic_spec, nearest_pattern, signed};
use crate::number::scalar::{Scalar, INFINITY_BITS, QUIET_NAN, SIGN_BIT};
use crate::number::value::split;

verus! {

impl Scalar {
    /// The product, rounded to the nearest double. A NaN times anything and
    /// an infinity times a zero are a NaN; an infinity times anything else
    /// is an infinity. The sign bit of every product but a NaN is set
    /// exactly when the signs of the factors differ.
    #[verifier::opaque]
    pub open spec fn mul_spec(self, other: Scalar) -> Scalar {
        let negative = self.is_sign_negative() != other.is_sign_negative();
        if self.is_nan_spec() || other.is_nan_spec() {
            Scalar { bits: QUIET_NAN }
        } else if !self.is_finite_spec() || !other.is_finite_spec() {
            if self.is_zero_spec() || other.is_zero_spec() {
                Scalar { bits: QUIET_NAN }
            } else {
                signed(INFINITY_BITS as nat, negative)
            }
        } else if self.is_zero_spec() || other.is_zero_spec() {
            signed(0, negative)
        } else {
            signed(
                nearest_pattern(self.magnitude_units() * other.magnitude_units(), pow2(1074)),
                negative,
            )
        }
    }

    /// The product, rounded to the nearest double.
    pub fn mul(self, other: Scalar) -> (r: Scalar)
        ensures
            r == self.mul_spec(other),
    {
        reveal(Scalar::mul_spec);
        let ma: u64 = self.magnitude_bits();
        let mb: u64 = other.magnitude_bits();
        let negative = (self.bits >= SIGN_BIT) != (other.bits >= SIGN_BIT);
        if ma > INFINITY_BITS || mb > INFINITY_BITS {
            return Scalar { bits: QUIET_NAN };
        }
        if ma == INFINITY_BITS || mb == INFINITY_BITS {
            if ma == 0 || mb == 0 {
                return Scalar { bits: QUIET_NAN };
            }
            return Scalar::with_sign(INFINITY_BITS, negative);
        }
        if ma == 0 || mb == 0 {
            return Scalar::with_sign(0, negative);
        }
        let (sa, xa) = split(ma);
        let (sb, xb) = split(mb);
        assert(0 < sa * sb < 0x20_0000_0000_0000 * 0x20_0000_0000_0000) by (nonlinear_arith)
            requires
                0 < sa < 0x20_0000_0000_0000,
                0 < sb < 0x20_0000_0000_0000,
        ;
        let p: u128 = (sa as u128) * (sb as u128);
        let t: i64 = (xa + xb) as i64 - 1076;
        proof {
            assert((Scalar { bits: ma }).magnitude_units() == self.magnitude_units());
            assert((Scalar { bits: mb }).magnitude_units() == other.magnitude_units());
            lemma_product_is_dyadic(
                self.magnitude_units(),
                other.magnitude_units(),
                sa as nat,
                xa as nat,
                sb as nat,
                xb as nat,
            );
        }
        Scalar::with_sign(nearest_dyadic(p, t), negative)
    }
}

/// The product of `sa * 2^(xa - 1)` units and `sb * 2^(xb - 1)` units is
/// `sa * sb * 2^(xa + xb - 1076)` units.
proof fn lemma_product_is_dyadic(ua: nat, ub: nat, sa: nat, xa: nat, sb: nat, xb: nat)
    requires
        xa >= 1,
        xb >= 1,
        ua == sa * pow2((xa - 1) as nat),
        ub == sb * pow2((xb - 1) as nat),
    ensures
        nearest_pattern(ua * ub, pow2(1074)) == nearest_dyadic_spec(sa * sb, xa + xb - 1076),
{
    let p = sa * sb;
    let t = xa + xb - 1076;
    let scale = pow2((xa + xb - 2) as nat);
    lemma_pow2_adds((xa - 1) as nat, (xb - 1) as nat);
    lemma_pow2_pos((xa + xb - 2) as nat);
    lemma_pow2_pos(1074);
    assert(ua * ub == p * scale) by (nonlinear_arith)
        requires
            ua == sa * pow2((xa - 1) as nat),
            ub == sb * pow2((xb - 1) as nat),
            scale == pow2((xa - 1) as nat) * pow2((xb - 1) as nat),
            p == sa * sb,
    ;
    if t >= 0 {
        lemma_pow2_adds(1074, t as nat);
        lemma_nearest_of_expanded(p * pow2(t as nat), 1, pow2(1074));
        assert(pow2(1074) * (p * pow2(t as nat)) == p * scale) by (nonlinear_arith)
            requires
                scale == pow2(1074) * pow2(t as nat),
        ;
        assert(pow2(1074) * 1 == pow2(1074));
    } else {
        lemma_pow2_adds((xa + xb - 2) as nat, (-t) as nat);
        lemma_pow2_pos((-t) as nat);
        lemma_nearest_of_expanded(p, pow2((-t) as nat), scale);
        assert(scale * p == p * scale) by (nonlinear_arith);
    }
}

} // verus!
