//! Addition and subtraction.
use vstd::prelude::*;
use vstd::arithmetic::power2::{
    lemma2_to64, lemma2_to64_rest, lemma_pow2_adds, lemma_pow2_pos, lemma_pow2_strictly_increases,
    lemma_pow2_unfold, pow2,
};
use vstd::arithmetic::div_mod::lemma_fundamental_div_mod_converse;
use crate::number::nearest::{
    lemma_binade_is, nearest_dyadic, nearest_pattern, power_of_two, round_half_even, signed,
    SIGNIFICAND_END,
};
use crate::number::scalar::{Scalar, INFINITY_BITS, QUIET_NAN, SIGN_BIT};
use crate::number::value::{split, FRACTION_MODULUS};

verus! {

impl Scalar {
    /// The finite number in units, with its sign.
    pub open spec fn signed_units(self) -> int {
        if self.is_sign_negative() {
            -(self.magnitude_units() as int)
        } else {
            self.magnitude_units() as int
        }
    }

    /// The sum, rounded to the nearest double. A NaN plus anything and the
    /// sum of the two infinities are a NaN; any other sum with an infinity
    /// is that infinity. A sum that is exactly zero is positive zero, unless
    /// both terms have their sign bits set.
    #[verifier::opaque]
    pub open spec fn add_spec(self, other: Scalar) -> Scalar {
        if self.is_nan_spec() || other.is_nan_spec() {
            Scalar { bits: QUIET_NAN }
        } else if !self.is_finite_spec() {
            if !other.is_finite_spec() && self.is_sign_negative() != other.is_sign_negative() {
                Scalar { bits: QUIET_NAN }
            } else {
                self
            }
        } else if !other.is_finite_spec() {
            other
        } else {
            let sum = self.signed_units() + other.signed_units();
            if sum == 0 {
                signed(0, self.is_sign_negative() && other.is_sign_negative())
            } else if sum > 0 {
                signed(nearest_pattern(sum as nat, 1), false)
            } else {
                signed(nearest_pattern((-sum) as nat, 1), true)
            }
        }
    }

    /// The difference, rounded to the nearest double: the sum with the
    /// negated subtrahend.
    pub open spec fn sub_spec(self, other: Scalar) -> Scalar {
        self.add_spec(other.neg_spec())
    }

    /// The sum, rounded to the nearest double.
    pub fn add(self, other: Scalar) -> (r: Scalar)
        ensures
            r == self.add_spec(other),
    {
        reveal(Scalar::add_spec);
        let ma: u64 = self.magnitude_bits();
        let mb: u64 = other.magnitude_bits();
        let na = self.bits >= SIGN_BIT;
        let nb = other.bits >= SIGN_BIT;
        if ma > INFINITY_BITS || mb > INFINITY_BITS {
            return Scalar { bits: QUIET_NAN };
        }
        if ma == INFINITY_BITS {
            if mb == INFINITY_BITS && na != nb {
                return Scalar { bits: QUIET_NAN };
            }
            return self;
        }
        if mb == INFINITY_BITS {
            return other;
        }
        let (sa, xa) = split(ma);
        let (sb, xb) = split(mb);
        proof {
            assert((Scalar { bits: ma }).magnitude_units() == self.magnitude_units());
            assert((Scalar { bits: mb }).magnitude_units() == other.magnitude_units());
        }
        if xa >= xb {
            aligned_sum(self, sa, xa, na, other, sb, xb, nb)
        } else {
            aligned_sum(other, sb, xb, nb, self, sa, xa, na)
        }
    }

    /// The difference, rounded to the nearest double.
    pub fn sub(self, other: Scalar) -> (r: Scalar)
        ensures
            r == self.sub_spec(other),
    {
        self.add(other.neg())
    }
}

/// The order of the terms does not matter to a sum.
pub proof fn lemma_sum_commutes(a: Scalar, b: Scalar)
    ensures
        a.add_spec(b) == b.add_spec(a),
{
    reveal(Scalar::add_spec);
}

/// Negating a number twice gives the number back.
pub proof fn lemma_double_negation(a: Scalar)
    ensures
        a.neg_spec().neg_spec() == a,
        a.neg_spec().is_nan_spec() == a.is_nan_spec(),
{
}

/// The sum of the negated terms is the negated sum: either both sums are
/// NaNs, or they are opposite numbers. Where the sum is zero both are zeros,
/// which are one number whatever their sign bits.
pub proof fn lemma_sum_of_negated(a: Scalar, b: Scalar)
    ensures
        a.neg_spec().add_spec(b.neg_spec()).is_nan_spec() == a.add_spec(b).is_nan_spec(),
        !a.add_spec(b).is_nan_spec() ==> a.neg_spec().add_spec(b.neg_spec()).same_number(
            a.add_spec(b).neg_spec(),
        ),
{
    reveal(Scalar::add_spec);
    let na = a.neg_spec();
    let nb = b.neg_spec();
    assert(na.magnitude() == a.magnitude());
    assert(nb.magnitude() == b.magnitude());
    assert(na.magnitude_units() == a.magnitude_units());
    assert(nb.magnitude_units() == b.magnitude_units());
    if a.is_finite_spec() && b.is_finite_spec() {
        let sum = a.signed_units() + b.signed_units();
        if a.magnitude_units() == 0 {
            assert(na.signed_units() == 0);
        }
        if b.magnitude_units() == 0 {
            assert(nb.signed_units() == 0);
        }
        assert(na.signed_units() + nb.signed_units() == -sum);
        if sum != 0 {
            let size: nat = if sum > 0 {
                sum as nat
            } else {
                (-sum) as nat
            };
            lemma_pattern_is_bounded(size);
        }
    }
}

/// The magnitude of a rounded number of units is that of a number or of
/// infinity.
proof fn lemma_pattern_is_bounded(n: nat)
    ensures
        nearest_pattern(n, 1) <= INFINITY_BITS,
{
}

/// The sum of two finite numbers given by their parts, the first having the
/// larger exponent.
fn aligned_sum(
    high: Scalar,
    sh: u64,
    xh: u64,
    nh: bool,
    low: Scalar,
    sl: u64,
    xl: u64,
    nl: bool,
) -> (r: Scalar)
    requires
        high.is_finite_spec(),
        low.is_finite_spec(),
        nh == high.is_sign_negative(),
        nl == low.is_sign_negative(),
        sh < SIGNIFICAND_END,
        sl < SIGNIFICAND_END,
        1 <= xl <= xh <= 2046,
        high.magnitude_units() == sh * pow2((xh - 1) as nat),
        low.magnitude_units() == sl * pow2((xl - 1) as nat),
        high.magnitude() == (xh - 1) * FRACTION_MODULUS + sh,
        xh > 1 ==> sh >= FRACTION_MODULUS,
    ensures
        r == high.add_spec(low),
        r == low.add_spec(high),
{
    reveal(Scalar::add_spec);
    let diff: u64 = xh - xl;
    let ghost unit = pow2((xl - 1) as nat);
    if diff > 56 {
        proof {
            lemma_far_term(sh as nat, (xh - 1) as nat, low.magnitude_units(), sl as nat, xl as nat);
            if nh != nl && low.magnitude_units() > 0 {
                assert(high.signed_units() + low.signed_units() == (if nh {
                    -(high.magnitude_units() - low.magnitude_units())
                } else {
                    high.magnitude_units() - low.magnitude_units()
                }));
            }
        }
        return high;
    }
    let scale: u128 = power_of_two(diff);
    proof {
        lemma2_to64_rest();
        lemma_pow2_adds(diff as nat, (xl - 1) as nat);
        lemma_pow2_pos((xl - 1) as nat);
        lemma_pow2_pos(diff as nat);
        if diff < 56 {
            lemma_pow2_strictly_increases(diff as nat, 56);
        }
        lemma_pow2_adds(53, 56);
        lemma_pow2_adds(64, 45);
        lemma_pow2_adds(64, 46);
        assert(sh * scale < pow2(53) * pow2(56)) by (nonlinear_arith)
            requires
                sh < pow2(53),
                0 < scale <= pow2(56),
        ;
        assert(high.magnitude_units() == (sh * scale) * unit) by (nonlinear_arith)
            requires
                high.magnitude_units() == sh * pow2((xh - 1) as nat),
                pow2((xh - 1) as nat) == scale * unit,
        ;
    }
    let big: u128 = (sh as u128) * scale;
    let small: u128 = sl as u128;
    let (m, negative): (u128, bool) = if nh == nl {
        (big + small, nh)
    } else if big >= small {
        (big - small, nh)
    } else {
        (small - big, nl)
    };
    proof {
        let total = high.signed_units() + low.signed_units();
        assert(big * unit - small * unit == (big - small) * unit) by (nonlinear_arith);
        assert(small * unit - big * unit == (small - big) * unit) by (nonlinear_arith);
        assert(big * unit + small * unit == (big + small) * unit) by (nonlinear_arith);
        assert(high.magnitude_units() == big * unit);
        assert(low.magnitude_units() == small * unit);
        assert(total == (if negative {
            -(m * unit)
        } else {
            m * unit
        }));
        assert(m * unit == 0 <==> m == 0) by (nonlinear_arith)
            requires
                unit > 0,
                m >= 0,
        ;
    }
    if m == 0 {
        return Scalar::with_sign(0, nh && nl);
    }
    Scalar::with_sign(nearest_dyadic(m, (xl - 1) as i64), negative)
}

/// A double does not move when a term of less than an eighth of its last
/// place is added to it or taken from it.
proof fn lemma_far_term(sh: nat, e: nat, ul: nat, sl: nat, xl: nat)
    requires
        FRACTION_MODULUS <= sh < SIGNIFICAND_END,
        e <= 2045,
        xl >= 1,
        e - (xl - 1) > 56,
        sl < SIGNIFICAND_END,
        ul == sl * pow2((xl - 1) as nat),
    ensures
        ul < sh * pow2(e),
        nearest_pattern(sh * pow2(e) + ul, 1) == e * FRACTION_MODULUS + sh,
        nearest_pattern((sh * pow2(e) - ul) as nat, 1) == e * FRACTION_MODULUS + sh,
{
    let step = pow2(e);
    let eighth = pow2((e - 3) as nat);
    lemma2_to64();
    lemma2_to64_rest();
    lemma_pow2_pos(e);
    lemma_pow2_pos((e - 3) as nat);
    lemma_pow2_adds(3, (e - 3) as nat);
    lemma_pow2_pos((xl - 1) as nat);
    // The term is below an eighth of a step.
    lemma_pow2_adds(53, (xl - 1) as nat);
    if 53 + (xl - 1) < e - 3 {
        lemma_pow2_strictly_increases((53 + (xl - 1)) as nat, (e - 3) as nat);
    }
    assert(ul < pow2(53) * pow2((xl - 1) as nat)) by (nonlinear_arith)
        requires
            ul == sl * pow2((xl - 1) as nat),
            sl < pow2(53),
            pow2((xl - 1) as nat) > 0,
    ;
    assert(step == 8 * eighth);
    assert(ul < eighth);
    assert(sh * step >= step) by (nonlinear_arith)
        requires
            sh >= 1,
            step > 0,
    ;
    lemma_pow2_unfold(e);
    let half = pow2((e - 1) as nat);
    assert(step == 2 * half);
    // Adding: the quotient by the step is `sh`, and the rest is small.
    let up = sh * step + ul;
    assert(up < SIGNIFICAND_END * 1 * step && up >= SIGNIFICAND_END * 1 * half)
        by (nonlinear_arith)
        requires
            up == sh * step + ul,
            ul < step,
            FRACTION_MODULUS <= sh < SIGNIFICAND_END,
            step == 2 * half,
            SIGNIFICAND_END == 2 * FRACTION_MODULUS,
    ;
    lemma_binade_is(up, 1, e);
    lemma_fundamental_div_mod_converse(up as int, step as int, sh as int, ul as int);
    assert(round_half_even(up, 1 * step) == sh);
    assert(e * FRACTION_MODULUS + sh < INFINITY_BITS) by (nonlinear_arith)
        requires
            e <= 2045,
            sh < 2 * FRACTION_MODULUS,
            FRACTION_MODULUS == 0x10_0000_0000_0000,
            INFINITY_BITS == 0x7FF0_0000_0000_0000,
    ;
    // Taking away.
    let down = (sh * step - ul) as nat;
    if ul == 0 {
        assert(down == up);
    } else if sh > FRACTION_MODULUS {
        assert(down < SIGNIFICAND_END * 1 * step && down >= SIGNIFICAND_END * 1 * half)
            by (nonlinear_arith)
            requires
                down == sh * step - ul,
                0 < ul < step,
                FRACTION_MODULUS < sh < SIGNIFICAND_END,
                step == 2 * half,
                SIGNIFICAND_END == 2 * FRACTION_MODULUS,
        ;
        lemma_binade_is(down, 1, e);
        assert(down == step * (sh - 1) + (step - ul)) by (nonlinear_arith)
            requires
                down == sh * step - ul,
        ;
        lemma_fundamental_div_mod_converse(
            down as int,
            step as int,
            (sh - 1) as int,
            (step - ul) as int,
        );
        assert(round_half_even(down, 1 * step) == sh);
    } else {
        // The double is a power of two, and the difference lies in the
        // binade below, where it rounds up to that power.
        lemma_pow2_unfold((e - 1) as nat);
        let quarter = pow2((e - 2) as nat);
        assert(half == 2 * quarter);
        assert(down < SIGNIFICAND_END * 1 * half && down >= SIGNIFICAND_END * 1 * quarter)
            by (nonlinear_arith)
            requires
                down == sh * step - ul,
                0 < ul < half,
                sh == FRACTION_MODULUS,
                step == 2 * half,
                half == 2 * quarter,
                SIGNIFICAND_END == 2 * FRACTION_MODULUS,
        ;
        lemma_binade_is(down, 1, (e - 1) as nat);
        assert(down == half * (SIGNIFICAND_END - 1) + (half - ul)) by (nonlinear_arith)
            requires
                down == sh * step - ul,
                sh == FRACTION_MODULUS,
                step == 2 * half,
                SIGNIFICAND_END == 2 * FRACTION_MODULUS,
        ;
        lemma_fundamental_div_mod_converse(
            down as int,
            half as int,
            (SIGNIFICAND_END - 1) as int,
            (half - ul) as int,
        );
        assert(round_half_even(down, 1 * half) == SIGNIFICAND_END);
        assert((e - 1) * FRACTION_MODULUS + SIGNIFICAND_END == e * FRACTION_MODULUS + sh)
            by (nonlinear_arith)
            requires
                sh == FRACTION_MODULUS,
                SIGNIFICAND_END == 2 * FRACTION_MODULUS,
                e >= 1,
        ;
    }
}

} // verus!
