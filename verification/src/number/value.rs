//! Which number a pattern stands for: the value of a finite pattern in
//! units, the order of the values, and the patterns of whole numbers.
use vstd::prelude::*;
use vstd::arithmetic::power2::{
    lemma2_to64, lemma2_to64_rest, lemma_pow2_adds, lemma_pow2_pos, lemma_pow2_strictly_increases,
    lemma_pow2_unfold, pow2,
};
use vstd::arithmetic::div_mod::{
    lemma_basic_div, lemma_div_is_ordered, lemma_div_multiples_vanish,
    lemma_div_multiples_vanish_quotient,
};
use vstd::bits::lemma_u64_shr_is_div;
use crate::number::scalar::{Scalar, INFINITY_BITS, SIGN_BIT};

verus! {

/// Two to the 52nd power: the weight of the exponent field in a pattern, and
/// the leading one of a normal significand.
pub const FRACTION_MODULUS: u64 = 0x10_0000_0000_0000;

impl Scalar {
    /// The eleven exponent bits.
    pub open spec fn exponent_field(self) -> nat {
        (self.magnitude() / FRACTION_MODULUS) as nat
    }

    /// The 52 fraction bits.
    pub open spec fn fraction_field(self) -> nat {
        (self.magnitude() % FRACTION_MODULUS) as nat
    }

    /// Whether the pattern is a number: neither an infinity nor a NaN.
    pub open spec fn is_finite_spec(self) -> bool {
        self.magnitude() < INFINITY_BITS
    }

    /// The absolute value of a finite number, counted in units of two to
    /// the power -1074, the smallest positive double. A normal number has an
    /// implicit leading one before its fraction; a subnormal one has not.
    pub open spec fn magnitude_units(self) -> nat {
        if self.exponent_field() == 0 {
            self.fraction_field()
        } else {
            ((self.fraction_field() + FRACTION_MODULUS) * pow2(
                (self.exponent_field() - 1) as nat,
            )) as nat
        }
    }

    /// Whether this is the whole number `n`, with a clear sign bit.
    pub open spec fn is_whole(self, n: nat) -> bool {
        &&& self.is_finite_spec()
        &&& !self.is_sign_negative()
        &&& self.magnitude_units() == n * pow2(1074)
    }

    /// The double that equals `x`. Every 32-bit number is one exactly.
    pub open spec fn from_u32_spec(x: u32) -> Scalar {
        choose|s: Scalar| s.is_whole(x as nat)
    }

    /// The number rounded down to a whole number and held to the range of a
    /// byte: 0 for a NaN and for anything below zero, 255 for anything from
    /// 255 up, positive infinity included.
    pub open spec fn floor_byte_spec(self) -> u8 {
        if self.is_nan_spec() || self.is_sign_negative() {
            0
        } else if !self.is_finite_spec() || self.magnitude_units() / pow2(1074) >= 255 {
            255
        } else {
            (self.magnitude_units() / pow2(1074)) as u8
        }
    }

    /// The number rounded down and held to the range of a byte.
    pub fn floor_byte(self) -> (r: u8)
        ensures
            r == self.floor_byte_spec(),
    {
        if self.is_nan() || self.bits >= SIGN_BIT {
            return 0;
        }
        let e: u64 = self.bits / FRACTION_MODULUS;
        let f: u64 = self.bits % FRACTION_MODULUS;
        assert(self.magnitude() == self.bits);
        assert(e == self.exponent_field() && f == self.fraction_field());
        if e < 1023 {
            proof {
                lemma_below_one(self);
            }
            return 0;
        }
        if e >= 1031 {
            proof {
                if self.is_finite_spec() {
                    lemma_from_256_up(self);
                }
            }
            return 255;
        }
        let shift: u64 = 1075 - e;
        let whole: u64 = (f + FRACTION_MODULUS) >> shift;
        proof {
            let sig = (f + FRACTION_MODULUS) as int;
            let low = pow2((e - 1) as nat) as int;
            let high = pow2(shift as nat) as int;
            lemma_u64_shr_is_div((f + FRACTION_MODULUS) as u64, shift);
            lemma_pow2_pos((e - 1) as nat);
            lemma_pow2_pos(shift as nat);
            lemma_pow2_adds((e - 1) as nat, shift as nat);
            lemma_div_multiples_vanish_quotient(low, sig, high);
            assert(self.magnitude_units() == low * sig) by (nonlinear_arith)
                requires
                    self.magnitude_units() == sig * low,
            ;
            assert(whole == self.magnitude_units() / pow2(1074));
            lemma2_to64_rest();
            lemma_pow2_adds(45, (shift - 45) as nat);
            lemma_pow2_pos((shift - 45) as nat);
            assert(high >= 0x2000_0000_0000) by (nonlinear_arith)
                requires
                    high == 0x2000_0000_0000 * pow2((shift - 45) as nat),
                    pow2((shift - 45) as nat) >= 1,
            ;
            lemma_div_is_ordered(sig, 256 * high - 1, high);
            assert((256 * high - 1) / high < 256) by (nonlinear_arith)
                requires
                    high > 0,
            ;
        }
        whole as u8
    }

    /// The double that equals `x`; no rounding takes place.
    pub fn from_u32(x: u32) -> (r: Scalar)
        ensures
            r.is_whole(x as nat),
            r == Scalar::from_u32_spec(x),
    {
        if x == 0 {
            let r = Scalar { bits: 0 };
            proof {
                assert(r.is_whole(0)) by (nonlinear_arith)
                    requires
                        r.bits == 0,
                ;
                lemma_one_pattern_per_number(r, Scalar::from_u32_spec(x));
            }
            return r;
        }
        let (m, s) = normalized(x as u64);
        let r = Scalar { bits: (1075 - s) * FRACTION_MODULUS + (m - FRACTION_MODULUS) };
        proof {
            let e = (1075 - s) as nat;
            assert(r.bits == e * 0x10_0000_0000_0000 + (m - 0x10_0000_0000_0000));
            assert(r.magnitude() == r.bits);
            assert(r.exponent_field() == e);
            assert(r.fraction_field() == m - FRACTION_MODULUS);
            lemma_pow2_adds(s as nat, (1074 - s) as nat);
            assert(x * pow2(s as nat) * pow2((1074 - s) as nat) == x * (pow2(s as nat) * pow2(
                (1074 - s) as nat,
            ))) by (nonlinear_arith);
            assert(r.is_whole(x as nat));
            lemma_one_pattern_per_number(r, Scalar::from_u32_spec(x));
        }
        r
    }
}

/// The number doubled until it has 53 bits: `m` with the count `s` of
/// doublings.
pub(crate) fn normalized(n: u64) -> (r: (u64, u64))
    requires
        0 < n < 2 * FRACTION_MODULUS,
    ensures
        r.0 == n * pow2(r.1 as nat),
        FRACTION_MODULUS <= r.0 < 2 * FRACTION_MODULUS,
        r.1 <= 52,
{
    let mut m: u64 = n;
    let mut s: u64 = 0;
    proof {
        lemma2_to64();
    }
    while m < FRACTION_MODULUS
        invariant
            0 < n,
            m == n * pow2(s as nat),
            0 < m < 2 * FRACTION_MODULUS,
            s <= 52,
        decreases 52 - s,
    {
        proof {
            lemma2_to64_rest();
            if s >= 52 {
                if s > 52 {
                    lemma_pow2_strictly_increases(52, s as nat);
                }
                assert(n * pow2(s as nat) >= pow2(s as nat)) by (nonlinear_arith)
                    requires
                        n >= 1,
                ;
            }
            lemma_pow2_unfold((s + 1) as nat);
            assert(n * (2 * pow2(s as nat)) == 2 * (n * pow2(s as nat))) by (nonlinear_arith);
        }
        m = m * 2;
        s = s + 1;
    }
    (m, s)
}

/// The significand and the effective exponent of a finite magnitude: the
/// number is `significand * 2^(exponent - 1)` units.
pub fn split(m: u64) -> (r: (u64, u64))
    requires
        m < INFINITY_BITS,
    ensures
        r.0 < 2 * FRACTION_MODULUS,
        1 <= r.1 <= 2046,
        m != 0 ==> r.0 > 0,
        m == 0 ==> r.0 == 0,
        (Scalar { bits: m }).magnitude_units() == r.0 * pow2((r.1 - 1) as nat),
        m == (r.1 - 1) * FRACTION_MODULUS + r.0,
        r.1 > 1 ==> r.0 >= FRACTION_MODULUS,
{
    let e: u64 = m / FRACTION_MODULUS;
    let f: u64 = m % FRACTION_MODULUS;
    proof {
        lemma2_to64();
        assert((Scalar { bits: m }).magnitude() == m);
        assert(f * 1 == f) by (nonlinear_arith);
    }
    if e == 0 {
        (f, 1)
    } else {
        (f + FRACTION_MODULUS, e)
    }
}

/// The constants of the library are the numbers that they are named after:
/// zero, one, two, four and 255 are those whole numbers, and one half is
/// half of one.
pub proof fn lemma_named_numbers()
    ensures
        Scalar::zero_spec().is_whole(0),
        Scalar::one_spec().is_whole(1),
        Scalar::two_spec().is_whole(2),
        Scalar::four_spec().is_whole(4),
        Scalar::byte_max_spec().is_whole(255),
        Scalar::half_spec().is_finite_spec(),
        !Scalar::half_spec().is_sign_negative(),
        2 * Scalar::half_spec().magnitude_units() == pow2(1074),
{
    lemma2_to64();
    lemma2_to64_rest();
    assert(Scalar::zero_spec().magnitude_units() == 0);
    assert(Scalar::one_spec().exponent_field() == 1023);
    assert(Scalar::one_spec().fraction_field() == 0);
    lemma_pow2_adds(52, 1022);
    assert(Scalar::two_spec().exponent_field() == 1024);
    assert(Scalar::two_spec().fraction_field() == 0);
    lemma_pow2_adds(52, 1023);
    lemma_pow2_adds(1, 1074);
    assert(Scalar::four_spec().exponent_field() == 1025);
    assert(Scalar::four_spec().fraction_field() == 0);
    lemma_pow2_adds(52, 1024);
    lemma_pow2_adds(2, 1074);
    assert(Scalar::byte_max_spec().exponent_field() == 1030);
    assert(Scalar::byte_max_spec().fraction_field() == 0xF_E000_0000_0000);
    lemma_pow2_adds(45, 1029);
    assert(Scalar::byte_max_spec().magnitude_units() == 255 * (pow2(45) * pow2(1029)))
        by (nonlinear_arith)
        requires
            Scalar::byte_max_spec().magnitude_units() == (0xF_E000_0000_0000
                + 0x10_0000_0000_0000) * pow2(1029),
            pow2(45) == 0x2000_0000_0000,
    ;
    assert(Scalar::half_spec().exponent_field() == 1022);
    assert(Scalar::half_spec().fraction_field() == 0);
    lemma_pow2_adds(52, 1021);
    lemma_pow2_adds(1, 1073);
}

/// A number with an exponent field under 1023 is less than one.
proof fn lemma_below_one(a: Scalar)
    requires
        a.exponent_field() < 1023,
    ensures
        a.magnitude_units() / pow2(1074) == 0,
{
    let e = a.exponent_field();
    let f = a.fraction_field();
    let m = FRACTION_MODULUS as nat;
    lemma2_to64_rest();
    lemma_pow2_strictly_increases(52, 1074);
    if e > 0 {
        let low = pow2((e - 1) as nat);
        lemma_pow2_pos((e - 1) as nat);
        lemma_pow2_adds(53, (e - 1) as nat);
        if e + 52 < 1074 {
            lemma_pow2_strictly_increases(e + 52, 1074);
        }
        assert((f + m) * low < (2 * m) * low) by (nonlinear_arith)
            requires
                f < m,
                low > 0,
        ;
    }
    lemma_basic_div(a.magnitude_units() as int, pow2(1074) as int);
}

/// A number with an exponent field of 1031 or more is at least 256.
proof fn lemma_from_256_up(a: Scalar)
    requires
        a.exponent_field() >= 1031,
    ensures
        a.magnitude_units() / pow2(1074) >= 256,
{
    let e = a.exponent_field();
    let f = a.fraction_field();
    let m = FRACTION_MODULUS as nat;
    let unit = pow2(1074) as int;
    let low = pow2((e - 1) as nat);
    lemma2_to64();
    lemma2_to64_rest();
    lemma_pow2_pos(1074);
    lemma_pow2_adds(52, 1030);
    lemma_pow2_adds(8, 1074);
    if e - 1 > 1030 {
        lemma_pow2_strictly_increases(1030, (e - 1) as nat);
    }
    assert(m * pow2(1030) <= (f + m) * low) by (nonlinear_arith)
        requires
            pow2(1030) <= low,
    ;
    lemma_div_is_ordered(256 * unit, a.magnitude_units() as int, unit);
    lemma_div_multiples_vanish(256, unit);
}

/// A finite number with the smaller exponent field is the smaller number.
proof fn lemma_exponent_orders(a: Scalar, b: Scalar)
    requires
        a.exponent_field() < b.exponent_field(),
    ensures
        a.magnitude_units() < b.magnitude_units(),
{
    let ea = a.exponent_field();
    let eb = b.exponent_field();
    let fa = a.fraction_field();
    let fb = b.fraction_field();
    let m = FRACTION_MODULUS as nat;
    let high = pow2((eb - 1) as nat);
    lemma_pow2_pos((eb - 1) as nat);
    assert(m * high <= (fb + m) * high) by (nonlinear_arith);
    if ea == 0 {
        assert(m <= m * high) by (nonlinear_arith)
            requires
                high >= 1,
        ;
    } else {
        let low = pow2((ea - 1) as nat);
        lemma_pow2_pos((ea - 1) as nat);
        lemma_pow2_unfold(ea);
        if ea < eb - 1 {
            lemma_pow2_strictly_increases(ea, (eb - 1) as nat);
        }
        assert((fa + m) * low < m * (2 * low)) by (nonlinear_arith)
            requires
                fa < m,
                low >= 1,
        ;
        assert(m * (2 * low) <= m * high) by (nonlinear_arith)
            requires
                2 * low <= high,
        ;
    }
}

/// Among finite numbers the larger magnitude pattern is the larger number
/// of units.
pub proof fn lemma_magnitudes_order_as_units(a: Scalar, b: Scalar)
    requires
        a.is_finite_spec(),
        b.is_finite_spec(),
    ensures
        a.magnitude() < b.magnitude() <==> a.magnitude_units() < b.magnitude_units(),
        a.magnitude() == b.magnitude() <==> a.magnitude_units() == b.magnitude_units(),
{
    let ea = a.exponent_field();
    let eb = b.exponent_field();
    if ea < eb {
        lemma_exponent_orders(a, b);
    } else if eb < ea {
        lemma_exponent_orders(b, a);
    } else if ea > 0 {
        let p = pow2((ea - 1) as nat);
        let m = FRACTION_MODULUS as nat;
        let fa = a.fraction_field();
        let fb = b.fraction_field();
        lemma_pow2_pos((ea - 1) as nat);
        assert(((fa + m) * p < (fb + m) * p <==> fa < fb) && ((fa + m) * p == (fb + m) * p <==> fa
            == fb)) by (nonlinear_arith)
            requires
                p > 0,
        ;
    }
}

/// Among finite numbers the order of the patterns is the order of the
/// numbers: `<`, `<=` and `==` compare the numbers of units with their
/// signs.
pub proof fn lemma_order_is_order_of_numbers(a: Scalar, b: Scalar)
    requires
        a.is_finite_spec(),
        b.is_finite_spec(),
    ensures
        a.lt_spec(b) <==> a.signed_units() < b.signed_units(),
        a.le_spec(b) <==> a.signed_units() <= b.signed_units(),
        a.same_number(b) <==> a.signed_units() == b.signed_units(),
{
    let zero = Scalar { bits: 0 };
    assert(zero.magnitude_units() == 0);
    lemma_magnitudes_order_as_units(a, b);
    lemma_magnitudes_order_as_units(a, zero);
    lemma_magnitudes_order_as_units(b, zero);
}

/// Two finite patterns with the same sign bit that stand for the same
/// number are one pattern.
pub proof fn lemma_one_pattern_per_number(a: Scalar, b: Scalar)
    requires
        a.is_finite_spec(),
        b.is_finite_spec(),
        a.is_sign_negative() == b.is_sign_negative(),
        a.magnitude_units() == b.magnitude_units(),
    ensures
        a == b,
{
    let ea = a.exponent_field();
    let eb = b.exponent_field();
    if ea < eb {
        lemma_exponent_orders(a, b);
    } else if eb < ea {
        lemma_exponent_orders(b, a);
    } else {
        if ea > 0 {
            let p = pow2((ea - 1) as nat);
            lemma_pow2_pos((ea - 1) as nat);
            let m = FRACTION_MODULUS as nat;
            assert(a.fraction_field() == b.fraction_field()) by (nonlinear_arith)
                requires
                    (a.fraction_field() + m) * p == (b.fraction_field() + m) * p,
                    p > 0,
            ;
        }
        assert(a.magnitude() == b.magnitude());
    }
}

} // verus!
