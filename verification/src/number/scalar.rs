//! Doubles as bit patterns: classification, sign and order.
use vstd::prelude::*;
use vstd::std_specs::cmp::PartialEqSpecImpl;

verus! {

/// The sign bit of a pattern.
pub const SIGN_BIT: u64 = 0x8000_0000_0000_0000;

/// The pattern of positive infinity; every larger magnitude is a NaN.
pub const INFINITY_BITS: u64 = 0x7FF0_0000_0000_0000;

/// The pattern of the NaN that an operation without a result returns.
pub const QUIET_NAN: u64 = 0x7FF8_0000_0000_0000;

/// An IEEE-754 double, held as its 64-bit pattern.
#[derive(Clone, Copy, Debug)]
pub struct Scalar {
    pub bits: u64,
}

impl Scalar {
    /// Whether the sign bit is set.
    pub open spec fn is_sign_negative(self) -> bool {
        self.bits >= SIGN_BIT
    }

    /// The pattern without its sign bit.
    pub open spec fn magnitude(self) -> u64 {
        if self.bits >= SIGN_BIT {
            (self.bits - SIGN_BIT) as u64
        } else {
            self.bits
        }
    }

    /// Whether the pattern is a NaN.
    pub open spec fn is_nan_spec(self) -> bool {
        self.magnitude() > INFINITY_BITS
    }

    /// Whether the pattern is one of the two zeros.
    pub open spec fn is_zero_spec(self) -> bool {
        self.magnitude() == 0
    }

    /// Position of a number that is no NaN on the number line: patterns of
    /// one sign are ordered by magnitude, and the two zeros coincide.
    pub open spec fn order_key(self) -> int {
        if self.is_sign_negative() {
            -(self.magnitude() as int)
        } else {
            self.magnitude() as int
        }
    }

    /// `self < other` as the standard defines it: false when either is a NaN.
    pub open spec fn lt_spec(self, other: Scalar) -> bool {
        !self.is_nan_spec() && !other.is_nan_spec() && self.order_key() < other.order_key()
    }

    /// `self <= other` as the standard defines it: false when either is a NaN.
    pub open spec fn le_spec(self, other: Scalar) -> bool {
        !self.is_nan_spec() && !other.is_nan_spec() && self.order_key() <= other.order_key()
    }

    /// `self == other` as the standard defines it: a NaN equals nothing, and
    /// the two zeros are equal.
    pub open spec fn same_number(self, other: Scalar) -> bool {
        !self.is_nan_spec() && !other.is_nan_spec() && self.order_key() == other.order_key()
    }

    /// The number with the opposite sign.
    pub open spec fn neg_spec(self) -> Scalar {
        if self.bits >= SIGN_BIT {
            Scalar { bits: (self.bits - SIGN_BIT) as u64 }
        } else {
            Scalar { bits: (self.bits + SIGN_BIT) as u64 }
        }
    }

    /// Positive zero.
    pub open spec fn zero_spec() -> Scalar {
        Scalar { bits: 0 }
    }

    /// The number one.
    pub open spec fn one_spec() -> Scalar {
        Scalar { bits: 0x3FF0_0000_0000_0000 }
    }

    /// The number two.
    pub open spec fn two_spec() -> Scalar {
        Scalar { bits: 0x4000_0000_0000_0000 }
    }

    /// The number four.
    pub open spec fn four_spec() -> Scalar {
        Scalar { bits: 0x4010_0000_0000_0000 }
    }

    /// One half.
    pub open spec fn half_spec() -> Scalar {
        Scalar { bits: 0x3FE0_0000_0000_0000 }
    }

    /// The number 255, the largest value of a colour channel in a byte.
    pub open spec fn byte_max_spec() -> Scalar {
        Scalar { bits: 0x406F_E000_0000_0000 }
    }

    /// The scalar with the given pattern.
    pub fn from_bits(bits: u64) -> (r: Scalar)
        ensures
            r.bits == bits,
    {
        Scalar { bits }
    }

    /// The pattern of this scalar.
    pub fn to_bits(self) -> (r: u64)
        ensures
            r == self.bits,
    {
        self.bits
    }

    /// Positive zero.
    pub fn zero() -> (r: Scalar)
        ensures
            r == Scalar::zero_spec(),
    {
        Scalar { bits: 0 }
    }

    /// The number one.
    pub fn one() -> (r: Scalar)
        ensures
            r == Scalar::one_spec(),
    {
        Scalar { bits: 0x3FF0_0000_0000_0000 }
    }

    /// The number two.
    pub fn two() -> (r: Scalar)
        ensures
            r == Scalar::two_spec(),
    {
        Scalar { bits: 0x4000_0000_0000_0000 }
    }

    /// The number four.
    pub fn four() -> (r: Scalar)
        ensures
            r == Scalar::four_spec(),
    {
        Scalar { bits: 0x4010_0000_0000_0000 }
    }

    /// One half.
    pub fn half() -> (r: Scalar)
        ensures
            r == Scalar::half_spec(),
    {
        Scalar { bits: 0x3FE0_0000_0000_0000 }
    }

    /// The number 255.
    pub fn byte_max() -> (r: Scalar)
        ensures
            r == Scalar::byte_max_spec(),
    {
        Scalar { bits: 0x406F_E000_0000_0000 }
    }

    /// The pattern without its sign bit.
    pub fn magnitude_bits(self) -> (r: u64)
        ensures
            r == self.magnitude(),
    {
        if self.bits >= SIGN_BIT {
            self.bits - SIGN_BIT
        } else {
            self.bits
        }
    }

    /// The pattern with the given magnitude and sign.
    pub fn with_sign(magnitude: u64, negative: bool) -> (r: Scalar)
        requires
            magnitude < SIGN_BIT,
        ensures
            r == crate::number::nearest::signed(magnitude as nat, negative),
    {
        if negative {
            Scalar { bits: magnitude + SIGN_BIT }
        } else {
            Scalar { bits: magnitude }
        }
    }

    /// Whether this is a NaN.
    pub fn is_nan(self) -> (r: bool)
        ensures
            r == self.is_nan_spec(),
    {
        self.magnitude_bits() > INFINITY_BITS
    }

    /// Whether this is positive or negative zero.
    pub fn is_zero(self) -> (r: bool)
        ensures
            r == self.is_zero_spec(),
    {
        self.magnitude_bits() == 0
    }

    /// Flips the sign; exact for every pattern.
    pub fn neg(self) -> (r: Scalar)
        ensures
            r == self.neg_spec(),
    {
        if self.bits >= SIGN_BIT {
            Scalar { bits: self.bits - SIGN_BIT }
        } else {
            Scalar { bits: self.bits + SIGN_BIT }
        }
    }

    /// `self < other`.
    pub fn lt(self, other: Scalar) -> (r: bool)
        ensures
            r == self.lt_spec(other),
    {
        if self.is_nan() || other.is_nan() {
            false
        } else if self.bits >= SIGN_BIT {
            if other.bits >= SIGN_BIT {
                other.magnitude_bits() < self.magnitude_bits()
            } else {
                self.magnitude_bits() != 0 || other.bits != 0
            }
        } else {
            other.bits < SIGN_BIT && self.bits < other.bits
        }
    }

    /// `self <= other`.
    pub fn le(self, other: Scalar) -> (r: bool)
        ensures
            r == self.le_spec(other),
    {
        if self.is_nan() || other.is_nan() {
            false
        } else if self.bits >= SIGN_BIT {
            if other.bits >= SIGN_BIT {
                other.magnitude_bits() <= self.magnitude_bits()
            } else {
                true
            }
        } else if other.bits >= SIGN_BIT {
            self.bits == 0 && other.magnitude_bits() == 0
        } else {
            self.bits <= other.bits
        }
    }

    /// `self > other`.
    pub fn gt(self, other: Scalar) -> (r: bool)
        ensures
            r == other.lt_spec(self),
    {
        other.lt(self)
    }

    /// `self >= other`.
    pub fn ge(self, other: Scalar) -> (r: bool)
        ensures
            r == other.le_spec(self),
    {
        other.le(self)
    }

    /// The smaller of two numbers; `self` when neither is smaller.
    pub fn min(self, other: Scalar) -> (r: Scalar)
        ensures
            r == (if other.lt_spec(self) { other } else { self }),
    {
        if other.lt(self) {
            other
        } else {
            self
        }
    }
}

/// `==` on scalars is equality of numbers, not of patterns: a NaN equals
/// nothing, itself included, and the two zeros are equal.
impl PartialEq for Scalar {
    fn eq(&self, other: &Scalar) -> (r: bool) {
        !self.is_nan() && !other.is_nan() && (self.bits == other.bits || (self.is_zero()
            && other.is_zero()))
    }
}

impl PartialEqSpecImpl for Scalar {
    open spec fn obeys_eq_spec() -> bool {
        true
    }

    open spec fn eq_spec(&self, other: &Scalar) -> bool {
        self.same_number(*other)
    }
}

} // verus!
