//! The square root.
use vstd::prelude::*;
use vstd::arithmetic::power2::{
    lemma2_to64, lemma2_to64_rest, lemma_pow2_adds, lemma_pow2_pos, lemma_pow2_unfold, pow2,
};
use vstd::arithmetic::power2::lemma_pow2_strictly_increases;
use crate::number::nearest::{
    binade, lemma_binade_at_most, lemma_nearest_is_near, lemma_nearest_of_expanded, lemma_sticky,
    nearest_dyadic, nearest_dyadic_spec, nearest_pattern, SIGNIFICAND_END,
};
use crate::number::scalar::{Scalar, INFINITY_BITS, QUIET_NAN, SIGN_BIT};
use crate::number::value::{normalized, split, FRACTION_MODULUS};

verus! {

/// Whether `q` is the whole part of the square root of `n`.
pub open spec fn is_whole_root(q: nat, n: nat) -> bool {
    q * q <= n < (q + 1) * (q + 1)
}

/// The whole part of the square root of `n`.
pub open spec fn whole_root(n: nat) -> nat {
    choose|q: nat| is_whole_root(q, n)
}

impl Scalar {
    /// The square root, rounded to the nearest double. The root of a NaN
    /// and of anything below zero is a NaN; the root of a zero is that zero
    /// and the root of infinity is infinity.
    ///
    /// The root of a number of `u` units is the number of units whose square
    /// is `u * 2^1074`. It is taken with 64 binary places: `q` is the whole
    /// root of that square times `2^128`. Where `q` squared is all of it, the
    /// root is `q * 2^-64`. Elsewhere the root lies strictly between `q` and
    /// `q + 1` of these places and is rounded as their middle is, for
    /// nothing that matters to rounding lies between two numbers so long.
    #[verifier::opaque]
    pub open spec fn sqrt_spec(self) -> Scalar {
        if self.is_nan_spec() {
            Scalar { bits: QUIET_NAN }
        } else if self.is_zero_spec() {
            self
        } else if self.is_sign_negative() {
            Scalar { bits: QUIET_NAN }
        } else if !self.is_finite_spec() {
            self
        } else {
            let square = self.magnitude_units() * pow2(1202);
            let q = whole_root(square);
            if q * q == square {
                Scalar { bits: nearest_dyadic_spec(q, -64) as u64 }
            } else {
                Scalar { bits: nearest_dyadic_spec(2 * q + 1, -65) as u64 }
            }
        }
    }

    /// The square root, rounded to the nearest double. It is never below
    /// zero.
    pub fn sqrt(self) -> (r: Scalar)
        ensures
            r == self.sqrt_spec(),
            !r.lt_spec(Scalar::zero_spec()),
    {
        reveal(Scalar::sqrt_spec);
        let m: u64 = self.magnitude_bits();
        if m > INFINITY_BITS {
            return Scalar { bits: QUIET_NAN };
        }
        if m == 0 {
            return self;
        }
        if self.bits >= SIGN_BIT {
            return Scalar { bits: QUIET_NAN };
        }
        if m == INFINITY_BITS {
            return self;
        }
        let (s, x) = split(m);
        let (top, k) = normalized(s);
        // The number is `top * 2^p` units.
        let p: i64 = x as i64 - 1 - k as i64;
        let odd: u64 = ((p + 1074) % 2) as u64;
        let z: i64 = (p - odd as i64 + 1146) / 2;
        let radicand: u128 = if odd == 1 {
            (top as u128) * 0x200_0000_0000_0000
        } else {
            (top as u128) * 0x100_0000_0000_0000
        };
        let q: u128 = whole_root_of(radicand);
        let exact = q * q == radicand;
        proof {
            lemma2_to64_rest();
            assert((Scalar { bits: m }).magnitude_units() == self.magnitude_units());
            lemma_root_is_between(
                self.magnitude_units(),
                s as nat,
                x as nat,
                k as nat,
                top as nat,
                odd as nat,
                radicand as nat,
                q as nat,
                z as nat,
            );
        }
        if exact {
            Scalar { bits: nearest_dyadic(q, z - 64) }
        } else {
            Scalar { bits: nearest_dyadic(2 * q + 1, z - 65) }
        }
    }
}

impl Scalar {
    /// The square, with 128 binary places, of the root of a number in units.
    pub open spec fn root_square(self) -> nat {
        self.magnitude_units() * pow2(1202)
    }

    /// The rounded root, in units with 64 binary places.
    pub open spec fn root_reach(self) -> nat {
        self.sqrt_spec().magnitude_units() * pow2(64)
    }

    /// Half a step of the binade of the root, with 64 binary places.
    pub open spec fn root_half_step(self) -> nat {
        let q = whole_root(self.root_square());
        if q * q == self.root_square() {
            pow2(63 + binade(q, pow2(64)))
        } else {
            pow2(63 + binade(2 * q + 1, pow2(65)))
        }
    }
}

/// The rounded root is near the root: it is a number, not below zero, and
/// the root lies no more than half a step of its binade away from it. The
/// root itself being no fraction, this is said of its square: the square
/// lies between the squares of the rounded root less half a step and of the
/// rounded root and half a step.
pub proof fn lemma_root_is_near(a: Scalar)
    requires
        a.is_finite_spec(),
        !a.is_sign_negative(),
        !a.is_zero_spec(),
    ensures
        a.sqrt_spec().is_finite_spec(),
        !a.sqrt_spec().is_sign_negative(),
        a.root_reach() >= a.root_half_step() ==> (a.root_reach() - a.root_half_step()) * (
        a.root_reach() - a.root_half_step()) <= a.root_square(),
        a.root_square() <= (a.root_reach() + a.root_half_step()) * (a.root_reach()
            + a.root_half_step()),
{
    reveal(Scalar::sqrt_spec);
    let square = a.root_square();
    let q = whole_root(square);
    let exact = q * q == square;
    let n: nat = if exact {
        q
    } else {
        2 * q + 1
    };
    let d: nat = if exact {
        pow2(64)
    } else {
        pow2(65)
    };
    let e = binade(n, d);
    let r = a.sqrt_spec();
    let reach = a.root_reach();
    let half = a.root_half_step();
    lemma_whole_root_exists(square);
    lemma_pow2_pos(64);
    lemma_pow2_pos(65);
    lemma_pow2_unfold(65);
    lemma_pow2_adds(63, e);
    lemma_pow2_adds(64, e);
    lemma_pow2_unfold(64);
    lemma_pow2_pos(e);
    // The root is far below the largest double.
    lemma_root_is_small(a, q);
    lemma_pow2_unfold(1651);
    lemma_pow2_adds(53, 65);
    lemma_pow2_adds(118, 1533);
    lemma_pow2_adds(53, 64);
    lemma_pow2_adds(117, 1533);
    lemma2_to64_rest();
    assert(n < SIGNIFICAND_END * d * pow2(1533)) by (nonlinear_arith)
        requires
            q < pow2(1650),
            pow2(1651) == pow2(1650) * 2,
            n <= 2 * q + 1,
            exact ==> n == q,
            pow2(1651) == SIGNIFICAND_END * pow2(65) * pow2(1533),
            pow2(1650) == SIGNIFICAND_END * pow2(64) * pow2(1533),
            d == pow2(64) || d == pow2(65),
            exact ==> d == pow2(64),
            !exact ==> d == pow2(65),
    ;
    lemma_binade_at_most(n, d, 1533);
    crate::number::nearest::lemma_round_is_at_most_the_end(n, d);
    assert(nearest_pattern(n, d) < INFINITY_BITS) by (nonlinear_arith)
        requires
            nearest_pattern(n, d) <= e * FRACTION_MODULUS + 2 * FRACTION_MODULUS,
            e <= 1533,
            FRACTION_MODULUS == 0x10_0000_0000_0000,
            INFINITY_BITS == 0x7FF0_0000_0000_0000,
    ;
    assert(r.bits == nearest_pattern(n, d));
    lemma_nearest_is_near(n, d);
    let u = r.magnitude_units();
    // In 64 binary places the rounded root is within `half` of `q`, and the
    // root lies between `q` and `q + 1`.
    lemma_pow2_pos(63);
    assert(reach - half <= q && q + 1 <= reach + half || exact && reach - half <= q <= reach
        + half) by (nonlinear_arith)
        requires
            2 * (u * d - n) <= d * pow2(e),
            2 * (n - u * d) <= d * pow2(e),
            reach == u * pow2(64),
            half == pow2(63) * pow2(e),
            pow2(64) == 2 * pow2(63),
            pow2(65) == 2 * pow2(64),
            exact ==> n == q && d == pow2(64),
            !exact ==> n == 2 * q + 1 && d == pow2(65),
            pow2(63) > 0,
    ;
    if reach >= half {
        assert((reach - half) * (reach - half) <= q * q) by (nonlinear_arith)
            requires
                0 <= reach - half <= q,
        ;
    }
    if exact {
        assert(q * q <= (reach + half) * (reach + half)) by (nonlinear_arith)
            requires
                q <= reach + half,
        ;
    } else {
        assert((q + 1) * (q + 1) <= (reach + half) * (reach + half)) by (nonlinear_arith)
            requires
                q + 1 <= reach + half,
        ;
    }
}

/// The whole root of the square of a finite number has fewer than 1651
/// bits.
proof fn lemma_root_is_small(a: Scalar, q: nat)
    requires
        a.is_finite_spec(),
        is_whole_root(q, a.root_square()),
    ensures
        q < pow2(1650),
{
    let u = a.magnitude_units();
    let e = a.exponent_field();
    lemma2_to64_rest();
    lemma_pow2_adds(53, 2045);
    lemma_pow2_adds(2098, 1202);
    lemma_pow2_adds(1650, 1650);
    lemma_pow2_pos(1202);
    lemma_pow2_pos(1650);
    assert(u < pow2(2098)) by {
        if e > 0 {
            lemma_pow2_pos((e - 1) as nat);
            if e - 1 < 2045 {
                lemma_pow2_strictly_increases((e - 1) as nat, 2045);
            }
            assert((a.fraction_field() + FRACTION_MODULUS) * pow2((e - 1) as nat) < pow2(53)
                * pow2(2045)) by (nonlinear_arith)
                requires
                    a.fraction_field() + FRACTION_MODULUS < pow2(53),
                    0 < pow2((e - 1) as nat) <= pow2(2045),
            ;
        } else {
            lemma_pow2_strictly_increases(52, 2098);
        }
    }
    assert(q < pow2(1650)) by (nonlinear_arith)
        requires
            q * q <= u * pow2(1202),
            u < pow2(2098),
            pow2(2098) * pow2(1202) == pow2(1650) * pow2(1650),
            pow2(1202) > 0,
            pow2(1650) > 0,
    ;
}

/// The whole part of the square root, found bit by bit from the top.
pub fn whole_root_of(n: u128) -> (q: u128)
    requires
        n < 0x4000_0000_0000_0000_0000_0000_0000,
    ensures
        is_whole_root(q as nat, n as nat),
        q < 0x80_0000_0000_0000,
{
    let mut q: u128 = 0;
    let mut span: u128 = 0x80_0000_0000_0000;
    let ghost mut j: nat = 55;
    proof {
        lemma2_to64_rest();
    }
    while span > 1
        invariant
            span == pow2(j),
            q + span <= 0x80_0000_0000_0000,
            q * q <= n < (q + span) * (q + span),
            n < 0x4000_0000_0000_0000_0000_0000_0000,
        decreases span,
    {
        proof {
            lemma2_to64();
            if j == 0 {
                assert(span == 1);
            }
            lemma_pow2_unfold(j);
        }
        let half: u128 = span / 2;
        let trial: u128 = q + half;
        assert(trial * trial <= 0x80_0000_0000_0000 * 0x80_0000_0000_0000) by (nonlinear_arith)
            requires
                trial <= 0x80_0000_0000_0000,
        ;
        if trial * trial <= n {
            q = trial;
        }
        span = half;
        proof {
            j = (j - 1) as nat;
        }
    }
    proof {
        lemma2_to64();
        assert((q + 1) * (q + 1) > q * q) by (nonlinear_arith)
            requires
                q >= 0,
        ;
    }
    q
}

/// A number has one whole root.
pub proof fn lemma_whole_root_is_unique(a: nat, b: nat, n: nat)
    requires
        is_whole_root(a, n),
        is_whole_root(b, n),
    ensures
        a == b,
{
    if a < b {
        assert((a + 1) * (a + 1) <= b * b) by (nonlinear_arith)
            requires
                a + 1 <= b,
        ;
    }
    if b < a {
        assert((b + 1) * (b + 1) <= a * a) by (nonlinear_arith)
            requires
                b + 1 <= a,
        ;
    }
}

/// Every number has a whole root.
pub proof fn lemma_whole_root_exists(n: nat)
    ensures
        is_whole_root(whole_root(n), n),
    decreases n,
{
    if n == 0 {
        assert(0 * 0 <= 0 < (0 + 1) * (0 + 1)) by (nonlinear_arith);
        assert(is_whole_root(0, 0));
    } else {
        lemma_whole_root_exists((n - 1) as nat);
        let q = whole_root((n - 1) as nat);
        if (q + 1) * (q + 1) <= n {
            assert(n < (q + 2) * (q + 2)) by (nonlinear_arith)
                requires
                    n - 1 < (q + 1) * (q + 1),
            ;
            assert(is_whole_root(q + 1, n));
        } else {
            assert(is_whole_root(q, n));
        }
    }
}

/// A root of `m * 4^z` is a multiple of `2^z`.
proof fn lemma_root_of_scaled_square(q: nat, m: nat, z: nat) -> (j: nat)
    requires
        q * q == m * pow2(2 * z),
    ensures
        q == j * pow2(z),
    decreases z,
{
    lemma2_to64();
    if z == 0 {
        assert(q == q * 1) by (nonlinear_arith);
        q
    } else {
        lemma_pow2_unfold(2 * z);
        lemma_pow2_unfold((2 * z - 1) as nat);
        lemma_pow2_unfold(z);
        let rest = pow2((2 * (z - 1)) as nat);
        let half = q / 2;
        if q % 2 == 1 {
            assert(q * q == 2 * (2 * (half * half) + 2 * half) + 1) by (nonlinear_arith)
                requires
                    q == 2 * half + 1,
            ;
            assert(m * (2 * (2 * rest)) == 2 * (2 * (m * rest))) by (nonlinear_arith);
        }
        assert(half * half == m * rest) by (nonlinear_arith)
            requires
                q == 2 * half,
                q * q == m * (2 * (2 * rest)),
        ;
        let j = lemma_root_of_scaled_square(half, m, (z - 1) as nat);
        assert(q == j * (2 * pow2((z - 1) as nat))) by (nonlinear_arith)
            requires
                q == 2 * half,
                half == j * pow2((z - 1) as nat),
        ;
        j
    }
}

/// The root of a number given by its parts. The number is `top * 2^p`
/// units, and `radicand` is `top * 2^56` or, where `p` is odd, twice that.
/// Its whole root `q` then has 55 bits, and the root of the number is
/// `q * 2^(z - 64)` units where `q` squared is the radicand, and strictly
/// between that and the next such number elsewhere.
proof fn lemma_root_is_between(
    u: nat,
    s: nat,
    x: nat,
    k: nat,
    top: nat,
    odd: nat,
    radicand: nat,
    q: nat,
    z: nat,
)
    requires
        x >= 1,
        k <= 52,
        odd <= 1,
        u == s * pow2((x - 1) as nat),
        top == s * pow2(k),
        FRACTION_MODULUS <= top < SIGNIFICAND_END,
        radicand == top * pow2(56 + odd),
        2 * z == x - 1 - k - odd + 1146,
        is_whole_root(q, radicand),
    ensures
        q * q == radicand ==> (whole_root(u * pow2(1202)) * whole_root(u * pow2(1202)) == u
            * pow2(1202) && nearest_dyadic_spec(whole_root(u * pow2(1202)), -64)
            == nearest_dyadic_spec(q, z - 64)),
        q * q != radicand ==> (whole_root(u * pow2(1202)) * whole_root(u * pow2(1202)) != u
            * pow2(1202) && nearest_dyadic_spec(2 * whole_root(u * pow2(1202)) + 1, -65)
            == nearest_dyadic_spec(2 * q + 1, z - 65)),
        0x40_0000_0000_0000 <= q < 0x80_0000_0000_0000,
        nearest_dyadic_spec(q, z - 64) < SIGN_BIT,
        nearest_dyadic_spec(2 * q + 1, z - 65) < SIGN_BIT,
{
    let square = u * pow2(1202);
    let scale = pow2(z);
    let root = whole_root(square);
    lemma2_to64();
    lemma2_to64_rest();
    lemma_pow2_pos(z);
    lemma_pow2_adds(z, z);
    lemma_pow2_adds(52, 4);
    lemma_pow2_adds(52, 5);
    // The square is the radicand times the scale squared.
    assert(square == radicand * (scale * scale)) by {
        lemma_pow2_adds((x - 1) as nat, 1202);
        lemma_pow2_adds(k, 56 + odd);
        lemma_pow2_adds(k + 56 + odd, 2 * z);
        assert(square == s * pow2((x + 1201) as nat)) by (nonlinear_arith)
            requires
                square == s * pow2((x - 1) as nat) * pow2(1202),
                pow2((x + 1201) as nat) == pow2((x - 1) as nat) * pow2(1202),
        ;
        assert(radicand * (scale * scale) == s * pow2((x + 1201) as nat)) by (nonlinear_arith)
            requires
                radicand == s * pow2(k) * pow2(56 + odd),
                scale * scale == pow2(2 * z),
                pow2((x + 1201) as nat) == pow2(k) * pow2(56 + odd) * pow2(2 * z),
        ;
    }
    // The whole root of the radicand has 55 bits.
    assert(pow2(56 + odd) == 0x100_0000_0000_0000 || pow2(56 + odd) == 0x200_0000_0000_0000);
    assert(0x1000_0000_0000_0000_0000_0000_0000 <= radicand
        < 0x4000_0000_0000_0000_0000_0000_0000) by (nonlinear_arith)
        requires
            radicand == top * pow2(56 + odd),
            0x10_0000_0000_0000 <= top < 0x20_0000_0000_0000,
            pow2(56 + odd) == 0x100_0000_0000_0000 || pow2(56 + odd) == 0x200_0000_0000_0000,
    ;
    assert(0x40_0000_0000_0000 <= q < 0x80_0000_0000_0000) by (nonlinear_arith)
        requires
            q * q <= radicand < (q + 1) * (q + 1),
            0x1000_0000_0000_0000_0000_0000_0000 <= radicand < 0x4000_0000_0000_0000_0000_0000_0000,
    ;
    lemma_whole_root_exists(square);
    crate::number::nearest::lemma_dyadic_is_bounded(q, z - 64);
    crate::number::nearest::lemma_dyadic_is_bounded(2 * q + 1, z - 65);
    if q * q == radicand {
        assert(is_whole_root(q * scale, square)) by (nonlinear_arith)
            requires
                q * q == radicand,
                square == radicand * (scale * scale),
                scale > 0,
        ;
        lemma_whole_root_is_unique(root, q * scale, square);
        assert(root * root == square) by (nonlinear_arith)
            requires
                root == q * scale,
                q * q == radicand,
                square == radicand * (scale * scale),
        ;
        lemma_same_dyadic(q, z);
    } else {
        // The root lies between the neighbours `q * scale` and `(q + 1) * scale`.
        assert(q * scale <= root) by {
            if root + 1 <= q * scale {
                assert((root + 1) * (root + 1) <= radicand * (scale * scale))
                    by (nonlinear_arith)
                    requires
                        root + 1 <= q * scale,
                        q * q <= radicand,
                        scale > 0,
                ;
            }
        }
        assert(root + 1 <= (q + 1) * scale) by {
            if root >= (q + 1) * scale {
                assert(root * root > radicand * (scale * scale)) by (nonlinear_arith)
                    requires
                        root >= (q + 1) * scale,
                        (q + 1) * (q + 1) > radicand,
                        scale > 0,
                ;
            }
        }
        if root * root == square {
            let j = lemma_root_of_scaled_square(root, radicand, z);
            assert(j == q) by (nonlinear_arith)
                requires
                    root == j * scale,
                    q * scale <= root,
                    root + 1 <= (q + 1) * scale,
                    scale > 0,
            ;
            assert(q * q == radicand) by (nonlinear_arith)
                requires
                    root == q * scale,
                    root * root == radicand * (scale * scale),
                    scale > 0,
            ;
        }
        lemma_middle_is_between(root, q, z);
    }
}

/// `q * 2^z` with 64 binary places is `q * 2^(z - 64)`.
proof fn lemma_same_dyadic(q: nat, z: nat)
    ensures
        nearest_dyadic_spec(q * pow2(z), -64) == nearest_dyadic_spec(q, z - 64),
{
    lemma_pow2_pos(z);
    lemma_pow2_pos(64);
    if z >= 64 {
        lemma_pow2_adds(64, (z - 64) as nat);
        lemma_nearest_of_expanded(q * pow2((z - 64) as nat), 1, pow2(64));
        assert(pow2(64) * (q * pow2((z - 64) as nat)) == q * pow2(z)) by (nonlinear_arith)
            requires
                pow2(z) == pow2(64) * pow2((z - 64) as nat),
        ;
        assert(pow2(64) * 1 == pow2(64));
    } else {
        lemma_pow2_adds(z, (64 - z) as nat);
        lemma_pow2_pos((64 - z) as nat);
        lemma_nearest_of_expanded(q, pow2((64 - z) as nat), pow2(z));
        assert(pow2(z) * q == q * pow2(z)) by (nonlinear_arith);
    }
}

/// The middle between `root` and `root + 1`, with 64 binary places, lies
/// strictly between `q * 2^(z - 64)` and `(q + 1) * 2^(z - 64)` where `root`
/// lies between `q * 2^z` and `(q + 1) * 2^z`, and so rounds as their
/// middle does.
proof fn lemma_middle_is_between(root: nat, q: nat, z: nat)
    requires
        0x40_0000_0000_0000 <= q < 0x80_0000_0000_0000,
        q * pow2(z) <= root,
        root + 1 <= (q + 1) * pow2(z),
    ensures
        nearest_dyadic_spec(2 * root + 1, -65) == nearest_dyadic_spec(2 * q + 1, z - 65),
{
    let scale = pow2(z);
    let n = 2 * root + 1;
    let d = pow2(65);
    let t = z - 64;
    lemma2_to64();
    lemma2_to64_rest();
    lemma_pow2_pos(z);
    lemma_pow2_pos(65);
    lemma_pow2_unfold((z + 1) as nat);
    if t >= 0 {
        lemma_pow2_adds(t as nat, 65);
        assert(q * pow2(t as nat) * d < n < (q + 1) * pow2(t as nat) * d) by (nonlinear_arith)
            requires
                n == 2 * root + 1,
                q * scale <= root,
                root + 1 <= (q + 1) * scale,
                pow2(t as nat) * d == 2 * scale,
        ;
    } else {
        lemma_pow2_adds((-t) as nat, (z + 1) as nat);
        lemma_pow2_pos((-t) as nat);
        assert(q * d < n * pow2((-t) as nat) < (q + 1) * d) by (nonlinear_arith)
            requires
                n == 2 * root + 1,
                q * scale <= root,
                root + 1 <= (q + 1) * scale,
                d == pow2((-t) as nat) * (2 * scale),
                pow2((-t) as nat) > 0,
        ;
    }
    lemma_sticky(n, d, q, 55, t);
}

} // verus!
