//! Rounding to the nearest double, a tie going to the even significand.
//!
//! A value is given as a fraction `n / d` of units, the unit being the
//! smallest positive double. Which doubles there are is a matter of binades:
//! in binade 0 every whole count of units below two to the 53rd power is a
//! double, and in binade `e` the doubles are the counts `s * 2^e` for the
//! 53-bit numbers `s`.
use vstd::prelude::*;
use vstd::arithmetic::power2::{
    lemma2_to64, lemma2_to64_rest, lemma_pow2_adds, lemma_pow2_pos, lemma_pow2_strictly_increases,
    lemma_pow2_unfold, pow2,
};
use vstd::arithmetic::div_mod::{
    lemma_basic_div, lemma_div_multiples_vanish, lemma_div_multiples_vanish_quotient,
    lemma_fundamental_div_mod, lemma_fundamental_div_mod_converse, lemma_mod_multiples_basic,
    lemma_small_mod, lemma_truncate_middle,
};
use vstd::bits::lemma_u64_shl_is_mul;
use crate::number::scalar::{Scalar, INFINITY_BITS, SIGN_BIT};
use crate::number::value::FRACTION_MODULUS;

verus! {

/// Two to the 53rd power: one more than the largest significand.
pub const SIGNIFICAND_END: u64 = 0x20_0000_0000_0000;

/// `n / d` rounded to the nearest whole number, a tie going to the even one.
pub open spec fn round_half_even(n: nat, d: nat) -> nat
    recommends
        d > 0,
{
    let q = n / d;
    let r = n % d;
    if 2 * r > d || (2 * r == d && q % 2 == 1) {
        q + 1
    } else {
        q
    }
}

/// The binade of the value `n / d`: the least `e` for which the value is
/// below `2^53 * 2^e`.
pub open spec fn binade(n: nat, d: nat) -> nat
    decreases n - d,
{
    if d == 0 || n < 0x20_0000_0000_0000 * d {
        0
    } else {
        1 + binade(n, 2 * d)
    }
}

/// The magnitude of the double nearest to `n / d` units. In binade `e` the
/// value is rounded to a whole number `s` of steps of `2^e` units; the
/// pattern of `s * 2^e` is `e * 2^52 + s`, also where `s` has come to two to
/// the 53rd power. A value that rounds beyond the largest double becomes
/// infinity.
pub open spec fn nearest_pattern(n: nat, d: nat) -> nat {
    let e = binade(n, d);
    let raw = (e * FRACTION_MODULUS + round_half_even(n, d * pow2(e))) as nat;
    if raw >= INFINITY_BITS {
        INFINITY_BITS as nat
    } else {
        raw
    }
}

/// The magnitude of the double nearest to `m * 2^t` units.
pub open spec fn nearest_dyadic_spec(m: nat, t: int) -> nat {
    if t >= 0 {
        nearest_pattern(m * pow2(t as nat), 1)
    } else {
        nearest_pattern(m, pow2((-t) as nat))
    }
}

/// The pattern with the given magnitude and sign.
pub open spec fn signed(magnitude: nat, negative: bool) -> Scalar {
    if negative {
        Scalar { bits: (magnitude + SIGN_BIT) as u64 }
    } else {
        Scalar { bits: magnitude as u64 }
    }
}

/// The binade of a value is `e` when the value is below `2^53 * 2^e` and,
/// unless `e` is zero, not below `2^53 * 2^(e - 1)`.
pub proof fn lemma_binade_is(n: nat, d: nat, e: nat)
    requires
        d > 0,
        n < SIGNIFICAND_END * d * pow2(e),
        e > 0 ==> n >= SIGNIFICAND_END * d * pow2((e - 1) as nat),
    ensures
        binade(n, d) == e,
    decreases e,
{
    lemma2_to64();
    if e == 0 {
        assert(SIGNIFICAND_END * d * 1 == SIGNIFICAND_END * d) by (nonlinear_arith);
    } else {
        lemma_pow2_pos((e - 1) as nat);
        lemma_pow2_unfold(e);
        assert(SIGNIFICAND_END * d * pow2((e - 1) as nat) >= SIGNIFICAND_END * d)
            by (nonlinear_arith)
            requires
                pow2((e - 1) as nat) >= 1,
        ;
        assert(SIGNIFICAND_END * (2 * d) * pow2((e - 1) as nat) == SIGNIFICAND_END * d * (2
            * pow2((e - 1) as nat))) by (nonlinear_arith);
        if e > 1 {
            lemma_pow2_unfold((e - 1) as nat);
            assert(SIGNIFICAND_END * (2 * d) * pow2((e - 2) as nat) == SIGNIFICAND_END * d * (2
                * pow2((e - 2) as nat))) by (nonlinear_arith);
        }
        lemma_binade_is(n, 2 * d, (e - 1) as nat);
    }
}

/// Rounding a fraction does not depend on how far it is reduced.
pub proof fn lemma_round_of_expanded(n: nat, d: nat, c: nat)
    requires
        d > 0,
        c > 0,
    ensures
        round_half_even(c * n, c * d) == round_half_even(n, d),
{
    lemma_div_multiples_vanish_quotient(c as int, n as int, d as int);
    lemma_truncate_middle(n as int, c as int, d as int);
    let q = n / d;
    let rest = n % d;
    assert((c * n) / (c * d) == q);
    assert((c * n) % (c * d) == c * rest);
    assert((2 * (c * rest) > c * d) <==> (2 * rest > d)) by (nonlinear_arith)
        requires
            c > 0,
    ;
    assert((2 * (c * rest) == c * d) <==> (2 * rest == d)) by (nonlinear_arith)
        requires
            c > 0,
    ;
}

/// The binade of a fraction does not depend on how far it is reduced.
pub proof fn lemma_binade_of_expanded(n: nat, d: nat, c: nat)
    requires
        d > 0,
        c > 0,
    ensures
        binade(c * n, c * d) == binade(n, d),
    decreases n - d,
{
    assert((c * n < 0x20_0000_0000_0000 * (c * d)) <==> (n < 0x20_0000_0000_0000 * d))
        by (nonlinear_arith)
        requires
            c > 0,
    ;
    assert(c * d > 0) by (nonlinear_arith)
        requires
            c > 0,
            d > 0,
    ;
    if n >= 0x20_0000_0000_0000 * d {
        lemma_binade_of_expanded(n, 2 * d, c);
        assert(c * (2 * d) == 2 * (c * d)) by (nonlinear_arith);
    }
}

/// The nearest double does not depend on how far the fraction is reduced.
pub proof fn lemma_nearest_of_expanded(n: nat, d: nat, c: nat)
    requires
        d > 0,
        c > 0,
    ensures
        nearest_pattern(c * n, c * d) == nearest_pattern(n, d),
{
    let e = binade(n, d);
    lemma_binade_of_expanded(n, d, c);
    lemma_pow2_pos(e);
    assert(d * pow2(e) > 0) by (nonlinear_arith)
        requires
            d > 0,
            pow2(e) > 0,
    ;
    lemma_round_of_expanded(n, d * pow2(e), c);
    assert(c * (d * pow2(e)) == (c * d) * pow2(e)) by (nonlinear_arith);
}

/// A whole number of steps rounds to itself.
pub proof fn lemma_round_of_whole(s: nat, d: nat)
    requires
        d > 0,
    ensures
        round_half_even(s * d, d) == s,
{
    lemma_div_multiples_vanish(s as int, d as int);
    lemma_mod_multiples_basic(s as int, d as int);
    assert(s * d == d * s) by (nonlinear_arith);
}

/// Two to the power `k`.
pub fn power_of_two(k: u64) -> (d: u128)
    requires
        k <= 110,
    ensures
        d == pow2(k as nat),
{
    let low: u64 = if k > 55 {
        55
    } else {
        k
    };
    let high: u64 = k - low;
    proof {
        lemma2_to64_rest();
        if low < 55 {
            lemma_pow2_strictly_increases(low as nat, 55);
        }
        if high < 55 {
            lemma_pow2_strictly_increases(high as nat, 55);
        }
        lemma_u64_shl_is_mul(1, low);
        lemma_u64_shl_is_mul(1, high);
        lemma_pow2_adds(low as nat, high as nat);
        assert(pow2(low as nat) * pow2(high as nat) <= 0x80_0000_0000_0000 * 0x80_0000_0000_0000)
            by (nonlinear_arith)
            requires
                pow2(low as nat) <= 0x80_0000_0000_0000,
                pow2(high as nat) <= 0x80_0000_0000_0000,
        ;
    }
    ((1u64 << low) as u128) * ((1u64 << high) as u128)
}

/// One step of the search for the top bit: `x` if it has at most `k` bits,
/// and else its part above the lowest `k` bits, with the count of the bits
/// set aside so far.
fn upper_part(m: u128, x: u128, l: u64, k: u64, bound: u128) -> (r: (u128, u64))
    requires
        k <= 64,
        l + k <= 127,
        bound == pow2(k as nat),
        1 <= x < bound * bound,
        x * pow2(l as nat) <= m < (x + 1) * pow2(l as nat),
    ensures
        1 <= r.0 < bound,
        r.0 * pow2(r.1 as nat) <= m < (r.0 + 1) * pow2(r.1 as nat),
        l <= r.1 <= l + k,
{
    proof {
        lemma_pow2_pos(k as nat);
    }
    if x >= bound {
        let upper: u128 = x / bound;
        proof {
            let low = pow2(l as nat);
            lemma_pow2_adds(k as nat, l as nat);
            lemma_pow2_pos(l as nat);
            lemma_fundamental_div_mod(x as int, bound as int);
            assert(1 <= upper < bound) by (nonlinear_arith)
                requires
                    x == bound * upper + x % bound,
                    0 <= x % bound < bound,
                    bound <= x < bound * bound,
            ;
            assert(upper * (bound * low) <= x * low && (x + 1) * low <= (upper + 1) * (bound * low))
                by (nonlinear_arith)
                requires
                    x == bound * upper + x % bound,
                    0 <= x % bound < bound,
                    low > 0,
            ;
        }
        (upper, l + k)
    } else {
        (x, l)
    }
}

/// The number of bits of `m`: the `l` with `2^(l - 1) <= m < 2^l`.
pub fn bit_length(m: u128) -> (l: u64)
    requires
        0 < m < 0x4000_0000_0000_0000_0000_0000_0000,
    ensures
        1 <= l <= 110,
        pow2((l - 1) as nat) <= m < pow2(l as nat),
{
    proof {
        lemma2_to64();
        assert(m * 1 == m) by (nonlinear_arith);
        assert(0x1_0000_0000_0000_0000 * 0x1_0000_0000_0000_0000 > m) by (nonlinear_arith)
            requires
                m < 0x4000_0000_0000_0000_0000_0000_0000,
        ;
    }
    let (x, l) = upper_part(m, m, 0, 64, 0x1_0000_0000_0000_0000);
    let (x, l) = upper_part(m, x, l, 32, 0x1_0000_0000);
    let (x, l) = upper_part(m, x, l, 16, 0x1_0000);
    let (x, l) = upper_part(m, x, l, 8, 0x100);
    let (x, l) = upper_part(m, x, l, 4, 0x10);
    let (x, l) = upper_part(m, x, l, 2, 4);
    let (x, l) = upper_part(m, x, l, 1, 2);
    proof {
        assert(x == 1);
        assert(1 * pow2(l as nat) == pow2(l as nat)) by (nonlinear_arith);
        assert((1 + 1) * pow2(l as nat) == 2 * pow2(l as nat)) by (nonlinear_arith);
        lemma_pow2_unfold((l + 1) as nat);
        lemma_pow2_adds(64, 46);
        lemma2_to64_rest();
        if l >= 110 {
            if l > 110 {
                lemma_pow2_strictly_increases(110, l as nat);
            }
        }
    }
    l + 1
}

/// The magnitude of the double nearest to `m * 2^t` units.
pub fn nearest_dyadic(m: u128, t: i64) -> (r: u64)
    requires
        0 < m < 0x4000_0000_0000_0000_0000_0000_0000,
        -4000 <= t <= 4000,
    ensures
        r == nearest_dyadic_spec(m as nat, t as int),
        r <= INFINITY_BITS,
{
    let l: i64 = bit_length(m) as i64;
    let e: i64 = if l - 53 + t > 0 {
        l - 53 + t
    } else {
        0
    };
    let k: i64 = e - t;
    proof {
        lemma_bounds_give_binade(m as nat, t as int, l as nat, e as nat);
    }
    if e >= 2047 {
        return INFINITY_BITS;
    }
    let sig: u64;
    if k <= 0 {
        proof {
            lemma_whole_steps(m as nat, t as int, l as nat, e as nat);
            lemma_u64_shl_is_mul(m as u64, (-k) as u64);
        }
        sig = (m as u64) << ((-k) as u64);
    } else if k > l {
        proof {
            lemma_round_to_pow2(m as nat, t as int, e as nat, k as nat);
            lemma_far_below_one_step(m as nat, l as nat, k as nat);
        }
        sig = 0;
    } else {
        let divisor: u128 = power_of_two(k as u64);
        proof {
            lemma_round_to_pow2(m as nat, t as int, e as nat, k as nat);
            lemma_quotient_fits(m as nat, l as nat, k as nat);
        }
        let q: u128 = m / divisor;
        let rest: u128 = m % divisor;
        sig = if 2 * rest > divisor || (2 * rest == divisor && q % 2 == 1) {
            q as u64 + 1
        } else {
            q as u64
        };
    }
    let raw: u64 = (e as u64) * FRACTION_MODULUS + sig;
    if raw >= INFINITY_BITS {
        INFINITY_BITS
    } else {
        raw
    }
}

/// Where the unit `2^t` of the number is a whole number of steps of the
/// binade, the value is a whole number of steps, of at most 53 bits.
proof fn lemma_whole_steps(m: nat, t: int, l: nat, e: nat)
    requires
        l >= 1,
        m < pow2(l),
        e == (if l - 53 + t > 0 {
            l - 53 + t
        } else {
            0
        }),
        e - t <= 0,
    ensures
        t >= 0,
        m <= m * pow2((t - e) as nat) < SIGNIFICAND_END,
        round_half_even(m * pow2(t as nat), 1 * pow2(e)) == m * pow2((t - e) as nat),
{
    let up = (t - e) as nat;
    lemma2_to64_rest();
    lemma_pow2_pos(e);
    lemma_pow2_pos(up);
    lemma_pow2_adds(up, e);
    assert(m * pow2(t as nat) == (m * pow2(up)) * (1 * pow2(e))) by (nonlinear_arith)
        requires
            pow2(t as nat) == pow2(up) * pow2(e),
    ;
    lemma_round_of_whole(m * pow2(up), 1 * pow2(e));
    lemma_pow2_adds(l, up);
    if l + up < 53 {
        lemma_pow2_strictly_increases(l + up, 53);
    }
    assert(m <= m * pow2(up) < pow2(l) * pow2(up)) by (nonlinear_arith)
        requires
            m < pow2(l),
            pow2(up) > 0,
    ;
}

/// A number of `l` bits is less than half of `2^k` when `k` is more than `l`.
proof fn lemma_far_below_one_step(m: nat, l: nat, k: nat)
    requires
        m < pow2(l),
        k > l,
    ensures
        round_half_even(m, pow2(k)) == 0,
{
    if l < k - 1 {
        lemma_pow2_strictly_increases(l, (k - 1) as nat);
    }
    lemma_pow2_unfold(k);
    lemma_basic_div(m as int, pow2(k) as int);
    lemma_small_mod(m, pow2(k));
}

/// A number of `l` bits, divided by `2^k` and rounded, has at most 53 bits
/// when `l - k` is at most 53; and `2^k` is not zero.
proof fn lemma_quotient_fits(m: nat, l: nat, k: nat)
    requires
        m < pow2(l),
        1 <= k <= l <= 110,
        l - k <= 53,
    ensures
        pow2(k) > 0,
        2 * pow2(k) <= 0x8000_0000_0000_0000_0000_0000_0000,
        m / pow2(k) < SIGNIFICAND_END,
{
    let divisor = pow2(k);
    lemma2_to64();
    lemma2_to64_rest();
    lemma_pow2_pos(k);
    lemma_fundamental_div_mod(m as int, divisor as int);
    lemma_pow2_adds(k, (l - k) as nat);
    if l - k < 53 {
        lemma_pow2_strictly_increases((l - k) as nat, 53);
    }
    let q = m / divisor;
    let rest = m % divisor;
    assert(q < pow2((l - k) as nat)) by (nonlinear_arith)
        requires
            m == divisor * q + rest,
            0 <= rest,
            m < divisor * pow2((l - k) as nat),
            divisor > 0,
    ;
    if k < 110 {
        lemma_pow2_strictly_increases(k, 110);
    }
    lemma_pow2_adds(64, 46);
}

/// A number of `l` bits, times `2^t`, lies in the binade `max(0, l - 53 + t)`.
proof fn lemma_bounds_give_binade(m: nat, t: int, l: nat, e: nat)
    requires
        l >= 1,
        pow2((l - 1) as nat) <= m < pow2(l),
        e == (if l - 53 + t > 0 {
            l - 53 + t
        } else {
            0
        }),
    ensures
        t >= 0 ==> binade(m * pow2(t as nat), 1) == e,
        t < 0 ==> binade(m, pow2((-t) as nat)) == e,
{
    lemma2_to64_rest();
    let up: nat = if t >= 0 {
        t as nat
    } else {
        0
    };
    let down: nat = if t >= 0 {
        0
    } else {
        (-t) as nat
    };
    let n = m * pow2(up);
    let d = pow2(down);
    lemma2_to64();
    lemma_pow2_pos(up);
    lemma_pow2_pos(down);
    // n < 2^(l + up) <= 2^(53 + down + e)
    lemma_pow2_adds(l, up);
    lemma_pow2_adds(53, down);
    lemma_pow2_adds(53 + down, e);
    if l + up < 53 + down + e {
        lemma_pow2_strictly_increases(l + up, 53 + down + e);
    }
    assert(n < pow2(l) * pow2(up)) by (nonlinear_arith)
        requires
            n == m * pow2(up),
            m < pow2(l),
            pow2(up) > 0,
    ;
    assert(SIGNIFICAND_END * d * pow2(e) == pow2(53 + down + e)) by (nonlinear_arith)
        requires
            pow2(53 + down + e) == pow2(53 + down) * pow2(e),
            pow2(53 + down) == pow2(53) * d,
            pow2(53) == SIGNIFICAND_END,
    ;
    if e > 0 {
        // 2^(l - 1 + up) == 2^(53 + down + e - 1)
        lemma_pow2_adds((l - 1) as nat, up);
        lemma_pow2_adds(53 + down, (e - 1) as nat);
        assert(n >= pow2((l - 1) as nat) * pow2(up)) by (nonlinear_arith)
            requires
                n == m * pow2(up),
                m >= pow2((l - 1) as nat),
                pow2(up) > 0,
        ;
        assert(SIGNIFICAND_END * d * pow2((e - 1) as nat) == pow2((53 + down + e - 1) as nat))
            by (nonlinear_arith)
            requires
                pow2((53 + down + e - 1) as nat) == pow2(53 + down) * pow2((e - 1) as nat),
                pow2(53 + down) == pow2(53) * d,
                pow2(53) == SIGNIFICAND_END,
        ;
    }
    lemma_binade_is(n, d, e);
    assert(m * 1 == m) by (nonlinear_arith);
}

/// Where the step of the binade is `2^k` times the unit `2^t` of the
/// number, with `k` at least one, rounding the value in steps is rounding
/// the number in units of `2^k`.
proof fn lemma_round_to_pow2(m: nat, t: int, e: nat, k: nat)
    requires
        k == e - t,
        k >= 1,
    ensures
        t >= 0 ==> round_half_even(m * pow2(t as nat), 1 * pow2(e)) == round_half_even(
            m,
            pow2(k),
        ),
        t < 0 ==> round_half_even(m, pow2((-t) as nat) * pow2(e)) == round_half_even(m, pow2(k)),
{
    lemma_pow2_pos(k);
    if t >= 0 {
        lemma_pow2_pos(t as nat);
        lemma_pow2_adds(t as nat, k);
        lemma_round_of_expanded(m, pow2(k), pow2(t as nat));
        assert(m * pow2(t as nat) == pow2(t as nat) * m) by (nonlinear_arith);
        assert(1 * pow2(e) == pow2(t as nat) * pow2(k)) by (nonlinear_arith)
            requires
                pow2(e) == pow2(t as nat) * pow2(k),
        ;
    } else {
        lemma_pow2_adds((-t) as nat, e);
    }
}

/// A value lies in its binade: below the end of it and, unless the binade
/// is the first, not below its start.
pub proof fn lemma_binade_bounds(n: nat, d: nat)
    requires
        d > 0,
    ensures
        n < SIGNIFICAND_END * d * pow2(binade(n, d)),
        binade(n, d) > 0 ==> n >= FRACTION_MODULUS * d * pow2(binade(n, d)),
    decreases n - d,
{
    lemma2_to64();
    if n < 0x20_0000_0000_0000 * d {
        assert(SIGNIFICAND_END * d * 1 == SIGNIFICAND_END * d) by (nonlinear_arith);
    } else {
        let e = binade(n, 2 * d);
        lemma_binade_bounds(n, 2 * d);
        lemma_pow2_unfold(e + 1);
        assert(SIGNIFICAND_END * (2 * d) * pow2(e) == SIGNIFICAND_END * d * (2 * pow2(e)))
            by (nonlinear_arith);
        assert(FRACTION_MODULUS * (2 * d) * pow2(e) == FRACTION_MODULUS * d * (2 * pow2(e)))
            by (nonlinear_arith);
        if e == 0 {
            assert(FRACTION_MODULUS * d * (2 * 1) == SIGNIFICAND_END * d) by (nonlinear_arith)
                requires
                    SIGNIFICAND_END == 2 * FRACTION_MODULUS,
            ;
        } else {
            assert(FRACTION_MODULUS * d * (2 * pow2(e)) >= FRACTION_MODULUS * d * pow2(e))
                by (nonlinear_arith);
        }
    }
}

/// The binade of a value below `2^53 * 2^e` is at most `e`.
pub proof fn lemma_binade_at_most(n: nat, d: nat, e: nat)
    requires
        d > 0,
        n < SIGNIFICAND_END * d * pow2(e),
    ensures
        binade(n, d) <= e,
    decreases e,
{
    lemma2_to64();
    if e == 0 {
        assert(SIGNIFICAND_END * d * 1 == SIGNIFICAND_END * d) by (nonlinear_arith);
    } else if n >= 0x20_0000_0000_0000 * d {
        lemma_pow2_unfold(e);
        assert(SIGNIFICAND_END * (2 * d) * pow2((e - 1) as nat) == SIGNIFICAND_END * d * (2
            * pow2((e - 1) as nat))) by (nonlinear_arith);
        lemma_binade_at_most(n, 2 * d, (e - 1) as nat);
    }
}

/// A rounded fraction is within half of the fraction.
pub proof fn lemma_round_is_near(n: nat, d: nat)
    requires
        d > 0,
    ensures
        2 * (round_half_even(n, d) * d - n) <= d,
        2 * (n - round_half_even(n, d) * d) <= d,
{
    let q = n / d;
    let r = n % d;
    lemma_fundamental_div_mod(n as int, d as int);
    assert((q + 1) * d - n == d - r) by (nonlinear_arith)
        requires
            n == d * q + r,
    ;
    assert(q * d - n == -r) by (nonlinear_arith)
        requires
            n == d * q + r,
    ;
}

/// The pattern `e * 2^52 + s` stands for `s * 2^e` units, where `s` is a
/// significand of binade `e` or the end of that binade.
pub proof fn lemma_pattern_units(e: nat, s: nat)
    requires
        s <= SIGNIFICAND_END,
        e > 0 ==> s >= FRACTION_MODULUS,
        e * FRACTION_MODULUS + s < INFINITY_BITS,
    ensures
        (Scalar { bits: (e * FRACTION_MODULUS + s) as u64 }).is_finite_spec(),
        (Scalar { bits: (e * FRACTION_MODULUS + s) as u64 }).magnitude_units() == s * pow2(e),
{
    let p = Scalar { bits: (e * FRACTION_MODULUS + s) as u64 };
    lemma2_to64();
    assert(p.magnitude() == e * FRACTION_MODULUS + s);
    if s < FRACTION_MODULUS {
        assert(p.exponent_field() == 0);
        assert(s * 1 == s) by (nonlinear_arith);
    } else if s < SIGNIFICAND_END {
        assert(p.exponent_field() == e + 1);
        assert(p.fraction_field() == s - FRACTION_MODULUS);
    } else {
        assert(p.exponent_field() == e + 2);
        assert(p.fraction_field() == 0);
        lemma_pow2_unfold(e + 1);
        assert(FRACTION_MODULUS * (2 * pow2(e)) == s * pow2(e)) by (nonlinear_arith)
            requires
                s == 2 * FRACTION_MODULUS,
        ;
    }
}

/// The nearest double is near: unless the value rounds to infinity, the
/// double differs from the value by at most half a step of the value's
/// binade.
pub proof fn lemma_nearest_is_near(n: nat, d: nat)
    requires
        d > 0,
        nearest_pattern(n, d) < INFINITY_BITS,
    ensures
        (Scalar { bits: nearest_pattern(n, d) as u64 }).is_finite_spec(),
        2 * ((Scalar { bits: nearest_pattern(n, d) as u64 }).magnitude_units() * d - n) <= d
            * pow2(binade(n, d)),
        2 * (n - (Scalar { bits: nearest_pattern(n, d) as u64 }).magnitude_units() * d) <= d
            * pow2(binade(n, d)),
{
    let e = binade(n, d);
    let step = d * pow2(e);
    let s = round_half_even(n, step);
    lemma_pow2_pos(e);
    assert(step > 0) by (nonlinear_arith)
        requires
            step == d * pow2(e),
            d > 0,
            pow2(e) > 0,
    ;
    lemma_binade_bounds(n, d);
    lemma_round_is_near(n, step);
    lemma_fundamental_div_mod(n as int, step as int);
    assert(n / step < SIGNIFICAND_END) by (nonlinear_arith)
        requires
            n == step * (n / step) + n % step,
            n % step >= 0,
            n < SIGNIFICAND_END * d * pow2(e),
            step == d * pow2(e),
            step > 0,
    ;
    if e > 0 {
        assert(n / step >= FRACTION_MODULUS) by (nonlinear_arith)
            requires
                n == step * (n / step) + n % step,
                n % step < step,
                n >= FRACTION_MODULUS * d * pow2(e),
                step == d * pow2(e),
                step > 0,
        ;
    }
    lemma_pattern_units(e, s);
    assert(s * pow2(e) * d == s * step) by (nonlinear_arith)
        requires
            step == d * pow2(e),
    ;
}

/// The pattern of a nearest double is at most that of the end of the
/// value's binade.
pub proof fn lemma_round_is_at_most_the_end(n: nat, d: nat)
    requires
        d > 0,
    ensures
        nearest_pattern(n, d) <= binade(n, d) * FRACTION_MODULUS + SIGNIFICAND_END,
{
    let e = binade(n, d);
    let step = d * pow2(e);
    lemma_pow2_pos(e);
    assert(step > 0) by (nonlinear_arith)
        requires
            step == d * pow2(e),
            d > 0,
            pow2(e) > 0,
    ;
    lemma_binade_bounds(n, d);
    lemma_fundamental_div_mod(n as int, step as int);
    assert(n / step < SIGNIFICAND_END) by (nonlinear_arith)
        requires
            n == step * (n / step) + n % step,
            n % step >= 0,
            n < SIGNIFICAND_END * d * pow2(e),
            step == d * pow2(e),
            step > 0,
    ;
}

/// The magnitude of a nearest double is that of a number or of infinity.
pub proof fn lemma_dyadic_is_bounded(m: nat, t: int)
    ensures
        nearest_dyadic_spec(m, t) <= INFINITY_BITS,
{
}

/// How a value strictly between `q` and `q + 1` rounds when a step is `2 * h`
/// long: down to the multiple of the step below `q`, or up from there when
/// `q` has passed the middle of the step.
pub open spec fn round_between(q: nat, h: nat) -> nat {
    if q % (2 * h) >= h {
        q / (2 * h) + 1
    } else {
        q / (2 * h)
    }
}

/// Every fraction strictly between `q` and `q + 1` rounds alike where the
/// step has an even length: no multiple of the step and no middle of a step
/// lies between two neighbouring whole numbers.
pub proof fn lemma_round_between(n: nat, d: nat, q: nat, h: nat)
    requires
        d > 0,
        h > 0,
        q * d < n < (q + 1) * d,
    ensures
        round_half_even(n, d * (2 * h)) == round_between(q, h),
{
    let step = 2 * h;
    let whole = q / step;
    let part = q % step;
    let over = (n - q * d) as nat;
    lemma_fundamental_div_mod(q as int, step as int);
    assert(0 < over < d) by (nonlinear_arith)
        requires
            over == n - q * d,
            q * d < n < (q + 1) * d,
    ;
    let rest = part * d + over;
    assert(n == whole * (d * step) + rest) by (nonlinear_arith)
        requires
            q == step * whole + part,
            rest == part * d + over,
            over == n - q * d,
    ;
    assert(0 <= rest < d * step) by (nonlinear_arith)
        requires
            rest == part * d + over,
            0 <= part < step,
            0 < over < d,
    ;
    lemma_fundamental_div_mod_converse(n as int, (d * step) as int, whole as int, rest as int);
    assert(d * (2 * h) == d * step);
    if part >= h {
        assert(2 * rest > d * step) by (nonlinear_arith)
            requires
                rest == part * d + over,
                part >= h,
                over > 0,
                step == 2 * h,
        ;
    } else {
        assert(2 * rest < d * step) by (nonlinear_arith)
            requires
                rest == part * d + over,
                part + 1 <= h,
                over < d,
                step == 2 * h,
        ;
    }
}

/// A value strictly between two neighbouring numbers of at least 55 bits
/// rounds like their middle: where `n / d` lies between `q * 2^t` and
/// `(q + 1) * 2^t`, the double nearest to it is the double nearest to
/// `(2 * q + 1) * 2^(t - 1)`.
pub proof fn lemma_sticky(n: nat, d: nat, q: nat, l: nat, t: int)
    requires
        d > 0,
        l >= 55,
        pow2((l - 1) as nat) <= q < pow2(l),
        t >= 0 ==> q * pow2(t as nat) * d < n < (q + 1) * pow2(t as nat) * d,
        t < 0 ==> q * d < n * pow2((-t) as nat) < (q + 1) * d,
    ensures
        nearest_pattern(n, d) == nearest_dyadic_spec(2 * q + 1, t - 1),
{
    let e: nat = if l - 53 + t > 0 {
        (l - 53 + t) as nat
    } else {
        0
    };
    let up: nat = if t >= 0 {
        t as nat
    } else {
        0
    };
    let down: nat = if t >= 0 {
        0
    } else {
        (-t) as nat
    };
    let h = pow2((e - 1 - t) as nat);
    let wide_n = n * pow2(down);
    let wide_d = d * pow2(up);
    lemma2_to64();
    lemma_pow2_pos(up);
    lemma_pow2_pos(down);
    lemma_pow2_pos(e);
    lemma_pow2_pos((e - 1 - t) as nat);
    assert(wide_d > 0) by (nonlinear_arith)
        requires
            wide_d == d * pow2(up),
            d > 0,
            pow2(up) > 0,
    ;
    assert(q * wide_d < wide_n < (q + 1) * wide_d) by {
        if t >= 0 {
            assert(n * 1 == n) by (nonlinear_arith);
            assert(q * pow2(up) * d == q * (d * pow2(up))) by (nonlinear_arith);
            assert((q + 1) * pow2(up) * d == (q + 1) * (d * pow2(up))) by (nonlinear_arith);
        } else {
            assert(d * 1 == d) by (nonlinear_arith);
        }
    }
    // Both values round to the same number of steps.
    lemma_round_between(wide_n, wide_d, q, h);
    lemma_pow2_unfold((e - t) as nat);
    lemma_pow2_adds(up, (e - t) as nat);
    lemma_pow2_adds(down, e);
    assert(wide_d * (2 * h) == pow2(down) * (d * pow2(e))) by (nonlinear_arith)
        requires
            wide_d == d * pow2(up),
            pow2((e - t) as nat) == 2 * h,
            pow2(up) * pow2((e - t) as nat) == pow2(down) * pow2(e),
    ;
    assert(d * pow2(e) > 0) by (nonlinear_arith)
        requires
            d > 0,
            pow2(e) > 0,
    ;
    lemma_round_of_expanded(n, d * pow2(e), pow2(down));
    assert(pow2(down) * n == wide_n) by (nonlinear_arith)
        requires
            wide_n == n * pow2(down),
    ;
    assert(round_half_even(n, d * pow2(e)) == round_between(q, h));
    lemma_round_between(2 * q + 1, 2, q, h);
    lemma_middle_rounds_between(q, t, e, h);
    // Both values lie in the binade `e`.
    lemma_pow2_unfold((l + 1) as nat);
    lemma_pow2_unfold(l);
    lemma_bounds_give_binade(2 * q + 1, t - 1, l + 1, e);
    lemma_between_gives_binade(n, d, q, l, t, e);
}

/// The middle between `q * 2^t` and `(q + 1) * 2^t`, in steps of `2^e`, is
/// the fraction `(2 * q + 1) / (4 * h)` where `2 * h` is `2^(e - t)`.
proof fn lemma_middle_rounds_between(q: nat, t: int, e: nat, h: nat)
    requires
        e - 1 - t >= 0,
        h == pow2((e - 1 - t) as nat),
    ensures
        t - 1 >= 0 ==> round_half_even((2 * q + 1) * pow2((t - 1) as nat), 1 * pow2(e))
            == round_half_even(2 * q + 1, 2 * (2 * h)),
        t - 1 < 0 ==> round_half_even(2 * q + 1, pow2((1 - t) as nat) * pow2(e))
            == round_half_even(2 * q + 1, 2 * (2 * h)),
{
    lemma_pow2_pos((e - 1 - t) as nat);
    lemma_pow2_unfold((e - t) as nat);
    lemma_pow2_unfold((e + 1 - t) as nat);
    if t - 1 >= 0 {
        let c = pow2((t - 1) as nat);
        lemma_pow2_pos((t - 1) as nat);
        lemma_pow2_adds((t - 1) as nat, (e + 1 - t) as nat);
        lemma_round_of_expanded(2 * q + 1, 2 * (2 * h), c);
        assert(c * (2 * q + 1) == (2 * q + 1) * c) by (nonlinear_arith);
        assert(c * (2 * (2 * h)) == 1 * pow2(e)) by (nonlinear_arith)
            requires
                pow2(e) == c * pow2((e + 1 - t) as nat),
                pow2((e + 1 - t) as nat) == 2 * (2 * h),
        ;
    } else {
        lemma_pow2_adds((1 - t) as nat, e);
    }
}

/// A value between `q * 2^t` and `(q + 1) * 2^t`, where `q` has `l` bits,
/// lies in the binade `max(0, l - 53 + t)`.
proof fn lemma_between_gives_binade(n: nat, d: nat, q: nat, l: nat, t: int, e: nat)
    requires
        d > 0,
        l >= 1,
        pow2((l - 1) as nat) <= q < pow2(l),
        t >= 0 ==> q * pow2(t as nat) * d < n < (q + 1) * pow2(t as nat) * d,
        t < 0 ==> q * d < n * pow2((-t) as nat) < (q + 1) * d,
        e == (if l - 53 + t > 0 {
            l - 53 + t
        } else {
            0
        }),
    ensures
        binade(n, d) == e,
{
    let up: nat = if t >= 0 {
        t as nat
    } else {
        0
    };
    let down: nat = if t >= 0 {
        0
    } else {
        (-t) as nat
    };
    lemma2_to64();
    lemma2_to64_rest();
    lemma_pow2_pos(up);
    lemma_pow2_pos(down);
    lemma_pow2_pos(e);
    let wide_n = n * pow2(down);
    assert(q * pow2(up) * d < wide_n < (q + 1) * pow2(up) * d) by {
        if t >= 0 {
            assert(n * 1 == n) by (nonlinear_arith);
        } else {
            assert(q * 1 * d == q * d) by (nonlinear_arith);
            assert((q + 1) * 1 * d == (q + 1) * d) by (nonlinear_arith);
        }
    }
    // Below the end of the binade.
    lemma_pow2_adds(l, up);
    lemma_pow2_adds(53, e);
    lemma_pow2_adds(53 + e, down);
    if l + up < 53 + e + down {
        lemma_pow2_strictly_increases(l + up, 53 + e + down);
    }
    assert(n < SIGNIFICAND_END * d * pow2(e)) by (nonlinear_arith)
        requires
            wide_n == n * pow2(down),
            wide_n < (q + 1) * pow2(up) * d,
            q + 1 <= pow2(l),
            pow2(l) * pow2(up) <= SIGNIFICAND_END * pow2(e) * pow2(down),
            pow2(down) > 0,
            d > 0,
    ;
    if e > 0 {
        // Not below its start.
        lemma_pow2_pos((e - 1) as nat);
        lemma_pow2_adds((l - 1) as nat, up);
        lemma_pow2_adds(53, (e - 1) as nat);
        lemma_pow2_adds((53 + e - 1) as nat, down);
        assert(n >= SIGNIFICAND_END * d * pow2((e - 1) as nat)) by (nonlinear_arith)
            requires
                wide_n == n * pow2(down),
                wide_n > q * pow2(up) * d,
                q >= pow2((l - 1) as nat),
                pow2((l - 1) as nat) * pow2(up) == SIGNIFICAND_END * pow2((e - 1) as nat) * pow2(
                    down,
                ),
                pow2(down) > 0,
                d > 0,
        ;
    }
    lemma_binade_is(n, d, e);
}

} // verus!
