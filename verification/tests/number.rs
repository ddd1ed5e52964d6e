use tracer::number::nearest::{bit_length, nearest_dyadic, power_of_two};
use tracer::number::root::whole_root_of;
use tracer::number::scalar::Scalar;
use tracer::number::value::split;

#[test]
fn nearest_dyadic_rounds_to_the_nearest_double() {
    // Whole counts of units are their own patterns up to two to the 53rd.
    assert_eq!(nearest_dyadic(1, 0), 1);
    assert_eq!(nearest_dyadic(0x000F_FFFF_FFFF_FFFF, 0), 0x000F_FFFF_FFFF_FFFF);
    assert_eq!(nearest_dyadic(0x0010_0000_0000_0000, 0), f64::MIN_POSITIVE.to_bits());
    assert_eq!(nearest_dyadic(0x001F_FFFF_FFFF_FFFF, 0), 0x001F_FFFF_FFFF_FFFF);
    // Halves of a unit: ties go to the even count.
    assert_eq!(nearest_dyadic(1, -1), 0);
    assert_eq!(nearest_dyadic(3, -1), 2);
    assert_eq!(nearest_dyadic(5, -1), 2);
    assert_eq!(nearest_dyadic(7, -1), 4);
    assert_eq!(nearest_dyadic(5, -2), 1);
    assert_eq!(nearest_dyadic(7, -2), 2);
    assert_eq!(nearest_dyadic(1, -2000), 0);
    // One, one and a half, and the numbers around two to the 53rd.
    assert_eq!(nearest_dyadic(1, 1074), 1.0f64.to_bits());
    assert_eq!(nearest_dyadic(3, 1073), 1.5f64.to_bits());
    assert_eq!(nearest_dyadic((1 << 53) + 1, 1074), 9007199254740992.0f64.to_bits());
    assert_eq!(nearest_dyadic((1 << 53) + 3, 1074), 9007199254740996.0f64.to_bits());
    assert_eq!(nearest_dyadic((1 << 54) - 1, 1074), 18014398509481984.0f64.to_bits());
    // The largest double, and what lies beyond it.
    assert_eq!(nearest_dyadic((1 << 53) - 1, 2045), f64::MAX.to_bits());
    assert_eq!(nearest_dyadic((1 << 54) - 1, 2044), f64::INFINITY.to_bits());
    assert_eq!(nearest_dyadic((1 << 54) - 3, 2044), 0x7FEF_FFFF_FFFF_FFFE);
    assert_eq!(nearest_dyadic((1 << 55) - 3, 2043), f64::MAX.to_bits());
    assert_eq!(nearest_dyadic(1, 2098), f64::INFINITY.to_bits());
    assert_eq!(nearest_dyadic(1, 4000), f64::INFINITY.to_bits());
}

#[test]
fn nearest_dyadic_agrees_with_hardware_scaling() {
    let mut state: u64 = 0x00C0_FFEE_00C0_FFEE;
    let mut next = move || {
        state = state.wrapping_mul(6364136223846793005).wrapping_add(1442695040888963407);
        state >> 11
    };
    for _ in 0..100_000 {
        let m = next();
        if m == 0 {
            continue;
        }
        let t = (next() % 2200) as i64 - 60;
        // m has at most 53 bits, so the only rounding is the last scaling.
        let anchored = m as f64 * 2.0f64.powi(-1000);
        let scale = |v: f64, by: i64| {
            if by > 1000 {
                v * 2.0f64.powi(1000) * 2.0f64.powi((by - 1000) as i32)
            } else {
                v * 2.0f64.powi(by as i32)
            }
        };
        let want = scale(anchored, t - 74);
        assert_eq!(nearest_dyadic(m as u128, t), want.to_bits(), "{} * 2^{}", m, t);
    }
}

#[test]
fn bit_length_counts_the_bits() {
    assert_eq!(bit_length(1), 1);
    assert_eq!(bit_length(2), 2);
    assert_eq!(bit_length(3), 2);
    assert_eq!(bit_length(255), 8);
    assert_eq!(bit_length(256), 9);
    assert_eq!(bit_length((1 << 110) - 1), 110);
    for k in 0..110u32 {
        assert_eq!(bit_length(1u128 << k), u64::from(k) + 1);
        assert_eq!(bit_length((1u128 << k) | (1u128 << k) >> 1), u64::from(k) + 1);
        assert_eq!(bit_length(((1u128 << k) << 1) - 1), u64::from(k) + 1);
    }
}

#[test]
fn power_of_two_is_the_power() {
    assert_eq!(power_of_two(0), 1);
    assert_eq!(power_of_two(1), 2);
    assert_eq!(power_of_two(10), 1024);
    for k in 0..=110u32 {
        assert_eq!(power_of_two(u64::from(k)), 1u128 << k);
    }
}

#[test]
fn whole_root_is_the_largest_number_whose_square_fits() {
    assert_eq!(whole_root_of(0), 0);
    assert_eq!(whole_root_of(1), 1);
    assert_eq!(whole_root_of(2), 1);
    assert_eq!(whole_root_of(3), 1);
    assert_eq!(whole_root_of(4), 2);
    assert_eq!(whole_root_of(99), 9);
    assert_eq!(whole_root_of(100), 10);
    assert_eq!(whole_root_of((1 << 110) - 1), (1 << 55) - 1);
    let mut state: u64 = 0x0F0F_1234_5678_9ABC;
    for _ in 0..20_000 {
        state = state.wrapping_mul(6364136223846793005).wrapping_add(1442695040888963407);
        let q = u128::from(state >> 9);
        let extra = u128::from(state & 0x1FF) % (2 * q + 1);
        assert_eq!(whole_root_of(q * q + extra), q);
        assert_eq!(whole_root_of(q * q), q);
        assert_eq!(whole_root_of(q * q + 2 * q), q);
    }
}

#[test]
fn split_gives_the_significand_and_the_exponent() {
    assert_eq!(split(0), (0, 1));
    assert_eq!(split(1), (1, 1));
    assert_eq!(split(0x000F_FFFF_FFFF_FFFF), (0x000F_FFFF_FFFF_FFFF, 1));
    assert_eq!(split(f64::MIN_POSITIVE.to_bits()), (1 << 52, 1));
    assert_eq!(split(1.0f64.to_bits()), (1 << 52, 1023));
    assert_eq!(split(1.5f64.to_bits()), (3 << 51, 1023));
    assert_eq!(split(f64::MAX.to_bits()), ((1 << 53) - 1, 2046));
}

#[test]
fn with_sign_sets_the_sign_bit() {
    assert_eq!(Scalar::with_sign(0, false).to_bits(), 0);
    assert_eq!(Scalar::with_sign(0, true).to_bits(), (-0.0f64).to_bits());
    assert_eq!(Scalar::with_sign(1.5f64.to_bits(), true).to_bits(), (-1.5f64).to_bits());
    assert_eq!(Scalar::with_sign(f64::INFINITY.to_bits(), false).to_bits(), f64::INFINITY.to_bits());
}

#[test]
fn operations_without_a_result_give_the_quiet_nan() {
    let nan = 0x7FF8_0000_0000_0000u64;
    let inf = Scalar::from_bits(f64::INFINITY.to_bits());
    let zero = Scalar::zero();
    assert_eq!(inf.sub(inf).to_bits(), nan);
    assert_eq!(inf.mul(zero).to_bits(), nan);
    assert_eq!(zero.div(zero).to_bits(), nan);
    assert_eq!(inf.div(inf).to_bits(), nan);
    assert_eq!(Scalar::one().neg().sqrt().to_bits(), nan);
    assert_eq!(Scalar::from_bits(0xFFF0_0000_0000_0001).add(Scalar::one()).to_bits(), nan);
}

#[test]
fn whole_numbers_are_exact() {
    let n = |v: f64| Scalar::from_bits(v.to_bits());
    assert_eq!(n(1.0).add(n(2.0)).to_bits(), 3.0f64.to_bits());
    assert_eq!(n(9007199254740991.0).add(n(-9007199254740990.0)).to_bits(), 1.0f64.to_bits());
    assert_eq!(n(94906265.0).mul(n(94906265.0)).to_bits(), 9007199136250225.0f64.to_bits());
    assert_eq!(n(9007199136250225.0).sqrt().to_bits(), 94906265.0f64.to_bits());
    assert_eq!(n(9007199136250225.0).div(n(94906265.0)).to_bits(), 94906265.0f64.to_bits());
    assert_eq!(n(-12.0).div(n(4.0)).to_bits(), (-3.0f64).to_bits());
    assert_eq!(n(0.0).div(n(-4.0)).to_bits(), (-0.0f64).to_bits());
    assert_eq!(n(5.0).sub(n(5.0)).to_bits(), 0);
    assert_eq!(n(-5.0).add(n(5.0)).to_bits(), 0);
    assert_eq!(n(-0.0).add(n(-0.0)).to_bits(), (-0.0f64).to_bits());
}
