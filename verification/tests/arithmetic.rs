use wireframe_cube::arithmetic::{from_integer, minus, negated, over, plus, times, to_integer};
use wireframe_cube::binary64::Binary64;

fn num(x: f64) -> Binary64 {
    Binary64::from_bits(x.to_bits())
}

fn val(x: Binary64) -> f64 {
    f64::from_bits(x.to_bits())
}

/// Equal bit for bit, or both no number.
fn same(got: Binary64, expected: f64) -> bool {
    if expected.is_nan() {
        val(got).is_nan()
    } else {
        got.to_bits() == expected.to_bits()
    }
}

fn next_pattern(state: &mut u64) -> u64 {
    *state = state
        .wrapping_mul(6364136223846793005)
        .wrapping_add(1442695040888963407);
    let mut z = *state;
    z ^= z >> 33;
    z = z.wrapping_mul(0xff51afd7ed558ccd);
    z ^= z >> 29;
    z
}

/// Patterns of every kind: any bits, small exponents, subnormals, numbers
/// near the overflow, and the special values.
fn sample(state: &mut u64) -> f64 {
    let a = next_pattern(state);
    let b = next_pattern(state);
    let sign = b & 0x8000_0000_0000_0000;
    let fraction = b & 0x000f_ffff_ffff_ffff;
    let bits = match a % 10 {
        0 | 1 | 2 => b,
        3 | 4 => sign | ((1023 - 3 + (a >> 8) % 7) << 52) | fraction,
        5 => sign | fraction,
        6 => sign | (((a >> 8) % 3) << 52) | fraction,
        7 => sign | ((2044 + (a >> 8) % 3) << 52) | fraction,
        8 => sign | (((a >> 8) % 2047) << 52),
        _ => {
            let special = [
                0.0,
                -0.0,
                1.0,
                -1.0,
                f64::INFINITY,
                f64::NEG_INFINITY,
                f64::NAN,
                f64::MAX,
                f64::MIN_POSITIVE,
                5e-324,
                3.0,
                0.5,
                0.1,
                1000.0,
            ];
            special[((a >> 8) % 14) as usize].to_bits() ^ sign
        }
    };
    f64::from_bits(bits)
}

fn check_all(x: f64, y: f64) {
    let (a, b) = (num(x), num(y));
    assert!(same(times(a, b), x * y), "{:e} * {:e}", x, y);
    assert!(same(plus(a, b), x + y), "{:e} + {:e}", x, y);
    assert!(same(minus(a, b), x - y), "{:e} - {:e}", x, y);
    assert!(same(over(a, b), x / y), "{:e} / {:e}", x, y);
}

#[test]
fn operations_agree_with_native_doubles() {
    let mut state = 3u64;
    for _ in 0..60000 {
        let x = sample(&mut state);
        let y = sample(&mut state);
        check_all(x, y);
    }
}

#[test]
fn operations_agree_on_nearby_exponents() {
    let mut state = 5u64;
    for _ in 0..20000 {
        let x = sample(&mut state);
        let pattern = next_pattern(&mut state);
        let field = (x.to_bits() >> 52) & 0x7ff;
        let shift = (pattern >> 56) % 141;
        let other = (field + shift).saturating_sub(70).min(2046);
        let y = f64::from_bits((pattern & 0x800f_ffff_ffff_ffff) | (other << 52));
        check_all(x, y);
        check_all(y, x);
    }
}

#[test]
fn operations_agree_on_special_values() {
    let special = [
        0.0,
        -0.0,
        1.0,
        -1.0,
        2.0,
        0.5,
        3.0,
        f64::INFINITY,
        f64::NEG_INFINITY,
        f64::NAN,
        f64::MAX,
        f64::MIN,
        f64::MIN_POSITIVE,
        -f64::MIN_POSITIVE,
        5e-324,
        -5e-324,
        f64::EPSILON,
        1.0 - f64::EPSILON / 2.0,
        1.0 + f64::EPSILON,
        4503599627370496.0,
        9007199254740992.0,
        9007199254740993.0,
        1e308,
        1e-308,
        0.1,
        1000.0,
    ];
    for x in special {
        for y in special {
            check_all(x, y);
        }
    }
}

#[test]
fn exact_sums_and_products() {
    assert_eq!(val(plus(num(1.5), num(2.25))), 3.75);
    assert_eq!(val(minus(num(1.5), num(2.25))), -0.75);
    assert_eq!(val(times(num(1.5), num(-4.0))), -6.0);
    assert_eq!(val(over(num(7.0), num(2.0))), 3.5);
    assert_eq!(val(over(num(1.0), num(3.0))), 0.3333333333333333);
    assert_eq!(val(plus(num(0.1), num(0.2))), 0.30000000000000004);
    assert_eq!(val(times(num(0.1), num(3.0))), 0.30000000000000004);
    assert_eq!(val(over(num(1000.0), num(999.9))), 1.000100010001);
}

#[test]
fn ties_go_to_the_even_significand() {
    // 2^53 + 1 lies between two doubles.
    assert_eq!(val(plus(num(9007199254740992.0), num(1.0))), 9007199254740992.0);
    assert_eq!(val(plus(num(9007199254740994.0), num(1.0))), 9007199254740996.0);
    assert_eq!(plus(num(9007199254740992.0), num(3.0)).to_bits(), 0x4340_0000_0000_0002);
    assert_eq!(plus(num(9007199254740992.0), num(5.0)).to_bits(), 0x4340_0000_0000_0002);
    // 3 and 5 times the smallest double, halved.
    assert_eq!(val(times(num(1.5e-323), num(0.5))), 1e-323);
    assert_eq!(val(times(num(2.5e-323), num(0.5))), 1e-323);
}

#[test]
fn zero_sums_keep_the_sign_rule() {
    assert_eq!(plus(num(0.0), num(-0.0)).to_bits(), 0);
    assert_eq!(plus(num(-0.0), num(-0.0)).to_bits(), (-0.0f64).to_bits());
    assert_eq!(plus(num(2.5), num(-2.5)).to_bits(), 0);
    assert_eq!(minus(num(-2.5), num(-2.5)).to_bits(), 0);
    assert_eq!(times(num(-2.5), num(0.0)).to_bits(), (-0.0f64).to_bits());
    assert_eq!(over(num(0.0), num(-2.5)).to_bits(), (-0.0f64).to_bits());
}

#[test]
fn results_that_are_no_number() {
    let nan = 0x7ff8_0000_0000_0000;
    assert_eq!(times(num(0.0), num(f64::INFINITY)).to_bits(), nan);
    assert_eq!(plus(num(f64::INFINITY), num(f64::NEG_INFINITY)).to_bits(), nan);
    assert_eq!(over(num(0.0), num(-0.0)).to_bits(), nan);
    assert_eq!(over(num(f64::INFINITY), num(f64::INFINITY)).to_bits(), nan);
    assert_eq!(plus(num(f64::NAN), num(1.0)).to_bits(), nan);
    assert_eq!(over(num(1.0), Binary64::from_bits(0xfff0_0000_0000_0001)).to_bits(), nan);
}

#[test]
fn overflow_and_underflow() {
    assert_eq!(val(times(num(1e200), num(1e200))), f64::INFINITY);
    assert_eq!(val(times(num(-1e200), num(1e200))), f64::NEG_INFINITY);
    assert_eq!(val(plus(num(f64::MAX), num(f64::MAX))), f64::INFINITY);
    assert_eq!(val(over(num(1.0), num(0.0))), f64::INFINITY);
    assert_eq!(val(over(num(-1.0), num(0.0))), f64::NEG_INFINITY);
    assert_eq!(val(times(num(1e-200), num(1e-200))), 0.0);
    assert_eq!(val(over(num(5e-324), num(2.0))), 0.0);
    assert_eq!(val(over(num(5e-324), num(1.5))), 5e-324);
    assert_eq!(val(times(num(f64::MIN_POSITIVE), num(0.5))), 1.1125369292536007e-308);
}

#[test]
fn negation_flips_the_sign_bit() {
    assert_eq!(val(negated(num(2.5))), -2.5);
    assert_eq!(negated(num(0.0)).to_bits(), (-0.0f64).to_bits());
    assert_eq!(negated(num(-0.0)).to_bits(), 0);
    assert_eq!(val(negated(num(f64::NEG_INFINITY))), f64::INFINITY);
    assert_eq!(negated(Binary64::from_bits(0x7ff8_0000_0000_0001)).to_bits(), 0xfff8_0000_0000_0001);
}

#[test]
fn far_smaller_numbers_vanish_in_a_sum() {
    let mut state = 17u64;
    for _ in 0..2000 {
        let pattern = next_pattern(&mut state);
        let big = f64::from_bits((pattern & 0x800f_ffff_ffff_ffff) | (1100 << 52));
        let small = f64::from_bits(next_pattern(&mut state) & 0x8fff_ffff_ffff_ffff);
        assert_eq!(plus(num(big), num(small)).to_bits(), big.to_bits());
        assert_eq!(plus(num(small), num(big)).to_bits(), big.to_bits());
        assert_eq!(big + small, big);
    }
    // Just below a power of two the sum rounds back up to it.
    let power = f64::from_bits(1100 << 52);
    assert_eq!(minus(num(power), num(1.0)).to_bits(), power.to_bits());
}

#[test]
fn integers_are_exact() {
    for n in [0, 1, 2, 3, 255, 256, 800, 500, -1, -500, i32::MAX, i32::MIN, 1 << 30] {
        assert_eq!(val(from_integer(n)), n as f64);
        assert_eq!(to_integer(from_integer(n)), n);
        assert_eq!(val(times(from_integer(n), num(8.0))), n as f64 * 8.0);
        assert_eq!(val(over(from_integer(n), num(8.0))), n as f64 / 8.0);
    }
}

#[test]
fn quotients_of_integers() {
    let ratio = |a: i32, b: i32| val(over(from_integer(a), from_integer(b)));
    assert_eq!(ratio(1, 3), 1.0 / 3.0);
    assert_eq!(ratio(-2, 3), -2.0 / 3.0);
    assert_eq!(ratio(500, 800), 0.625);
    assert_eq!(ratio(1, 10), 0.1);
    assert_eq!(ratio(16, 10), 1.6);
    assert_eq!(ratio(0, 10), 0.0);
    assert_eq!(ratio(i32::MAX, i32::MIN), i32::MAX as f64 / i32::MIN as f64);
}

#[test]
fn quotients_among_the_smallest_doubles() {
    let tiny = 5e-324;
    assert_eq!(val(over(num(tiny), num(3.0))), 0.0);
    assert_eq!(val(over(num(2.0 * tiny), num(3.0))), tiny);
    assert_eq!(val(over(num(3.0 * tiny), num(2.0))), 2.0 * tiny);
    assert_eq!(val(over(num(5.0 * tiny), num(2.0))), 2.0 * tiny);
    assert_eq!(val(over(num(tiny), num(tiny))), 1.0);
    assert_eq!(val(over(num(f64::MAX), num(tiny))), f64::INFINITY);
    assert_eq!(val(over(num(tiny), num(f64::MAX))), 0.0);
}

#[test]
fn one_and_zero_change_nothing() {
    let mut state = 41u64;
    for _ in 0..3000 {
        let x = sample(&mut state);
        if !x.is_finite() {
            continue;
        }
        assert_eq!(times(num(x), num(1.0)).to_bits(), x.to_bits());
        assert_eq!(times(num(1.0), num(x)).to_bits(), x.to_bits());
        assert_eq!(over(num(x), num(1.0)).to_bits(), x.to_bits());
        assert_eq!(times(num(-1.0), num(x)).to_bits(), (-x).to_bits());
        assert_eq!(val(times(num(x), num(0.0))), 0.0);
        assert_eq!(val(plus(num(x), num(0.0))), x);
        assert_eq!(val(plus(num(-0.0), num(x))), x);
        if x != 0.0 {
            assert_eq!(plus(num(x), num(-0.0)).to_bits(), x.to_bits());
        }
    }
}

#[test]
fn a_factor_in_the_unit_range_does_not_enlarge() {
    let mut state = 43u64;
    for _ in 0..3000 {
        let y = sample(&mut state);
        let pattern = next_pattern(&mut state);
        let x = f64::from_bits((pattern & 0x800f_ffff_ffff_ffff) | ((pattern >> 52) % 1023) << 52);
        if !y.is_finite() {
            continue;
        }
        assert!(x.abs() < 1.0);
        let product = val(times(num(x), num(y)));
        assert!(product.abs() <= y.abs());
        assert_eq!(val(times(num(-x), num(y))), -product);
    }
}
