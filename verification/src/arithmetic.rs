//! The arithmetic of doubles on their bit patterns: each operation gives
//! the double nearest to the exact result.
//!
//! Where the result is no number, it is the quiet NaN with no other bit
//! set. Which NaN a machine's own arithmetic gives there is not fixed.

use vstd::prelude::*;
use vstd::arithmetic::power2::*;
use vstd::arithmetic::div_mod::*;
use vstd::arithmetic::mul::*;
use crate::arithmetic_laws::lemma_sum_with_far_smaller;
use crate::binary64::{Binary64, EXPONENT_MAX, ONE_BITS, SIGN_BIT};
use crate::rounding::{encode, power_of_two, round_dyadic, round_ratio, round_to_double};

verus! {

/// The bit pattern of the NaN that operations return.
pub const NAN_BITS: u64 = 0x7ff8_0000_0000_0000;

/// The bit pattern of the positive infinity.
pub const INFINITY_BITS: u64 = 0x7ff0_0000_0000_0000;

/// The bit pattern of -1.
pub const MINUS_ONE_BITS: u64 = 0xbff0_0000_0000_0000;

/// The NaN that operations return.
pub open spec fn nan() -> Binary64 {
    Binary64 { bits: NAN_BITS }
}

/// The infinity of the given sign.
pub open spec fn infinity(negative: bool) -> Binary64 {
    encode(negative, EXPONENT_MAX as nat, 0)
}

/// The zero of the given sign.
pub open spec fn zero(negative: bool) -> Binary64 {
    encode(negative, 0, 0)
}

/// The number one.
pub open spec fn one() -> Binary64 {
    Binary64 { bits: ONE_BITS }
}

/// The number -1.
pub open spec fn minus_one() -> Binary64 {
    Binary64 { bits: MINUS_ONE_BITS }
}

/// Whether two doubles are the same number: the same bits, or both a zero.
pub open spec fn same_number(x: Binary64, y: Binary64) -> bool {
    x == y || (x.is_zero() && y.is_zero())
}

/// The number with the other sign.
pub open spec fn negation(x: Binary64) -> Binary64 {
    Binary64 {
        bits: if x.bits >= SIGN_BIT {
            (x.bits - SIGN_BIT) as u64
        } else {
            (x.bits + SIGN_BIT) as u64
        },
    }
}

/// The double nearest to `x · y`.
#[verifier::opaque]
pub open spec fn product(x: Binary64, y: Binary64) -> Binary64 {
    let negative = x.is_negative() != y.is_negative();
    if x.is_nan() || y.is_nan() {
        nan()
    } else if x.is_infinite() || y.is_infinite() {
        if x.is_zero() || y.is_zero() {
            nan()
        } else {
            infinity(negative)
        }
    } else {
        round_to_double(
            negative,
            x.significand() * y.significand(),
            1,
            x.exponent() + y.exponent(),
        )
    }
}

/// The double nearest to `x / y`.
pub open spec fn quotient(x: Binary64, y: Binary64) -> Binary64 {
    let negative = x.is_negative() != y.is_negative();
    if x.is_nan() || y.is_nan() {
        nan()
    } else if x.is_infinite() {
        if y.is_infinite() {
            nan()
        } else {
            infinity(negative)
        }
    } else if y.is_infinite() {
        zero(negative)
    } else if y.is_zero() {
        if x.is_zero() {
            nan()
        } else {
            infinity(negative)
        }
    } else {
        round_to_double(negative, x.significand(), y.significand(), x.exponent() - y.exponent())
    }
}

/// A finite number as an integer multiple of `2^e`, where `e` is at most
/// its exponent.
pub open spec fn in_units(x: Binary64, e: int) -> int {
    let magnitude = x.significand() * pow2((x.exponent() - e) as nat);
    if x.is_negative() {
        -magnitude
    } else {
        magnitude as int
    }
}

/// The double nearest to `x + y`, for finite `x` and `y`. An exact sum of
/// zero is the positive zero, unless both numbers are negative zeros.
pub open spec fn finite_sum(x: Binary64, y: Binary64) -> Binary64 {
    let e = if x.exponent() <= y.exponent() {
        x.exponent()
    } else {
        y.exponent()
    };
    let s = in_units(x, e) + in_units(y, e);
    if s == 0 {
        zero(x.is_negative() && y.is_negative())
    } else if s < 0 {
        round_to_double(true, (-s) as nat, 1, e)
    } else {
        round_to_double(false, s as nat, 1, e)
    }
}

/// The double nearest to `x + y`.
pub open spec fn sum(x: Binary64, y: Binary64) -> Binary64 {
    if x.is_nan() || y.is_nan() {
        nan()
    } else if x.is_infinite() {
        if y.is_infinite() && x.is_negative() != y.is_negative() {
            nan()
        } else {
            x
        }
    } else if y.is_infinite() {
        y
    } else {
        finite_sum(x, y)
    }
}

/// The double nearest to `x - y`.
pub open spec fn difference(x: Binary64, y: Binary64) -> Binary64 {
    sum(x, negation(y))
}

/// The absolute value of an integer.
pub open spec fn absolute(n: int) -> nat {
    if n < 0 {
        (-n) as nat
    } else {
        n as nat
    }
}

/// The double nearest to the integer `n`: `n` itself, where it has at most
/// 53 bits.
#[verifier::opaque]
pub open spec fn of_integer(n: int) -> Binary64 {
    if n < 0 {
        round_to_double(true, (-n) as nat, 1, 0)
    } else {
        round_to_double(false, n as nat, 1, 0)
    }
}

/// What the conversion of a double to a 32-bit integer gives: the number
/// without what follows its binary point, the nearest 32-bit integer where
/// that lies outside their range, and zero for a NaN.
#[verifier::opaque]
pub open spec fn integer_part(x: Binary64) -> int {
    if x.is_nan() {
        0
    } else {
        let whole = if x.is_infinite() {
            0x8000_0000
        } else {
            (x.magnitude() / pow2(1074)) as int
        };
        if x.is_negative() {
            if whole > 0x8000_0000 {
                -0x8000_0000
            } else {
                -whole
            }
        } else {
            if whole > 0x7fff_ffff {
                0x7fff_ffff
            } else {
                whole
            }
        }
    }
}

/// Changes the sign.
pub fn negated(x: Binary64) -> (r: Binary64)
    ensures
        r == negation(x),
{
    if x.bits >= SIGN_BIT {
        Binary64 { bits: x.bits - SIGN_BIT }
    } else {
        Binary64 { bits: x.bits + SIGN_BIT }
    }
}

/// Multiplies two doubles.
pub fn times(x: Binary64, y: Binary64) -> (r: Binary64)
    ensures
        r == product(x, y),
{
    reveal(product);
    let negative = x.sign_bit() != y.sign_bit();
    let sign: u64 = if negative {
        SIGN_BIT
    } else {
        0
    };
    let x_field: u64 = x.exponent_field();
    let y_field: u64 = y.exponent_field();
    if (x_field == EXPONENT_MAX && x.fraction_field() != 0) || (y_field == EXPONENT_MAX
        && y.fraction_field() != 0) {
        return Binary64 { bits: NAN_BITS };
    }
    if x_field == EXPONENT_MAX || y_field == EXPONENT_MAX {
        if x.bits % SIGN_BIT == 0 || y.bits % SIGN_BIT == 0 {
            return Binary64 { bits: NAN_BITS };
        }
        return Binary64 { bits: sign + INFINITY_BITS };
    }
    let a: u64 = x.significand_of();
    let b: u64 = y.significand_of();
    assert(a * b < 0x400_0000_0000_0000_0000_0000_0000) by (nonlinear_arith)
        requires
            a < 0x20_0000_0000_0000,
            b < 0x20_0000_0000_0000,
    ;
    round_dyadic(negative, (a as u128) * (b as u128), x.exponent_of() + y.exponent_of())
}

/// Divides one double by another.
pub fn over(x: Binary64, y: Binary64) -> (r: Binary64)
    ensures
        r == quotient(x, y),
{
    let negative = x.sign_bit() != y.sign_bit();
    let sign: u64 = if negative {
        SIGN_BIT
    } else {
        0
    };
    let x_field: u64 = x.exponent_field();
    let y_field: u64 = y.exponent_field();
    if (x_field == EXPONENT_MAX && x.fraction_field() != 0) || (y_field == EXPONENT_MAX
        && y.fraction_field() != 0) {
        return Binary64 { bits: NAN_BITS };
    }
    if x_field == EXPONENT_MAX {
        if y_field == EXPONENT_MAX {
            return Binary64 { bits: NAN_BITS };
        }
        return Binary64 { bits: sign + INFINITY_BITS };
    }
    if y_field == EXPONENT_MAX {
        return Binary64 { bits: sign };
    }
    if y.bits % SIGN_BIT == 0 {
        if x.bits % SIGN_BIT == 0 {
            return Binary64 { bits: NAN_BITS };
        }
        return Binary64 { bits: sign + INFINITY_BITS };
    }
    round_ratio(negative, x.significand_of(), y.significand_of(), x.exponent_of() - y.exponent_of())
}

/// Adds two finite doubles of which the first has the larger exponent.
fn add_finite(x: Binary64, y: Binary64) -> (r: Binary64)
    requires
        x.is_finite(),
        y.is_finite(),
        x.exponent() >= y.exponent(),
    ensures
        r == finite_sum(x, y),
        r == finite_sum(y, x),
{
    let ex: i32 = x.exponent_of();
    let ey: i32 = y.exponent_of();
    if ex - ey > 64 {
        proof {
            lemma_sum_with_far_smaller(x, y);
        }
        return x;
    }
    let k: u32 = (ex - ey) as u32;
    let scale: u128 = power_of_two(k);
    let mx: u64 = x.significand_of();
    let my: u64 = y.significand_of();
    proof {
        lemma2_to64();
        if k < 64 {
            lemma_pow2_strictly_increases(k as nat, 64);
        }
        assert(mx * scale < 0x20_0000_0000_0000 * 0x1_0000_0000_0000_0000) by (nonlinear_arith)
            requires
                mx < 0x20_0000_0000_0000,
                0 < scale <= 0x1_0000_0000_0000_0000,
        ;
        assert(my as nat * pow2(0) == my) by (nonlinear_arith)
            requires
                pow2(0) == 1,
        ;
    }
    let big: u128 = mx as u128 * scale;
    let small: u128 = my as u128;
    proof {
        let e = ey as int;
        assert(x.significand() * pow2((x.exponent() - e) as nat) == big);
        assert(y.significand() * pow2((y.exponent() - e) as nat) == small);
        assert(in_units(x, e) == if x.is_negative() {
            -(big as int)
        } else {
            big as int
        });
        assert(in_units(y, e) == if y.is_negative() {
            -(small as int)
        } else {
            small as int
        });
        assert(zero(false).bits == 0);
        assert(big == 0 ==> mx == 0) by (nonlinear_arith)
            requires
                big == mx * scale,
                scale > 0,
        ;
        assert(big + small == 0 ==> x == zero(x.is_negative()));
    }
    if x.sign_bit() == y.sign_bit() {
        if big + small == 0 {
            Binary64 { bits: x.bits }
        } else {
            round_dyadic(x.sign_bit(), big + small, ey)
        }
    } else if big == small {
        Binary64 { bits: 0 }
    } else if big > small {
        round_dyadic(x.sign_bit(), big - small, ey)
    } else {
        round_dyadic(y.sign_bit(), small - big, ey)
    }
}

/// Adds two doubles.
pub fn plus(x: Binary64, y: Binary64) -> (r: Binary64)
    ensures
        r == sum(x, y),
{
    let x_field: u64 = x.exponent_field();
    let y_field: u64 = y.exponent_field();
    if (x_field == EXPONENT_MAX && x.fraction_field() != 0) || (y_field == EXPONENT_MAX
        && y.fraction_field() != 0) {
        return Binary64 { bits: NAN_BITS };
    }
    if x_field == EXPONENT_MAX {
        if y_field == EXPONENT_MAX && x.sign_bit() != y.sign_bit() {
            return Binary64 { bits: NAN_BITS };
        }
        return x;
    }
    if y_field == EXPONENT_MAX {
        return y;
    }
    if x.exponent_of() >= y.exponent_of() {
        add_finite(x, y)
    } else {
        add_finite(y, x)
    }
}

/// Subtracts one double from another.
pub fn minus(x: Binary64, y: Binary64) -> (r: Binary64)
    ensures
        r == difference(x, y),
{
    plus(x, negated(y))
}

/// The double of an integer.
pub fn from_integer(n: i32) -> (r: Binary64)
    ensures
        r == of_integer(n as int),
{
    reveal(of_integer);
    if n < 0 {
        round_dyadic(true, (-(n as i64)) as u128, 0)
    } else {
        round_dyadic(false, n as u128, 0)
    }
}

/// Converts a double to a 32-bit integer: toward zero, to the nearest
/// bound where the number lies outside the range, and a NaN to zero.
pub fn to_integer(x: Binary64) -> (r: i32)
    ensures
        r == integer_part(x),
{
    reveal(integer_part);
    let field: u64 = x.exponent_field();
    let negative = x.sign_bit();
    if field == EXPONENT_MAX && x.fraction_field() != 0 {
        return 0;
    }
    // What stands before the binary point, or a number past every 32-bit
    // integer where that is so large.
    let whole: u64 = if field == EXPONENT_MAX {
        0x8000_0000
    } else {
        let m: u64 = x.significand_of();
        let e: i32 = x.exponent_of();
        proof {
            lemma2_to64();
            lemma2_to64_rest();
            lemma_pow2_pos((e + 1074) as nat);
        }
        if e >= 0 {
            proof {
                // A double without binary places is at least 2^52.
                lemma_pow2_adds(e as nat, 1074);
                lemma_pow2_pos(e as nat);
                lemma_pow2_pos(1074);
                let low = pow2(52) * pow2(1074);
                assert(x.magnitude() >= low) by (nonlinear_arith)
                    requires
                        x.magnitude() == m * (pow2(e as nat) * pow2(1074)),
                        m >= pow2(52),
                        pow2(e as nat) >= 1,
                        pow2(1074) > 0,
                        low == pow2(52) * pow2(1074),
                ;
                lemma_div_by_multiple(pow2(52) as int, pow2(1074) as int);
                lemma_div_is_ordered(low as int, x.magnitude() as int, pow2(1074) as int);
            }
            0x8000_0001
        } else {
            let k: u32 = (-e) as u32;
            proof {
                lemma_pow2_pos(k as nat);
                lemma_pow2_adds((1074 - k) as nat, k as nat);
                lemma_div_multiples_vanish_quotient(
                    pow2((1074 - k) as nat) as int,
                    m as int,
                    pow2(k as nat) as int,
                );
                lemma_mul_is_commutative(pow2((1074 - k) as nat) as int, m as int);
                assert(x.magnitude() / pow2(1074) == m as nat / pow2(k as nat));
            }
            if k >= 64 {
                proof {
                    lemma_pow2_strictly_increases(53, k as nat);
                    lemma_basic_div(m as int, pow2(k as nat) as int);
                }
                0
            } else {
                m / (power_of_two(k) as u64)
            }
        }
    };
    if negative {
        if whole > 0x8000_0000 {
            -0x8000_0000
        } else {
            (-(whole as i64)) as i32
        }
    } else {
        if whole > 0x7fff_ffff {
            0x7fff_ffff
        } else {
            whole as i32
        }
    }
}

} // verus!
