//! What holds of the arithmetic: the products, quotients and sums that are
//! exact, and the bounds that rounding keeps.

use vstd::prelude::*;
use vstd::arithmetic::power2::*;
use vstd::arithmetic::div_mod::*;
use crate::arithmetic::{
    absolute, finite_sum, in_units, integer_part, minus_one, negation, of_integer, one, product,
    quotient, same_number, sum, zero,
};
use crate::binary64::{lemma_unit_range_bits, Binary64};
use crate::rounding::{quantum, ratio_log2, round_to_double, rounded_significand};
use crate::rounding_laws::{
    lemma_doublings_below_unique, lemma_nearest_even_near, lemma_pack_magnitude,
    lemma_pack_of_fields, lemma_ratio_log2_bounds, lemma_round_bounded, lemma_round_exact,
    lemma_rounded_range,
};

verus! {

/// The number with the other sign has the same fields but the sign.
pub proof fn lemma_negation_fields(x: Binary64)
    ensures
        negation(x).is_negative() != x.is_negative(),
        negation(x).magnitude_bits() == x.magnitude_bits(),
        negation(negation(x)) == x,
{
}

/// One times a finite number is that number.
pub proof fn lemma_product_with_one(x: Binary64)
    requires
        x.is_finite(),
    ensures
        product(x, one()) == x,
        product(one(), x) == x,
{
    reveal(product);
    lemma2_to64();
    lemma2_to64_rest();
    let n = x.significand() * one().significand();
    assert(one().significand() == pow2(52) && one().exponent() == -52);
    assert(n * pow2(0) == (x.significand() * 1) * pow2(52)) by (nonlinear_arith)
        requires
            n == x.significand() * pow2(52),
            pow2(0) == 1,
    ;
    assert(one().significand() * x.significand() == n) by (nonlinear_arith)
        requires
            n == x.significand() * one().significand(),
    ;
    lemma_round_exact(x, n, 1, x.exponent() - 52, 52, 0);
}

/// -1 times a finite number is the number with the other sign.
pub proof fn lemma_product_with_minus_one(x: Binary64)
    requires
        x.is_finite(),
    ensures
        product(minus_one(), x) == negation(x),
        product(x, minus_one()) == negation(x),
{
    reveal(product);
    lemma2_to64();
    lemma2_to64_rest();
    lemma_negation_fields(x);
    let n = x.significand() * minus_one().significand();
    assert(minus_one().significand() == pow2(52) && minus_one().exponent() == -52);
    assert(n * pow2(0) == (x.significand() * 1) * pow2(52)) by (nonlinear_arith)
        requires
            n == x.significand() * pow2(52),
            pow2(0) == 1,
    ;
    assert(minus_one().significand() * x.significand() == n) by (nonlinear_arith)
        requires
            n == x.significand() * minus_one().significand(),
    ;
    lemma_round_exact(negation(x), n, 1, x.exponent() - 52, 52, 0);
}

/// A zero times a finite number is a zero.
pub proof fn lemma_product_with_zero(x: Binary64, z: Binary64)
    requires
        x.is_finite(),
        z.is_zero(),
    ensures
        product(x, z) == zero(x.is_negative() != z.is_negative()),
        product(z, x) == zero(x.is_negative() != z.is_negative()),
        product(x, z).is_zero(),
        product(z, x).is_zero(),
{
    reveal(product);
    assert(x.significand() * z.significand() == 0 && z.significand() * x.significand() == 0)
        by (nonlinear_arith)
        requires
            z.significand() == 0,
    ;
}

/// A number between -1 and 1 times a finite number is at most that number
/// in magnitude, and its sign is the product of the signs. The number with
/// the other sign gives the product with the other sign.
pub proof fn lemma_product_shrinks(x: Binary64, y: Binary64)
    requires
        x.in_unit_range(),
        y.is_finite(),
    ensures
        product(x, y).is_finite(),
        product(x, y).is_negative() == (x.is_negative() != y.is_negative()),
        product(x, y).magnitude() <= y.magnitude(),
        product(negation(x), y).is_finite(),
        product(negation(x), y).is_negative() != product(x, y).is_negative(),
        product(negation(x), y).magnitude() == product(x, y).magnitude(),
{
    reveal(product);
    lemma2_to64();
    lemma_unit_range_bits(x);
    lemma_negation_fields(x);
    let m = x.significand();
    let a = (-x.exponent()) as nat;
    let p = m * y.significand();
    let e = x.exponent() + y.exponent();
    let negative = x.is_negative() != y.is_negative();
    lemma_pow2_adds((1074 - a) as nat, a);
    lemma_pow2_pos((1074 - a) as nat);
    assert(m <= pow2(a)) by (nonlinear_arith)
        requires
            m * pow2((1074 - a) as nat) <= pow2((1074 - a) as nat) * pow2(a),
            pow2((1074 - a) as nat) > 0,
    ;
    assert(p * pow2(0) <= (y.significand() * 1) * pow2(a)) by (nonlinear_arith)
        requires
            p == m * y.significand(),
            m <= pow2(a),
            pow2(0) == 1,
    ;
    lemma_round_bounded(negative, p, 1, e, y, a, 0);
    lemma_round_bounded(!negative, p, 1, e, y, a, 0);
    assert(product(x, y) == round_to_double(negative, p, 1, e));
    assert(product(negation(x), y) == round_to_double(!negative, p, 1, e));
}

/// A finite number divided by one is that number.
pub proof fn lemma_quotient_by_one(x: Binary64)
    requires
        x.is_finite(),
    ensures
        quotient(x, one()) == x,
{
    lemma2_to64();
    lemma2_to64_rest();
    let m = x.significand();
    assert(one().significand() == pow2(52) && one().exponent() == -52);
    assert(m * pow2(52) == (m * pow2(52)) * pow2(0)) by (nonlinear_arith)
        requires
            pow2(0) == 1,
    ;
    lemma_round_exact(x, m, pow2(52), x.exponent() + 52, 0, 52);
}

/// A zero added to a finite number leaves the number; added to a zero it
/// leaves a zero.
pub proof fn lemma_sum_with_zero(x: Binary64, z: Binary64)
    requires
        x.is_finite(),
        z.is_zero(),
    ensures
        same_number(sum(x, z), x),
        same_number(sum(z, x), x),
        !x.is_zero() ==> sum(x, z) == x && sum(z, x) == x,
        sum(x, z).is_finite(),
        sum(z, x).is_finite(),
{
    lemma2_to64();
    let m = x.significand();
    let a = (x.exponent() + 1074) as nat;
    let n = m * pow2(a);
    assert(z.significand() * pow2(0) == 0) by (nonlinear_arith)
        requires
            z.significand() == 0,
    ;
    assert(in_units(z, -1074) == 0);
    lemma_pow2_pos(a);
    assert(n == 0 <==> m == 0) by (nonlinear_arith)
        requires
            n == m * pow2(a),
            pow2(a) > 0,
    ;
    assert(n * pow2(0) == (m * 1) * pow2(a)) by (nonlinear_arith)
        requires
            n == m * pow2(a),
            pow2(0) == 1,
    ;
    lemma_round_exact(x, n, 1, -1074, a, 0);
    assert(finite_sum(x, z) == if m == 0 {
        zero(x.is_negative() && z.is_negative())
    } else {
        x
    });
    assert(finite_sum(z, x) == finite_sum(x, z));
}

/// A number whose exponent lies more than 64 below that of another does
/// not change it: their sum is the larger number.
pub proof fn lemma_sum_with_far_smaller(x: Binary64, y: Binary64)
    requires
        x.is_finite(),
        y.is_finite(),
        x.exponent() - y.exponent() > 64,
    ensures
        finite_sum(x, y) == x,
        finite_sum(y, x) == x,
{
    let m1 = x.significand();
    let m2 = y.significand();
    let ex = x.exponent();
    let ey = y.exponent();
    let k = (ex - ey) as nat;
    let g = pow2(k);
    let t = m1 * g;
    lemma2_to64();
    lemma2_to64_rest();
    lemma_pow2_strictly_increases(64, k);
    assert(pow2(52) <= m1 < pow2(53));
    assert(m2 < pow2(53));
    assert(in_units(y, ey) == if y.is_negative() {
        -(m2 as int)
    } else {
        m2 as int
    }) by (nonlinear_arith)
        requires
            in_units(y, ey) == if y.is_negative() {
                -(m2 * pow2(0))
            } else {
                (m2 * pow2(0)) as int
            },
            pow2(0) == 1,
    ;
    let s = in_units(x, ey) + in_units(y, ey);
    let n: nat = if x.is_negative() == y.is_negative() {
        t + m2
    } else {
        (t - m2) as nat
    };
    lemma_pow2_adds(52, k);
    lemma_pow2_adds(53, k);
    lemma_pow2_adds(51, k);
    assert(pow2(52) * g <= t <= pow2(53) * g - g) by (nonlinear_arith)
        requires
            t == m1 * g,
            pow2(52) <= m1 <= pow2(53) - 1,
            g > 0,
    ;
    assert(pow2(52) * g == 2 * (pow2(51) * g) && pow2(51) * g >= pow2(53)) by (nonlinear_arith)
        requires
            pow2(52) == 2 * pow2(51),
            g >= 4,
            pow2(53) == 4 * pow2(51),
    ;
    assert(n == if s < 0 {
        -s
    } else {
        s
    });
    assert(s != 0 && (s < 0) == x.is_negative());
    assert(finite_sum(x, y) == round_to_double(x.is_negative(), n, 1, ey));
    assert(finite_sum(y, x) == round_to_double(x.is_negative(), n, 1, ey));
    if n >= pow2(52) * g {
        assert(1 * pow2(52 + k) <= n < 1 * pow2(52 + k + 1)) by (nonlinear_arith)
            requires
                pow2(52 + k) == pow2(52) * g,
                pow2(53 + k) == pow2(53) * g,
                pow2(52) * g <= n < pow2(53) * g,
        ;
        lemma_doublings_below_unique(n, 1, 52 + k);
        assert(quantum(ey + ratio_log2(n, 1)) == ex);
        assert(1 * g == g) by (nonlinear_arith);
        lemma_nearest_even_near(n, g, m1);
        lemma_pack_of_fields(x);
    } else {
        // Just below a power of two: the sum rounds up to it.
        assert(m1 == pow2(52)) by (nonlinear_arith)
            requires
                t == m1 * g,
                n < pow2(52) * g,
                n >= t - m2,
                m2 < g,
                m1 >= pow2(52),
        ;
        let h = pow2((k - 1) as nat);
        lemma_pow2_unfold(k);
        lemma_pow2_strictly_increases(63, (k - 1) as nat);
        assert(1 * pow2(51 + k) <= n < 1 * pow2(51 + k + 1)) by (nonlinear_arith)
            requires
                pow2(51 + k) == pow2(51) * g,
                pow2(52 + k) == pow2(52) * g,
                pow2(51) * g <= n < pow2(52) * g,
        ;
        lemma_doublings_below_unique(n, 1, 51 + k);
        assert(quantum(ey + ratio_log2(n, 1)) == ex - 1);
        assert(1 * h == h) by (nonlinear_arith);
        assert(pow2(53) * h == t) by (nonlinear_arith)
            requires
                t == pow2(52) * g,
                g == 2 * h,
                pow2(53) == 2 * pow2(52),
        ;
        lemma_nearest_even_near(n, h, pow2(53));
        lemma_pack_of_fields(x);
    }
}

/// A dyadic value of at most 53 bits is a double: `±n · 2^e` rounds to
/// itself.
pub proof fn lemma_dyadic_is_exact(negative: bool, n: nat, e: int)
    requires
        n < pow2(53),
        -1074 <= e <= 900,
    ensures
        round_to_double(negative, n, 1, e).is_finite(),
        round_to_double(negative, n, 1, e).is_negative() == negative,
        round_to_double(negative, n, 1, e).magnitude() == n * pow2((e + 1074) as nat),
{
    lemma2_to64();
    lemma2_to64_rest();
    if n == 0 {
        lemma_pack_magnitude(negative, 0, -1074);
        assert(0 * pow2(0) == 0 && 0 * pow2((e + 1074) as nat) == 0) by (nonlinear_arith);
    } else {
        let l = ratio_log2(n, 1);
        let q = quantum(e + l);
        let m = rounded_significand(n, 1, e);
        let (a0, b0) = lemma_ratio_log2_bounds(n, 1);
        if l >= 53 {
            if b0 > a0 + 53 {
                lemma_pow2_strictly_increases(a0 + 53, b0);
            }
            lemma_pow2_adds(53, a0);
            lemma_pow2_pos(a0);
            assert(false) by (nonlinear_arith)
                requires
                    1 * pow2(b0) <= n * pow2(a0),
                    pow2(b0) >= pow2(53) * pow2(a0),
                    pow2(a0) > 0,
                    n < pow2(53),
            ;
        }
        assert(q <= e);
        lemma_rounded_range(n, 1, e);
        let u = (e - q) as nat;
        assert(m == n * pow2(u));
        lemma_pack_magnitude(negative, m, q);
        lemma_pow2_adds(u, (q + 1074) as nat);
        assert(m * pow2((q + 1074) as nat) == n * pow2((e + 1074) as nat)) by (nonlinear_arith)
            requires
                m == n * pow2(u),
                pow2((e + 1074) as nat) == pow2(u) * pow2((q + 1074) as nat),
        ;
    }
}

/// The double of a 32-bit integer is that integer, and converts back to it.
pub proof fn lemma_integer_is_exact(n: int)
    requires
        -0x8000_0000 <= n <= 0x7fff_ffff,
    ensures
        of_integer(n).is_finite(),
        of_integer(n).is_negative() == (n < 0),
        of_integer(n).magnitude() == absolute(n) * pow2(1074),
        integer_part(of_integer(n)) == n,
{
    reveal(of_integer);
    reveal(integer_part);
    lemma2_to64();
    lemma2_to64_rest();
    lemma_dyadic_is_exact(n < 0, absolute(n), 0);
    lemma_pow2_pos(1074);
    lemma_div_by_multiple(absolute(n) as int, pow2(1074) as int);
}

/// The integer part of a finite number whose magnitude is at most `bound`
/// is at most `bound` in magnitude, and its sign is the number's.
pub proof fn lemma_integer_part_within(x: Binary64, bound: nat)
    requires
        x.is_finite(),
        x.magnitude() <= bound * pow2(1074),
        bound <= 0x7fff_ffff,
    ensures
        integer_part(x) == if x.is_negative() {
            -((x.magnitude() / pow2(1074)) as int)
        } else {
            (x.magnitude() / pow2(1074)) as int
        },
        -bound <= integer_part(x) <= bound,
        bound == 0 ==> integer_part(x) == 0,
{
    reveal(integer_part);
    lemma_pow2_pos(1074);
    lemma_div_is_ordered(x.magnitude() as int, (bound * pow2(1074)) as int, pow2(1074) as int);
    lemma_div_by_multiple(bound as int, pow2(1074) as int);
}

/// The integer part of a zero is zero.
pub proof fn lemma_integer_part_of_zero(z: Binary64)
    requires
        z.is_zero(),
    ensures
        integer_part(z) == 0,
{
    assert(z.magnitude() == 0 && 0 * pow2(1074) == 0) by (nonlinear_arith)
        requires
            z.magnitude() == z.significand() * pow2((z.exponent() + 1074) as nat),
            z.significand() == 0,
    ;
    lemma_integer_part_within(z, 0);
}

} // verus!
