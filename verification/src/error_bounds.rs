//! How far a rounded result lies from the exact one.
//!
//! A finite double is a whole number of units of 2^-1074. In these units
//! the sum of two doubles is a whole number, and their product is a whole
//! number of squared units; rounding moves a result by at most one part in
//! 2^53, or by half a unit.

use vstd::prelude::*;
use vstd::arithmetic::power2::*;
use crate::arithmetic::{
    absolute, in_units, negation, of_integer, one, product, quotient, same_number, sum,
};
use crate::arithmetic_laws::{lemma_integer_is_exact, lemma_negation_fields};
use crate::binary64::Binary64;
use crate::rounding::{distance, quantum, ratio_log2, round_to_double, rounded_significand};
use crate::rounding_laws::{
    lemma_nearest_even_is_nearest, lemma_pack_magnitude, lemma_ratio_log2_bounds,
    lemma_round_bounded, lemma_rounded_range,
};

verus! {

/// A finite double in units of 2^-1074, with its sign.
#[verifier::opaque]
pub open spec fn value(x: Binary64) -> int {
    if x.is_negative() {
        -(x.magnitude() as int)
    } else {
        x.magnitude() as int
    }
}

/// The number one in units of 2^-1074.
pub open spec fn unit() -> int {
    pow2(1074) as int
}

/// How far rounding moves a dyadic value. The value `n · 2^e` is counted
/// in units of `2^f`, where `f` is at most `e` and at most -1074, and so is
/// the rounded double. Where the value is at most 1024, the double is
/// finite, and it lies within one part in 2^53 of the value, or within
/// half of the smallest double.
pub proof fn lemma_dyadic_rounding_error(negative: bool, n: nat, e: int, f: int)
    requires
        f <= e,
        f <= -1074,
        n * pow2((e - f) as nat) <= 1024 * pow2((-f) as nat),
    ensures
        round_to_double(negative, n, 1, e).is_finite(),
        round_to_double(negative, n, 1, e).is_negative() == negative,
        ({
            let exact = n * pow2((e - f) as nat);
            let step = pow2((-1074 - f) as nat);
            let rounded = round_to_double(negative, n, 1, e).magnitude() * step;
            pow2(53) * distance(rounded, exact) <= exact || 2 * distance(rounded, exact) <= step
        }),
{
    lemma2_to64();
    lemma2_to64_rest();
    let exact = n * pow2((e - f) as nat);
    let step = pow2((-1074 - f) as nat);
    lemma_pow2_pos((e - f) as nat);
    lemma_pow2_pos((-1074 - f) as nat);
    if n == 0 {
        lemma_pack_magnitude(negative, 0, -1074);
        assert(0 * pow2(0) == 0 && 0 * step == 0 && 0 * pow2((e - f) as nat) == 0)
            by (nonlinear_arith);
    } else {
        let l = ratio_log2(n, 1);
        let q = quantum(e + l);
        let m = rounded_significand(n, 1, e);
        let (a0, b0) = lemma_ratio_log2_bounds(n, 1);
        lemma_rounded_range(n, 1, e);
        lemma_pow2_pos(a0);
        lemma_pow2_pos(b0);
        // The value is at most 1024, so its leading bit lies at most at place 10.
        assert(e + l <= 10) by {
            if e + l > 10 {
                // 2^b0 <= n * 2^a0 and n * 2^(e - f) <= 2^(10 - f)
                let big = (b0 + (e - f)) as nat;
                let small = (a0 + 10 - f) as nat;
                assert(big > small);
                lemma_pow2_strictly_increases(small, big);
                lemma_pow2_adds(b0, (e - f) as nat);
                lemma_pow2_adds(a0, (10 - f) as nat);
                lemma_pow2_adds(10, (-f) as nat);
                assert(false) by (nonlinear_arith)
                    requires
                        1 * pow2(b0) <= n * pow2(a0),
                        n * pow2((e - f) as nat) <= 1024 * pow2((-f) as nat),
                        pow2((10 - f) as nat) == 1024 * pow2((-f) as nat),
                        pow2(a0) * pow2((10 - f) as nat) < pow2(b0) * pow2((e - f) as nat),
                        pow2(a0) > 0,
                        pow2((e - f) as nat) > 0,
                ;
            }
        }
        lemma_pack_magnitude(negative, m, q);
        let r = round_to_double(negative, n, 1, e);
        let rounded = r.magnitude() * step;
        lemma_pow2_adds((q + 1074) as nat, (-1074 - f) as nat);
        lemma_pow2_pos((q - f) as nat);
        assert(rounded == m * pow2((q - f) as nat)) by (nonlinear_arith)
            requires
                rounded == (m * pow2((q + 1074) as nat)) * step,
                pow2((q - f) as nat) == pow2((q + 1074) as nat) * step,
        ;
        if e >= q {
            let u = (e - q) as nat;
            lemma_pow2_adds(u, (q - f) as nat);
            assert(m == n * pow2(u));
            assert(rounded == exact) by (nonlinear_arith)
                requires
                    rounded == m * pow2((q - f) as nat),
                    m == n * pow2(u),
                    exact == n * pow2((e - f) as nat),
                    pow2((e - f) as nat) == pow2(u) * pow2((q - f) as nat),
            ;
        } else {
            let v = (q - e) as nat;
            let g = pow2(v);
            let fine = pow2((e - f) as nat);
            lemma_pow2_pos(v);
            assert(1 * g == g) by (nonlinear_arith);
            lemma_nearest_even_is_nearest(n, g, 0);
            lemma_pow2_adds(v, (e - f) as nat);
            let coarse = pow2((q - f) as nat);
            assert(coarse == g * fine);
            // Half a quantum, in the fine units.
            assert(2 * distance(rounded, exact) <= coarse) by (nonlinear_arith)
                requires
                    2 * distance(m * g, n) <= g,
                    rounded == m * coarse,
                    exact == n * fine,
                    coarse == g * fine,
                    fine > 0,
                    distance(rounded, exact) == if rounded >= exact {
                        rounded - exact
                    } else {
                        exact - rounded
                    },
                    distance(m * g, n) == if m * g >= n {
                        m * g - n
                    } else {
                        n - m * g
                    },
            ;
            if q == -1074 {
                assert(coarse == step);
            } else {
                // The quantum is one part in 2^52 of the leading bit.
                assert(q == e + l - 52);
                let lead = (b0 + (e - f)) as nat;
                let low = (a0 + 52 + (q - f)) as nat;
                assert(lead == low);
                lemma_pow2_adds(b0, (e - f) as nat);
                lemma_pow2_adds(a0, (52 + (q - f)) as nat);
                lemma_pow2_adds(52, (q - f) as nat);
                assert(pow2(52) * coarse <= exact) by (nonlinear_arith)
                    requires
                        1 * pow2(b0) <= n * pow2(a0),
                        exact == n * fine,
                        pow2(b0) * fine == pow2(a0) * (pow2(52) * coarse),
                        pow2(a0) > 0,
                        fine > 0,
                ;
                assert(pow2(53) * distance(rounded, exact) <= exact) by (nonlinear_arith)
                    requires
                        2 * distance(rounded, exact) <= coarse,
                        pow2(52) * coarse <= exact,
                        pow2(53) == 2 * pow2(52),
                ;
            }
        }
    }
}

/// The sum of two doubles lies within one part in 2^53 of their exact sum.
pub proof fn lemma_sum_error(x: Binary64, y: Binary64)
    requires
        x.is_finite(),
        y.is_finite(),
        absolute(value(x)) + absolute(value(y)) <= 1024 * unit(),
    ensures
        sum(x, y).is_finite(),
        pow2(53) * absolute(value(sum(x, y)) - (value(x) + value(y))) <= absolute(
            value(x) + value(y),
        ),
{
    reveal(value);
    lemma2_to64();
    let e = if x.exponent() <= y.exponent() {
        x.exponent()
    } else {
        y.exponent()
    };
    let fine = pow2((e + 1074) as nat);
    lemma_pow2_pos((e + 1074) as nat);
    lemma_pow2_adds((x.exponent() - e) as nat, (e + 1074) as nat);
    lemma_pow2_adds((y.exponent() - e) as nat, (e + 1074) as nat);
    assert(value(x) == in_units(x, e) * fine) by (nonlinear_arith)
        requires
            x.magnitude() == x.significand() * (pow2((x.exponent() - e) as nat) * fine),
            value(x) == if x.is_negative() {
                -(x.magnitude() as int)
            } else {
                x.magnitude() as int
            },
            in_units(x, e) == if x.is_negative() {
                -(x.significand() * pow2((x.exponent() - e) as nat))
            } else {
                (x.significand() * pow2((x.exponent() - e) as nat)) as int
            },
    ;
    assert(value(y) == in_units(y, e) * fine) by (nonlinear_arith)
        requires
            y.magnitude() == y.significand() * (pow2((y.exponent() - e) as nat) * fine),
            value(y) == if y.is_negative() {
                -(y.magnitude() as int)
            } else {
                y.magnitude() as int
            },
            in_units(y, e) == if y.is_negative() {
                -(y.significand() * pow2((y.exponent() - e) as nat))
            } else {
                (y.significand() * pow2((y.exponent() - e) as nat)) as int
            },
    ;
    let s = in_units(x, e) + in_units(y, e);
    let exact = value(x) + value(y);
    assert(exact == s * fine) by (nonlinear_arith)
        requires
            value(x) == in_units(x, e) * fine,
            value(y) == in_units(y, e) * fine,
            exact == value(x) + value(y),
            s == in_units(x, e) + in_units(y, e),
    ;
    lemma_pow2_pos(53);
    if s == 0 {
        lemma_pack_magnitude(x.is_negative() && y.is_negative(), 0, -1074);
        assert(0 * pow2(0) == 0 && 0 * fine == 0) by (nonlinear_arith);
        assert(sum(x, y).magnitude() == 0);
        assert(value(sum(x, y)) == 0 && exact == 0);
        assert(pow2(53) * 0 == 0) by (nonlinear_arith);
    } else {
        let n = absolute(s);
        assert(n * fine == absolute(exact) && (exact < 0) == (s < 0)) by (nonlinear_arith)
            requires
                exact == s * fine,
                fine > 0,
                n == if s < 0 {
                    -s
                } else {
                    s
                },
                absolute(exact) == if exact < 0 {
                    -exact
                } else {
                    exact
                },
        ;
        assert(1024 * pow2(1074) == 1024 * unit());
        lemma_dyadic_rounding_error(s < 0, n, e, -1074);
        let r = sum(x, y);
        assert(r == round_to_double(s < 0, n, 1, e));
        assert(r.magnitude() * pow2(0) == r.magnitude()) by (nonlinear_arith)
            requires
                pow2(0) == 1,
        ;
        let off = distance(r.magnitude(), n * fine);
        assert(absolute(value(r) - exact) == off);
        assert(pow2(53) * off <= n * fine) by (nonlinear_arith)
            requires
                pow2(53) * off <= n * fine || 2 * off <= 1,
                pow2(53) > 0,
                n * fine >= 0,
        ;
    }
}

/// The product of two doubles, counted in squared units, lies within one
/// part in 2^53 of their exact product, or within half a unit of it.
pub proof fn lemma_product_error(x: Binary64, y: Binary64)
    requires
        x.is_finite(),
        y.is_finite(),
        absolute(value(x)) * absolute(value(y)) <= 1024 * (unit() * unit()),
    ensures
        product(x, y).is_finite(),
        pow2(53) * absolute(value(product(x, y)) * unit() - value(x) * value(y)) <= absolute(
            value(x) * value(y),
        ) || 2 * absolute(value(product(x, y)) * unit() - value(x) * value(y)) <= unit(),
{
    reveal(value);
    reveal(product);
    lemma2_to64();
    let negative = x.is_negative() != y.is_negative();
    let n = x.significand() * y.significand();
    let e = x.exponent() + y.exponent();
    let a = (x.exponent() + 1074) as nat;
    let b = (y.exponent() + 1074) as nat;
    lemma_pow2_adds(a, b);
    lemma_pow2_adds(1074, 1074);
    lemma_pow2_adds(10, 2148);
    let exact = n * pow2((e + 2148) as nat);
    assert(exact == x.magnitude() * y.magnitude()) by (nonlinear_arith)
        requires
            exact == (x.significand() * y.significand()) * (pow2(a) * pow2(b)),
            x.magnitude() == x.significand() * pow2(a),
            y.magnitude() == y.significand() * pow2(b),
    ;
    assert(absolute(value(x)) == x.magnitude() && absolute(value(y)) == y.magnitude());
    assert(exact <= 1024 * pow2(2148)) by (nonlinear_arith)
        requires
            exact == x.magnitude() * y.magnitude(),
            x.magnitude() * y.magnitude() <= 1024 * (unit() * unit()),
            pow2(2148) == unit() * unit(),
    ;
    lemma_dyadic_rounding_error(negative, n, e, -2148);
    let r = product(x, y);
    assert(r == round_to_double(negative, n, 1, e));
    let rounded: nat = r.magnitude() * pow2(1074);
    let p = value(x) * value(y);
    assert(absolute(p) == exact && (exact > 0 ==> (p < 0) == negative)) by (nonlinear_arith)
        requires
            exact == x.magnitude() * y.magnitude(),
            p == value(x) * value(y),
            value(x) == if x.is_negative() {
                -(x.magnitude() as int)
            } else {
                x.magnitude() as int
            },
            value(y) == if y.is_negative() {
                -(y.magnitude() as int)
            } else {
                y.magnitude() as int
            },
            negative == (x.is_negative() != y.is_negative()),
            absolute(p) == if p < 0 {
                -p
            } else {
                p
            },
    ;
    let got = value(r) * unit();
    assert(got == if negative {
        -(rounded as int)
    } else {
        rounded as int
    }) by (nonlinear_arith)
        requires
            got == value(r) * unit(),
            rounded == r.magnitude() * unit(),
            value(r) == if negative {
                -(r.magnitude() as int)
            } else {
                r.magnitude() as int
            },
    ;
    if exact == 0 {
        // Within half a unit of zero there is only zero.
        lemma_pow2_pos(1074);
        lemma_pow2_pos(53);
        assert(r.magnitude() == 0) by (nonlinear_arith)
            requires
                pow2(53) * distance(rounded, 0) <= 0 || 2 * distance(rounded, 0) <= unit(),
                rounded == r.magnitude() * unit(),
                unit() > 0,
                distance(rounded, 0) == rounded,
                pow2(53) > 0,
        ;
    }
}

/// Where the exact quotient of two doubles is at most a third double in
/// magnitude, so is their quotient as a double.
pub proof fn lemma_quotient_bounded(u: Binary64, w: Binary64, bound: Binary64)
    requires
        u.is_finite(),
        w.is_finite(),
        bound.is_finite(),
        !w.is_zero(),
        absolute(value(u)) * unit() <= absolute(value(bound)) * absolute(value(w)),
    ensures
        quotient(u, w).is_finite(),
        absolute(value(quotient(u, w))) <= absolute(value(bound)),
{
    reveal(value);
    lemma2_to64();
    let n = u.significand();
    let d = w.significand();
    let top = bound.significand();
    let negative = u.is_negative() != w.is_negative();
    let first = (u.exponent() + 2148) as nat;
    let second = (bound.exponent() + w.exponent() + 2148) as nat;
    lemma_pow2_adds((u.exponent() + 1074) as nat, 1074);
    lemma_pow2_adds((bound.exponent() + 1074) as nat, (w.exponent() + 1074) as nat);
    lemma_pow2_pos(first);
    lemma_pow2_pos(second);
    lemma_pow2_pos((w.exponent() + 1074) as nat);
    assert(absolute(value(u)) == u.magnitude() && absolute(value(w)) == w.magnitude()
        && absolute(value(bound)) == bound.magnitude());
    assert(d > 0) by (nonlinear_arith)
        requires
            w.magnitude() == d * pow2((w.exponent() + 1074) as nat),
            w.magnitude() > 0 || d > 0,
    ;
    assert(n * pow2(first) <= (top * d) * pow2(second)) by (nonlinear_arith)
        requires
            u.magnitude() * unit() <= bound.magnitude() * w.magnitude(),
            u.magnitude() == n * pow2((u.exponent() + 1074) as nat),
            w.magnitude() == d * pow2((w.exponent() + 1074) as nat),
            bound.magnitude() == top * pow2((bound.exponent() + 1074) as nat),
            unit() == pow2(1074),
            pow2(first) == pow2((u.exponent() + 1074) as nat) * pow2(1074),
            pow2(second) == pow2((bound.exponent() + 1074) as nat) * pow2(
                (w.exponent() + 1074) as nat,
            ),
    ;
    if first >= second {
        let k = (first - second) as nat;
        lemma_pow2_adds(k, second);
        assert(n * pow2(k) <= (top * d) * pow2(0)) by (nonlinear_arith)
            requires
                n * (pow2(k) * pow2(second)) <= (top * d) * pow2(second),
                pow2(second) > 0,
                pow2(0) == 1,
        ;
        lemma_round_bounded(negative, n, d, u.exponent() - w.exponent(), bound, 0, k);
    } else {
        let k = (second - first) as nat;
        lemma_pow2_adds(k, first);
        assert(n * pow2(0) <= (top * d) * pow2(k)) by (nonlinear_arith)
            requires
                n * pow2(first) <= (top * d) * (pow2(k) * pow2(first)),
                pow2(first) > 0,
                pow2(0) == 1,
        ;
        lemma_round_bounded(negative, n, d, u.exponent() - w.exponent(), bound, k, 0);
    }
}

/// A number divided by one that is at least as large lies between -1
/// and 1.
pub proof fn lemma_quotient_in_unit_range(u: Binary64, w: Binary64)
    requires
        u.is_finite(),
        w.is_finite(),
        !w.is_zero(),
        absolute(value(u)) <= absolute(value(w)),
    ensures
        quotient(u, w).in_unit_range(),
{
    reveal(value);
    lemma_value_of_one();
    lemma_pow2_pos(1074);
    assert(absolute(value(u)) * unit() <= absolute(value(one())) * absolute(value(w)))
        by (nonlinear_arith)
        requires
            absolute(value(u)) <= absolute(value(w)),
            absolute(value(one())) == unit(),
            unit() > 0,
    ;
    lemma_quotient_bounded(u, w, one());
}

/// Whether a double is finite and at most `k` in magnitude.
pub open spec fn within(x: Binary64, k: nat) -> bool {
    x.is_finite() && absolute(value(x)) <= k * unit()
}

/// A double within a bound is within every larger bound.
pub proof fn lemma_within_more(x: Binary64, k: nat, more: nat)
    requires
        within(x, k),
        k <= more,
    ensures
        within(x, more),
{
    lemma_pow2_pos(1074);
    assert(k * unit() <= more * unit()) by (nonlinear_arith)
        requires
            k <= more,
            unit() > 0,
    ;
}

/// The sum of two doubles of at most `k` lies within 2^-44 of their exact
/// sum.
pub proof fn lemma_sum_near(x: Binary64, y: Binary64, k: nat)
    requires
        within(x, k),
        within(y, k),
        k <= 256,
    ensures
        within(sum(x, y), 2 * k + 1),
        pow2(44) * absolute(value(sum(x, y)) - (value(x) + value(y))) <= unit(),
{
    lemma2_to64();
    lemma2_to64_rest();
    lemma_pow2_pos(1074);
    let o = unit();
    let exact = value(x) + value(y);
    let off = absolute(value(sum(x, y)) - exact);
    assert(absolute(value(x)) + absolute(value(y)) <= 1024 * o) by (nonlinear_arith)
        requires
            absolute(value(x)) <= k * o,
            absolute(value(y)) <= k * o,
            k <= 256,
            o > 0,
    ;
    lemma_sum_error(x, y);
    assert(pow2(44) * off <= o && off <= o) by (nonlinear_arith)
        requires
            pow2(53) * off <= absolute(exact),
            absolute(exact) <= 2 * (k * o),
            k <= 256,
            o > 0,
            pow2(53) == 512 * pow2(44),
            pow2(44) > 1,
            off >= 0,
    ;
    assert((2 * k + 1) * o == 2 * (k * o) + o) by (nonlinear_arith);
}

/// The product of a double of at most `j` and one of at most `k` lies
/// within 2^-44 of their exact product.
pub proof fn lemma_product_near(x: Binary64, y: Binary64, j: nat, k: nat)
    requires
        within(x, j),
        within(y, k),
        j * k <= 256,
    ensures
        within(product(x, y), j * k + 1),
        pow2(44) * absolute(value(product(x, y)) * unit() - value(x) * value(y)) <= unit()
            * unit(),
{
    lemma2_to64();
    lemma2_to64_rest();
    lemma_pow2_pos(1074);
    lemma_pow2_strictly_increases(45, 1074);
    let o = unit();
    let exact = value(x) * value(y);
    let got = value(product(x, y));
    let off = absolute(got * o - exact);
    assert(absolute(exact) <= (j * k) * (o * o) && absolute(value(x)) * absolute(value(y))
        == absolute(exact)) by (nonlinear_arith)
        requires
            absolute(value(x)) <= j * o,
            absolute(value(y)) <= k * o,
            exact == value(x) * value(y),
            absolute(value(x)) == if value(x) < 0 {
                -value(x)
            } else {
                value(x)
            },
            absolute(value(y)) == if value(y) < 0 {
                -value(y)
            } else {
                value(y)
            },
            absolute(exact) == if exact < 0 {
                -exact
            } else {
                exact
            },
            o > 0,
    ;
    assert((j * k) * (o * o) <= 256 * (o * o)) by (nonlinear_arith)
        requires
            j * k <= 256,
    ;
    lemma_product_error(x, y);
    assert(pow2(44) * off <= o * o) by (nonlinear_arith)
        requires
            pow2(53) * off <= absolute(exact) || 2 * off <= o,
            absolute(exact) <= 256 * (o * o),
            o >= pow2(45),
            pow2(53) == 512 * pow2(44),
            pow2(45) == 2 * pow2(44),
            pow2(44) > 0,
            off >= 0,
    ;
    assert(absolute(got) <= (j * k + 1) * o) by (nonlinear_arith)
        requires
            off == absolute(got * o - exact),
            off <= o * o,
            absolute(exact) <= (j * k) * (o * o),
            o > 0,
            absolute(got) == if got < 0 {
                -got
            } else {
                got
            },
            absolute(exact) == if exact < 0 {
                -exact
            } else {
                exact
            },
            absolute(got * o - exact) == if got * o - exact < 0 {
                -(got * o - exact)
            } else {
                got * o - exact
            },
    ;
}

/// The double of a 32-bit integer has that integer as its value.
pub proof fn lemma_value_of_integer(n: int)
    requires
        -0x8000_0000 <= n <= 0x7fff_ffff,
    ensures
        of_integer(n).is_finite(),
        value(of_integer(n)) == n * unit(),
{
    reveal(value);
    lemma_integer_is_exact(n);
    assert(absolute(n) * pow2(1074) == if n < 0 {
        -(n * unit())
    } else {
        n * unit()
    }) by (nonlinear_arith)
        requires
            absolute(n) == if n < 0 {
                -n
            } else {
                n
            },
            unit() == pow2(1074),
    ;
}

/// The number with the other sign has the negated value.
pub proof fn lemma_value_of_negation(x: Binary64)
    requires
        x.is_finite(),
    ensures
        negation(x).is_finite(),
        value(negation(x)) == -value(x),
{
    reveal(value);
    lemma_negation_fields(x);
}

/// The same number has the same value, and a zero has the value zero.
pub proof fn lemma_value_of_same_number(x: Binary64, y: Binary64)
    requires
        same_number(x, y),
    ensures
        value(x) == value(y),
        x.is_zero() ==> value(x) == 0 && x.is_finite(),
{
    reveal(value);
    assert(x.is_zero() ==> x.magnitude() == 0) by (nonlinear_arith)
        requires
            x.magnitude() == x.significand() * pow2((x.exponent() + 1074) as nat),
            x.is_zero() ==> x.significand() == 0,
    ;
    assert(y.is_zero() ==> y.magnitude() == 0) by (nonlinear_arith)
        requires
            y.magnitude() == y.significand() * pow2((y.exponent() + 1074) as nat),
            y.is_zero() ==> y.significand() == 0,
    ;
}

/// The value of one is the unit.
pub proof fn lemma_value_of_one()
    ensures
        one().is_finite(),
        value(one()) == unit(),
{
    reveal(value);
    lemma2_to64();
    lemma2_to64_rest();
    assert(one().significand() == pow2(52) && one().exponent() == -52);
    lemma_pow2_adds(52, 1022);
}

/// The value of a positive normal double whose significand is `n · 2^k`
/// with `n` below 2^53, and whose exponent is `-k`: the integer `n`.
pub proof fn lemma_value_of_bits(bits: u64, n: nat, k: nat)
    requires
        (Binary64 { bits }).is_finite(),
        !(Binary64 { bits }).is_negative(),
        (Binary64 { bits }).exponent() == -k,
        (Binary64 { bits }).significand() == n * pow2(k),
        k <= 1074,
    ensures
        within(Binary64 { bits }, n),
        value(Binary64 { bits }) == n * unit(),
{
    reveal(value);
    let x = Binary64 { bits };
    lemma_pow2_adds(k, (1074 - k) as nat);
    assert(x.magnitude() == n * pow2(1074)) by (nonlinear_arith)
        requires
            x.magnitude() == (n * pow2(k)) * pow2((1074 - k) as nat),
            pow2(1074) == pow2(k) * pow2((1074 - k) as nat),
    ;
}

} // verus!
