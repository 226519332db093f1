//! Rounding an exact value to the nearest double.
//!
//! An exact value is given as a sign and a magnitude `(n / d) · 2^e`. The
//! nearest double is found as IEEE 754 asks: round to nearest, ties to the
//! even significand, and past the largest finite double to infinity.

use vstd::prelude::*;
use vstd::arithmetic::power2::*;
use vstd::arithmetic::div_mod::*;
use crate::binary64::{Binary64, EXPONENT_MAX, HIDDEN_BIT, SIGN_BIT};
use crate::rounding_laws::{
    lemma_doublings_below_unique, lemma_ratio_log2_scaled, lemma_scaled_ratios,
};

verus! {

/// The double with the given sign, exponent field and fraction field.
pub open spec fn encode(negative: bool, biased: nat, fraction: nat) -> Binary64 {
    Binary64 {
        bits: (if negative {
            SIGN_BIT as nat
        } else {
            0nat
        } + biased * (HIDDEN_BIT as nat) + fraction) as u64,
    }
}

/// The double `±m · 2^q`, for a significand `m` of at most 53 bits, or 2^53
/// itself, at a quantum `2^q` that a double of that size has: `q` is at
/// least -1074, and more only where `m` has its 53 bits. Past the largest
/// finite double it is the infinity.
pub open spec fn pack(negative: bool, m: nat, q: int) -> Binary64 {
    let carried = m >= 2 * HIDDEN_BIT;
    let m = if carried {
        HIDDEN_BIT as nat
    } else {
        m
    };
    let q = if carried {
        q + 1
    } else {
        q
    };
    if m < HIDDEN_BIT {
        encode(negative, 0, m)
    } else if q + 1075 >= EXPONENT_MAX {
        encode(negative, EXPONENT_MAX as nat, 0)
    } else {
        encode(negative, (q + 1075) as nat, (m - HIDDEN_BIT) as nat)
    }
}

/// The integer nearest to `n / d`; of two equally near, the even one.
pub open spec fn nearest_even_quotient(n: nat, d: nat) -> nat {
    let q = n / d;
    let r = n % d;
    if 2 * r < d || (2 * r == d && q % 2 == 0) {
        q
    } else {
        q + 1
    }
}

/// The distance between two naturals.
pub open spec fn distance(a: nat, b: nat) -> nat {
    if a >= b {
        (a - b) as nat
    } else {
        (b - a) as nat
    }
}

/// How often `d` can be doubled without passing `n`.
pub open spec fn doublings_below(n: nat, d: nat) -> nat
    decreases n - d,
{
    if d == 0 || n < 2 * d {
        0
    } else {
        1 + doublings_below(n, 2 * d)
    }
}

/// How often `n` must be doubled to reach `d`.
pub open spec fn doublings_to_reach(n: nat, d: nat) -> nat
    decreases d - n,
{
    if n == 0 || n >= d {
        0
    } else if 2 * n >= d {
        1
    } else {
        1 + doublings_to_reach(2 * n, d)
    }
}

/// The integer part of the binary logarithm of `n / d`: the `l` with
/// `2^l <= n / d < 2^(l + 1)`.
pub open spec fn ratio_log2(n: nat, d: nat) -> int {
    if n >= d {
        doublings_below(n, d) as int
    } else {
        -(doublings_to_reach(n, d) as int)
    }
}

/// The quantum of the doubles around a value whose binary logarithm has
/// the integer part `top`: 52 binary places below the leading bit, but not
/// below the smallest positive double.
pub open spec fn quantum(top: int) -> int {
    if top - 52 > -1074 {
        top - 52
    } else {
        -1074
    }
}

/// The value `(n / d) · 2^e` in units of the quantum `2^q` is a fraction
/// of two naturals. This is its numerator.
pub open spec fn scaled_numerator(n: nat, e: int, q: int) -> nat {
    if e >= q {
        n * pow2((e - q) as nat)
    } else {
        n
    }
}

/// The denominator of the value `(n / d) · 2^e` in units of `2^q`.
pub open spec fn scaled_denominator(d: nat, e: int, q: int) -> nat {
    if e >= q {
        d
    } else {
        d * pow2((q - e) as nat)
    }
}

/// The significand to which `(n / d) · 2^e` rounds: the value in units of
/// its quantum, rounded to the nearest integer, ties to the even one.
pub open spec fn rounded_significand(n: nat, d: nat, e: int) -> nat {
    let q = quantum(e + ratio_log2(n, d));
    nearest_even_quotient(scaled_numerator(n, e, q), scaled_denominator(d, e, q))
}

/// The double nearest to `±(n / d) · 2^e`.
pub open spec fn round_to_double(negative: bool, n: nat, d: nat, e: int) -> Binary64 {
    if n == 0 {
        encode(negative, 0, 0)
    } else {
        pack(negative, rounded_significand(n, d, e), quantum(e + ratio_log2(n, d)))
    }
}

/// Two to the power `k`.
pub(crate) fn power_of_two(k: u32) -> (r: u128)
    requires
        k < 128,
    ensures
        r == pow2(k as nat),
        r > 0,
{
    let mut r: u128 = 1;
    let mut i: u32 = 0;
    proof {
        lemma2_to64();
    }
    while i < k
        invariant
            i <= k < 128,
            r == pow2(i as nat),
            r > 0,
        decreases k - i,
    {
        proof {
            lemma_pow2_unfold((i + 1) as nat);
            lemma_pow2_strictly_increases((i + 1) as nat, 128);
            lemma_pow2_adds(64, 64);
            lemma2_to64();
        }
        r = r * 2;
        i += 1;
    }
    r
}

/// The position of the leading bit of `n`.
pub(crate) fn leading_bit(n: u128) -> (l: u32)
    requires
        n > 0,
    ensures
        l < 128,
        pow2(l as nat) <= n < pow2((l + 1) as nat),
        ratio_log2(n as nat, 1) == l,
{
    let mut g: u128 = 1;
    let mut l: u32 = 0;
    proof {
        lemma2_to64();
    }
    while n / 2 >= g
        invariant
            g == pow2(l as nat),
            0 < g <= n,
            l < 128,
        decreases n - g,
    {
        proof {
            lemma_pow2_unfold((l + 1) as nat);
            if l + 1 >= 128 {
                lemma_pow2_adds(64, 64);
                lemma2_to64();
                if l + 1 > 128 {
                    lemma_pow2_strictly_increases(128, (l + 1) as nat);
                }
            }
        }
        g = g * 2;
        l += 1;
    }
    proof {
        lemma_pow2_unfold((l + 1) as nat);
        assert(1 * pow2(l as nat) == pow2(l as nat) && 1 * pow2((l + 1) as nat) == pow2(
            (l + 1) as nat,
        )) by (nonlinear_arith);
        lemma_doublings_below_unique(n as nat, 1, l as nat);
    }
    l
}

/// Puts a rounded significand and its quantum together.
pub(crate) fn pack_fields(negative: bool, m: u64, q: i32) -> (r: Binary64)
    requires
        m <= 2 * HIDDEN_BIT,
        -1074 <= q <= 0x1000_0000,
    ensures
        r == pack(negative, m as nat, q as int),
{
    let carried = m >= 2 * HIDDEN_BIT;
    let m: u64 = if carried {
        HIDDEN_BIT
    } else {
        m
    };
    let q: i32 = if carried {
        q + 1
    } else {
        q
    };
    let sign: u64 = if negative {
        SIGN_BIT
    } else {
        0
    };
    if m < HIDDEN_BIT {
        Binary64 { bits: sign + m }
    } else if q + 1075 >= 2047 {
        Binary64 { bits: sign + EXPONENT_MAX * HIDDEN_BIT }
    } else {
        let biased: u64 = (q + 1075) as u64;
        assert(biased * HIDDEN_BIT <= 2046 * HIDDEN_BIT) by (nonlinear_arith)
            requires
                biased <= 2046,
        ;
        Binary64 { bits: sign + biased * HIDDEN_BIT + (m - HIDDEN_BIT) }
    }
}

/// The integer nearest to `n / d`; of two equally near, the even one.
pub(crate) fn nearest_even(n: u128, d: u128) -> (m: u128)
    requires
        0 < d < 0x4000_0000_0000_0000_0000_0000_0000_0000,
    ensures
        m == nearest_even_quotient(n as nat, d as nat),
        m <= n / d + 1,
{
    let q: u128 = n / d;
    let r: u128 = n % d;
    if 2 * r < d || (2 * r == d && q % 2 == 0) {
        q
    } else {
        proof {
            lemma_fundamental_div_mod(n as int, d as int);
            assert(q < n) by (nonlinear_arith)
                requires
                    n == d * q + r,
                    r > 0,
                    d > 0,
            ;
        }
        q + 1
    }
}

/// Rounds `±n · 2^e` to the nearest double.
pub(crate) fn round_dyadic(negative: bool, n: u128, e: i32) -> (r: Binary64)
    requires
        n < 0x8000_0000_0000_0000_0000_0000_0000_0000,
        -0x1000_0000 <= e <= 0x0800_0000,
    ensures
        r == round_to_double(negative, n as nat, 1, e as int),
{
    if n == 0 {
        return pack_fields(negative, 0, -1074);
    }
    let l: u32 = leading_bit(n);
    let top: i32 = e + l as i32;
    let q: i32 = if top - 52 > -1074 {
        top - 52
    } else {
        -1074
    };
    if e >= q {
        let a: u32 = (e - q) as u32;
        let scale: u128 = power_of_two(a);
        proof {
            lemma2_to64_rest();
            lemma_pow2_adds((l + 1) as nat, a as nat);
            if l + 1 + a < 53 {
                lemma_pow2_strictly_increases((l + 1 + a) as nat, 53);
            }
            assert(n * scale < pow2((l + 1) as nat) * pow2(a as nat)) by (nonlinear_arith)
                requires
                    n < pow2((l + 1) as nat),
                    scale == pow2(a as nat),
                    scale > 0,
            ;
        }
        pack_fields(negative, (n * scale) as u64, q)
    } else {
        let s: u32 = (q - e) as u32;
        if s >= 128 {
            proof {
                lemma_pow2_adds(64, 64);
                lemma2_to64();
                if s > 128 {
                    lemma_pow2_strictly_increases(128, s as nat);
                }
                lemma_basic_div(n as int, pow2(s as nat) as int);
                lemma_small_mod(n as nat, pow2(s as nat));
                assert(1 * pow2(s as nat) == pow2(s as nat)) by (nonlinear_arith);
            }
            pack_fields(negative, 0, q)
        } else {
            let g: u128 = power_of_two(s);
            let quotient: u128 = n / g;
            let rest: u128 = n % g;
            let half: u128 = g / 2;
            proof {
                lemma2_to64_rest();
                lemma_pow2_unfold(s as nat);
                assert(1 * pow2(s as nat) == pow2(s as nat)) by (nonlinear_arith);
                // The quotient has at most 53 bits.
                lemma_pow2_adds(53, s as nat);
                if l + 1 < 53 + s {
                    lemma_pow2_strictly_increases((l + 1) as nat, (53 + s) as nat);
                }
                lemma_fundamental_div_mod(n as int, g as int);
                assert(quotient < pow2(53)) by (nonlinear_arith)
                    requires
                        n == g * quotient + rest,
                        rest >= 0,
                        n < pow2(53) * g,
                        g > 0,
                ;
            }
            let m: u128 = if rest < half || (rest == half && quotient % 2 == 0) {
                quotient
            } else {
                quotient + 1
            };
            pack_fields(negative, m as u64, q)
        }
    }
}

/// Rounds `±(n / d) · 2^e` to the nearest double.
pub(crate) fn round_ratio(negative: bool, n: u64, d: u64, e: i32) -> (r: Binary64)
    requires
        n < 2 * HIDDEN_BIT,
        0 < d < 2 * HIDDEN_BIT,
        -0x1000_0000 <= e <= 0x0800_0000,
    ensures
        r == round_to_double(negative, n as nat, d as nat, e as int),
{
    if n == 0 {
        return pack_fields(negative, 0, -1074);
    }
    proof {
        lemma2_to64();
        lemma2_to64_rest();
    }
    // Both sides with their leading bit in place 52.
    let ln: u32 = leading_bit(n as u128);
    let ld: u32 = leading_bit(d as u128);
    proof {
        if ln >= 53 {
            if ln > 53 {
                lemma_pow2_strictly_increases(53, ln as nat);
            }
        }
        if ld >= 53 {
            if ld > 53 {
                lemma_pow2_strictly_increases(53, ld as nat);
            }
        }
    }
    let a1: u32 = 52 - ln;
    let a2: u32 = 52 - ld;
    let s1: u128 = power_of_two(a1);
    let s2: u128 = power_of_two(a2);
    proof {
        lemma_pow2_adds(ln as nat, a1 as nat);
        lemma_pow2_adds((ln + 1) as nat, a1 as nat);
        lemma_pow2_adds(ld as nat, a2 as nat);
        lemma_pow2_adds((ld + 1) as nat, a2 as nat);
        assert(pow2(52) <= n * s1 < pow2(53)) by (nonlinear_arith)
            requires
                pow2(ln as nat) <= n < pow2((ln + 1) as nat),
                s1 == pow2(a1 as nat),
                s1 > 0,
                pow2(52) == pow2(ln as nat) * pow2(a1 as nat),
                pow2(53) == pow2((ln + 1) as nat) * pow2(a1 as nat),
        ;
        assert(pow2(52) <= d * s2 < pow2(53)) by (nonlinear_arith)
            requires
                pow2(ld as nat) <= d < pow2((ld + 1) as nat),
                s2 == pow2(a2 as nat),
                s2 > 0,
                pow2(52) == pow2(ld as nat) * pow2(a2 as nat),
                pow2(53) == pow2((ld + 1) as nat) * pow2(a2 as nat),
        ;
    }
    let n1: u128 = n as u128 * s1;
    let d1: u128 = d as u128 * s2;
    let below: i32 = if n1 >= d1 {
        0
    } else {
        1
    };
    let log: i32 = ln as i32 - ld as i32 - below;
    proof {
        if n1 >= d1 {
            lemma_ratio_log2_scaled(n as nat, d as nat, a1 as nat, a2 as nat);
        } else {
            lemma_pow2_unfold((a1 + 1) as nat);
            assert(n * pow2((a1 + 1) as nat) == 2 * n1) by (nonlinear_arith)
                requires
                    n1 == n * pow2(a1 as nat),
                    pow2((a1 + 1) as nat) == 2 * pow2(a1 as nat),
            ;
            lemma_ratio_log2_scaled(n as nat, d as nat, (a1 + 1) as nat, a2 as nat);
        }
    }
    let top: i32 = e + log;
    let q: i32 = if top - 52 > -1074 {
        top - 52
    } else {
        -1074
    };
    let c: i32 = e - q + (ln as i32 - ld as i32);
    let ghost up: nat = if e >= q {
        (e - q) as nat
    } else {
        0
    };
    let ghost down: nat = if e >= q {
        0
    } else {
        (q - e) as nat
    };
    assert(round_to_double(negative, n as nat, d as nat, e as int) == pack(
        negative,
        nearest_even_quotient(n as nat * pow2(up), d as nat * pow2(down)),
        q as int,
    )) by {
        assert(n as nat * pow2(0) == n && d as nat * pow2(0) == d) by (nonlinear_arith)
            requires
                pow2(0) == 1,
        ;
    }
    let m: u128 = if c >= 0 {
        let scale: u128 = power_of_two(c as u32);
        proof {
            lemma_pow2_adds(a1 as nat, c as nat);
            lemma_pow2_adds(53, 52);
            lemma_pow2_adds(53, 53);
            if c < 52 {
                lemma_pow2_strictly_increases(c as nat, 52);
            }
            assert(n1 * scale == n * pow2((a1 + c) as nat)) by (nonlinear_arith)
                requires
                    n1 == n * pow2(a1 as nat),
                    pow2((a1 + c) as nat) == pow2(a1 as nat) * pow2(c as nat),
                    scale == pow2(c as nat),
            ;
            let big: int = 0x20_0000_0000_0000;
            assert(big == pow2(53) && big == 2 * pow2(52));
            assert(scale <= pow2(52) || (scale == big && n1 < d1));
            assert(n1 * scale < big * d1) by (nonlinear_arith)
                requires
                    0 <= n1 < big,
                    big <= 2 * d1,
                    0 < scale,
                    2 * scale <= big || (scale == big && n1 < d1),
            ;
            assert(n1 * scale < big * big) by (nonlinear_arith)
                requires
                    0 <= n1 < big,
                    0 < scale <= big,
            ;
            lemma_scaled_ratios(n as nat, d as nat, (a1 + c) as nat, a2 as nat, up, down);
            let num = (n1 * scale) as int;
            let den = d1 as int;
            lemma_fundamental_div_mod(num, den);
            assert(num / den < pow2(53)) by (nonlinear_arith)
                requires
                    num == den * (num / den) + num % den,
                    num % den >= 0,
                    num < pow2(53) * den,
                    den > 0,
            ;
        }
        nearest_even(n1 * scale, d1)
    } else if c >= -2 {
        let scale: u128 = power_of_two((-c) as u32);
        proof {
            lemma_pow2_adds(a2 as nat, (-c) as nat);
            assert(d1 * scale == d * pow2((a2 - c) as nat) && d1 * scale >= 2 * d1 && d1 * scale
                <= 4 * d1) by (nonlinear_arith)
                requires
                    d1 == d * pow2(a2 as nat),
                    pow2((a2 - c) as nat) == pow2(a2 as nat) * pow2((-c) as nat),
                    scale == pow2((-c) as nat),
                    scale == 2 || scale == 4,
            ;
            lemma_scaled_ratios(n as nat, d as nat, a1 as nat, (a2 - c) as nat, up, down);
            lemma_basic_div(n1 as int, (d1 * scale) as int);
        }
        nearest_even(n1, d1 * scale)
    } else {
        proof {
            let den: nat = d as nat * pow2((a2 - c) as nat);
            lemma_pow2_adds(a2 as nat, (-c) as nat);
            lemma_pow2_strictly_increases(2, (-c) as nat);
            assert(den > 2 * n1) by (nonlinear_arith)
                requires
                    den == d * pow2((a2 - c) as nat),
                    d1 == d * pow2(a2 as nat),
                    pow2((a2 - c) as nat) == pow2(a2 as nat) * pow2((-c) as nat),
                    pow2((-c) as nat) > 4,
                    d1 >= pow2(52),
                    n1 < 2 * pow2(52),
            ;
            lemma_scaled_ratios(n as nat, d as nat, a1 as nat, (a2 - c) as nat, up, down);
            lemma_basic_div(n1 as int, den as int);
            lemma_small_mod(n1 as nat, den);
        }
        0
    };
    pack_fields(negative, m as u64, q)
}

} // verus!
