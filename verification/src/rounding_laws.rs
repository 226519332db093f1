//! What holds of rounding: that it is to the nearest, that it keeps what a
//! double holds exactly, and that it does not pass a double that the exact
//! value does not pass.

use vstd::prelude::*;
use vstd::arithmetic::power2::*;
use vstd::arithmetic::div_mod::*;
use crate::binary64::{Binary64, EXPONENT_MAX, SIGN_BIT};
use crate::rounding::{
    distance, doublings_below, doublings_to_reach, nearest_even_quotient, pack, quantum,
    ratio_log2, round_to_double, rounded_significand, scaled_denominator, scaled_numerator,
};

verus! {

/// The rounded quotient is nearest: it lies within half of one from
/// `n / d`, no whole number `k` lies nearer, and where `n / d` lies halfway
/// between two whole numbers it is the even one.
pub proof fn lemma_nearest_even_is_nearest(n: nat, d: nat, k: nat)
    requires
        d > 0,
    ensures
        2 * distance(nearest_even_quotient(n, d) * d, n) <= d,
        distance(nearest_even_quotient(n, d) * d, n) <= distance(k * d, n),
        2 * (n % d) == d ==> nearest_even_quotient(n, d) % 2 == 0,
{
    let q = n / d;
    let r = n % d;
    let m = nearest_even_quotient(n, d);
    lemma_fundamental_div_mod(n as int, d as int);
    assert(m * d == if m == q {
        n - r
    } else {
        n - r + d
    }) by (nonlinear_arith)
        requires
            n == d * q + r,
            m == q || m == q + 1,
    ;
    if k <= q {
        assert(k * d <= n - r) by (nonlinear_arith)
            requires
                n == d * q + r,
                k <= q,
                d > 0,
        ;
    } else {
        assert(k * d >= n - r + d) by (nonlinear_arith)
            requires
                n == d * q + r,
                k >= q + 1,
                d > 0,
        ;
    }
}

/// A fraction between two whole numbers rounds to a whole number between
/// them.
pub(crate) proof fn lemma_nearest_even_between(n: nat, d: nat, low: nat, high: nat)
    requires
        d > 0,
        low * d <= n <= high * d,
    ensures
        low <= nearest_even_quotient(n, d) <= high,
{
    let q = n / d;
    let r = n % d;
    lemma_fundamental_div_mod(n as int, d as int);
    assert(low <= q) by (nonlinear_arith)
        requires
            n == d * q + r,
            r < d,
            low * d <= n,
            d > 0,
    ;
    assert(q < high || (q == high && r == 0)) by (nonlinear_arith)
        requires
            n == d * q + r,
            r >= 0,
            n <= high * d,
            d > 0,
    ;
}

/// A fraction within half a step of a whole number rounds to it.
pub(crate) proof fn lemma_nearest_even_near(n: nat, g: nat, t: nat)
    requires
        g > 0,
        2 * (n - t * g) < g,
        2 * (t * g - n) < g,
    ensures
        nearest_even_quotient(n, g) == t,
{
    if n >= t * g {
        let r = (n - t * g) as nat;
        lemma_fundamental_div_mod_converse(n as int, g as int, t as int, r as int);
    } else {
        assert(t >= 1) by (nonlinear_arith)
            requires
                n < t * g,
                n >= 0,
                g > 0,
        ;
        let r = (g - (t * g - n)) as nat;
        assert(n == (t - 1) * g + r) by (nonlinear_arith)
            requires
                r == g - (t * g - n),
        ;
        lemma_fundamental_div_mod_converse(n as int, g as int, t - 1, r as int);
    }
}

/// Two fractions that are equal round to the same integer.
pub(crate) proof fn lemma_nearest_even_of_equal_ratios(n1: nat, d1: nat, n2: nat, d2: nat)
    requires
        d1 > 0,
        d2 > 0,
        n1 * d2 == n2 * d1,
    ensures
        nearest_even_quotient(n1, d1) == nearest_even_quotient(n2, d2),
{
    let q = n1 / d1;
    let r1 = n1 % d1;
    lemma_fundamental_div_mod(n1 as int, d1 as int);
    // n2 = q * d2 + r2 with r2 * d1 == r1 * d2
    let r2 = n2 - q * d2;
    assert(r2 * d1 == r1 * d2) by (nonlinear_arith)
        requires
            n1 == d1 * q + r1,
            n1 * d2 == n2 * d1,
            r2 == n2 - q * d2,
    ;
    assert(0 <= r2 < d2) by (nonlinear_arith)
        requires
            r2 * d1 == r1 * d2,
            0 <= r1 < d1,
            d2 > 0,
            d1 > 0,
    ;
    lemma_fundamental_div_mod_converse(n2 as int, d2 as int, q as int, r2 as int);
    assert((2 * r1 < d1) == (2 * r2 < d2) && (2 * r1 == d1) == (2 * r2 == d2)) by (nonlinear_arith)
        requires
            r2 * d1 == r1 * d2,
            d2 > 0,
            d1 > 0,
    ;
}

/// Scaling the two sides of a fraction by powers of two changes its rounded
/// value only through the difference of the two powers.
pub(crate) proof fn lemma_scaled_ratios(n: nat, d: nat, a: nat, b: nat, a2: nat, b2: nat)
    requires
        d > 0,
        a + b2 == a2 + b,
    ensures
        nearest_even_quotient(n * pow2(a), d * pow2(b)) == nearest_even_quotient(
            n * pow2(a2),
            d * pow2(b2),
        ),
{
    lemma_pow2_pos(b);
    lemma_pow2_pos(b2);
    lemma_pow2_adds(a, b2);
    lemma_pow2_adds(a2, b);
    assert(d * pow2(b) > 0 && d * pow2(b2) > 0) by (nonlinear_arith)
        requires
            d > 0,
            pow2(b) > 0,
            pow2(b2) > 0,
    ;
    assert((n * pow2(a)) * (d * pow2(b2)) == (n * pow2(a2)) * (d * pow2(b))) by (nonlinear_arith)
        requires
            pow2(a) * pow2(b2) == pow2(a2) * pow2(b),
    ;
    lemma_nearest_even_of_equal_ratios(n * pow2(a), d * pow2(b), n * pow2(a2), d * pow2(b2));
}

/// What `doublings_below` counts: `d · 2^k <= n < d · 2^(k + 1)`.
pub(crate) proof fn lemma_doublings_below(n: nat, d: nat)
    requires
        0 < d <= n,
    ensures
        d * pow2(doublings_below(n, d)) <= n < d * pow2(doublings_below(n, d) + 1),
    decreases n - d,
{
    lemma2_to64();
    if n < 2 * d {
        assert(d * pow2(0) == d && d * pow2(1) == 2 * d) by (nonlinear_arith)
            requires
                pow2(0) == 1,
                pow2(1) == 2,
        ;
    } else {
        let k = doublings_below(n, 2 * d);
        lemma_doublings_below(n, 2 * d);
        lemma_pow2_unfold(k + 1);
        lemma_pow2_unfold(k + 2);
        assert((2 * d) * pow2(k) == d * (2 * pow2(k))) by (nonlinear_arith);
        assert((2 * d) * pow2(k + 1) == d * (2 * pow2(k + 1))) by (nonlinear_arith);
    }
}

/// The count of `doublings_below` is the only one with its bounds.
pub(crate) proof fn lemma_doublings_below_unique(n: nat, d: nat, k: nat)
    requires
        0 < d,
        d * pow2(k) <= n < d * pow2(k + 1),
    ensures
        doublings_below(n, d) == k,
    decreases k,
{
    lemma2_to64();
    if k == 0 {
        assert(d * pow2(0) == d && d * pow2(1) == 2 * d) by (nonlinear_arith)
            requires
                pow2(0) == 1,
                pow2(1) == 2,
        ;
    } else {
        lemma_pow2_unfold(k);
        lemma_pow2_unfold(k + 1);
        lemma_pow2_pos((k - 1) as nat);
        assert((2 * d) * pow2((k - 1) as nat) == d * (2 * pow2((k - 1) as nat)))
            by (nonlinear_arith);
        assert((2 * d) * pow2(k) == d * (2 * pow2(k))) by (nonlinear_arith);
        assert(2 * d <= n) by (nonlinear_arith)
            requires
                d * (2 * pow2((k - 1) as nat)) <= n,
                pow2((k - 1) as nat) >= 1,
        ;
        lemma_doublings_below_unique(n, 2 * d, (k - 1) as nat);
    }
}

/// What `doublings_to_reach` counts: `d <= n · 2^k < 2 · d`.
pub(crate) proof fn lemma_doublings_to_reach(n: nat, d: nat)
    requires
        0 < n < d,
    ensures
        doublings_to_reach(n, d) >= 1,
        d <= n * pow2(doublings_to_reach(n, d)) < 2 * d,
    decreases d - n,
{
    lemma2_to64();
    if 2 * n >= d {
        assert(n * pow2(1) == 2 * n) by (nonlinear_arith)
            requires
                pow2(1) == 2,
        ;
    } else {
        let k = doublings_to_reach(2 * n, d);
        lemma_doublings_to_reach(2 * n, d);
        lemma_pow2_unfold(k + 1);
        assert((2 * n) * pow2(k) == n * (2 * pow2(k))) by (nonlinear_arith);
    }
}

/// The count of `doublings_to_reach` is the only one with its bounds.
pub(crate) proof fn lemma_doublings_to_reach_unique(n: nat, d: nat, k: nat)
    requires
        0 < n < d,
        k >= 1,
        d <= n * pow2(k) < 2 * d,
    ensures
        doublings_to_reach(n, d) == k,
    decreases k,
{
    lemma2_to64();
    lemma_pow2_unfold(k);
    assert((2 * n) * pow2((k - 1) as nat) == n * (2 * pow2((k - 1) as nat))) by (nonlinear_arith);
    if k == 1 {
        assert(n * pow2(1) == 2 * n) by (nonlinear_arith)
            requires
                pow2(1) == 2,
        ;
    } else {
        lemma_pow2_unfold((k - 1) as nat);
        lemma_pow2_pos((k - 2) as nat);
        assert(2 * n < d) by (nonlinear_arith)
            requires
                (2 * n) * pow2((k - 1) as nat) < 2 * d,
                pow2((k - 1) as nat) >= 2,
        ;
        lemma_doublings_to_reach_unique(2 * n, d, (k - 1) as nat);
    }
}

/// The binary logarithm of a ratio as a comparison of naturals: there are
/// `a` and `b` with `b - a` the logarithm's integer part, such that
/// `n · 2^a` lies from `d · 2^b` up to its double.
pub proof fn lemma_ratio_log2_bounds(n: nat, d: nat) -> (r: (nat, nat))
    requires
        n > 0,
        d > 0,
    ensures
        r.1 - r.0 == ratio_log2(n, d),
        d * pow2(r.1) <= n * pow2(r.0) < 2 * (d * pow2(r.1)),
{
    lemma2_to64();
    if n >= d {
        let k = doublings_below(n, d);
        lemma_doublings_below(n, d);
        lemma_pow2_unfold(k + 1);
        assert(n * pow2(0) == n && d * pow2(k + 1) == 2 * (d * pow2(k))) by (nonlinear_arith)
            requires
                pow2(0) == 1,
                pow2(k + 1) == 2 * pow2(k),
        ;
        (0, k)
    } else {
        let k = doublings_to_reach(n, d);
        lemma_doublings_to_reach(n, d);
        assert(d * pow2(0) == d) by (nonlinear_arith)
            requires
                pow2(0) == 1,
        ;
        (k, 0)
    }
}

/// The binary logarithm of a ratio, read off a scaled comparison: where
/// `n · 2^a` lies from `d · 2^b` up to its double, the integer part of the
/// logarithm of `n / d` is `b - a`.
pub(crate) proof fn lemma_ratio_log2_scaled(n: nat, d: nat, a: nat, b: nat)
    requires
        n > 0,
        d > 0,
        d * pow2(b) <= n * pow2(a) < 2 * (d * pow2(b)),
    ensures
        ratio_log2(n, d) == b - a,
{
    lemma2_to64();
    if b >= a {
        let k = (b - a) as nat;
        lemma_pow2_adds(a, k);
        lemma_pow2_pos(a);
        lemma_pow2_pos(k);
        lemma_pow2_unfold(k + 1);
        assert(d * pow2(k) <= n < d * pow2(k + 1)) by (nonlinear_arith)
            requires
                d * (pow2(a) * pow2(k)) <= n * pow2(a) < 2 * (d * (pow2(a) * pow2(k))),
                pow2(a) > 0,
                pow2(k + 1) == 2 * pow2(k),
        ;
        assert(d <= n) by (nonlinear_arith)
            requires
                d * pow2(k) <= n,
                pow2(k) >= 1,
        ;
        lemma_doublings_below_unique(n, d, k);
    } else {
        let k = (a - b) as nat;
        lemma_pow2_adds(b, k);
        lemma_pow2_pos(b);
        lemma_pow2_unfold(k);
        lemma_pow2_pos((k - 1) as nat);
        assert(d <= n * pow2(k) < 2 * d) by (nonlinear_arith)
            requires
                d * pow2(b) <= n * (pow2(b) * pow2(k)) < 2 * (d * pow2(b)),
                pow2(b) > 0,
        ;
        assert(n < d) by (nonlinear_arith)
            requires
                n * pow2(k) < 2 * d,
                pow2(k) >= 2,
        ;
        lemma_doublings_to_reach_unique(n, d, k);
    }
}

/// The rounded significand has at most 53 bits, or is 2^53; above the
/// smallest quantum it has its 53 bits.
pub proof fn lemma_rounded_range(n: nat, d: nat, e: int)
    requires
        n > 0,
        d > 0,
    ensures
        rounded_significand(n, d, e) <= pow2(53),
        quantum(e + ratio_log2(n, d)) > -1074 ==> rounded_significand(n, d, e) >= pow2(52),
{
    let l = ratio_log2(n, d);
    let q = quantum(e + l);
    let (a0, b0) = lemma_ratio_log2_bounds(n, d);
    let u: nat = if e >= q {
        (e - q) as nat
    } else {
        0
    };
    let v: nat = if e >= q {
        0
    } else {
        (q - e) as nat
    };
    let num = scaled_numerator(n, e, q);
    let den = scaled_denominator(d, e, q);
    lemma2_to64();
    lemma_pow2_pos(u);
    lemma_pow2_pos(v);
    lemma_pow2_pos(a0);
    assert(num == n * pow2(u) && den == d * pow2(v)) by (nonlinear_arith)
        requires
            num == if e >= q {
                n * pow2(u)
            } else {
                n
            },
            den == if e >= q {
                d
            } else {
                d * pow2(v)
            },
            pow2(0) == 1,
            u == 0 || v == 0,
            e >= q ==> v == 0,
            e < q ==> u == 0,
    ;
    assert(den > 0) by (nonlinear_arith)
        requires
            den == d * pow2(v),
            d > 0,
            pow2(v) > 0,
    ;
    // Upper bound: u + b0 <= 52 + a0 + v.
    let top = 52 + a0 + v;
    assert(u + b0 <= top);
    if u + b0 < top {
        lemma_pow2_strictly_increases(u + b0, top);
    }
    lemma_pow2_adds(b0, u);
    lemma_pow2_adds(52, a0 + v);
    lemma_pow2_adds(53, a0 + v);
    lemma_pow2_adds(a0, v);
    lemma2_to64_rest();
    assert(num < pow2(53) * den) by (nonlinear_arith)
        requires
            num == n * pow2(u),
            den == d * pow2(v),
            n * pow2(a0) < 2 * (d * pow2(b0)),
            pow2(b0) * pow2(u) <= pow2(52) * (pow2(a0) * pow2(v)),
            pow2(53) == 2 * pow2(52),
            pow2(a0) > 0,
            pow2(u) > 0,
            d > 0,
    ;
    lemma_nearest_even_between(num, den, 0, pow2(53));
    if q > -1074 {
        assert(u + b0 == top);
        assert(pow2(52) * den <= num) by (nonlinear_arith)
            requires
                num == n * pow2(u),
                den == d * pow2(v),
                d * pow2(b0) <= n * pow2(a0),
                pow2(b0) * pow2(u) == pow2(52) * (pow2(a0) * pow2(v)),
                pow2(a0) > 0,
                pow2(u) > 0,
        ;
        assert(pow2(52) * den <= num <= (pow2(53) + 1) * den) by (nonlinear_arith)
            requires
                pow2(52) * den <= num < pow2(53) * den,
                den > 0,
        ;
        lemma_nearest_even_between(num, den, pow2(52), pow2(53) + 1);
    }
}

/// A finite double is what its own sign, significand and exponent pack to.
pub proof fn lemma_pack_of_fields(x: Binary64)
    requires
        x.is_finite(),
    ensures
        pack(x.is_negative(), x.significand(), x.exponent()) == x,
{
}

/// What a packed double holds: its sign, and the significand times the
/// quantum as its magnitude.
pub proof fn lemma_pack_magnitude(negative: bool, m: nat, q: int)
    requires
        m <= pow2(53),
        -1074 <= q,
        m < pow2(52) ==> q == -1074,
        m >= pow2(52) ==> q + 1075 < EXPONENT_MAX,
        m == pow2(53) ==> q + 1076 < EXPONENT_MAX,
    ensures
        pack(negative, m, q).is_finite(),
        pack(negative, m, q).is_negative() == negative,
        pack(negative, m, q).magnitude() == m * pow2((q + 1074) as nat),
{
    lemma2_to64();
    lemma2_to64_rest();
    let r = pack(negative, m, q);
    let sign: nat = if negative {
        SIGN_BIT as nat
    } else {
        0
    };
    if m >= pow2(53) {
        let biased = (q + 1076) as nat;
        assert(biased * 0x10_0000_0000_0000 <= 2046 * 0x10_0000_0000_0000) by (nonlinear_arith)
            requires
                biased <= 2046,
        ;
        assert(r.bits == sign + biased * 0x10_0000_0000_0000);
        lemma_fundamental_div_mod_converse(
            r.magnitude_bits() as int,
            0x10_0000_0000_0000,
            biased as int,
            0,
        );
        lemma_pow2_unfold((q + 1075) as nat);
        assert(pow2(52) * pow2((q + 1075) as nat) == pow2(53) * pow2((q + 1074) as nat))
            by (nonlinear_arith)
            requires
                pow2((q + 1075) as nat) == 2 * pow2((q + 1074) as nat),
                pow2(53) == 2 * pow2(52),
        ;
    } else if m < pow2(52) {
        assert(r.bits == sign + m);
        lemma_fundamental_div_mod_converse(
            r.magnitude_bits() as int,
            0x10_0000_0000_0000,
            0,
            m as int,
        );
    } else {
        let biased = (q + 1075) as nat;
        assert(biased * 0x10_0000_0000_0000 <= 2046 * 0x10_0000_0000_0000) by (nonlinear_arith)
            requires
                biased <= 2046,
        ;
        assert(r.bits == sign + biased * 0x10_0000_0000_0000 + (m - 0x10_0000_0000_0000));
        lemma_fundamental_div_mod_converse(
            r.magnitude_bits() as int,
            0x10_0000_0000_0000,
            biased as int,
            m - 0x10_0000_0000_0000,
        );
    }
}

/// A value that a double holds exactly rounds to that double: where
/// `(n / d) · 2^e` is the significand of `x` times two to its exponent,
/// which `n · 2^b == significand · d · 2^a` says for `e + a == exponent + b`.
pub proof fn lemma_round_exact(x: Binary64, n: nat, d: nat, e: int, a: nat, b: nat)
    requires
        x.is_finite(),
        d > 0,
        e + a == x.exponent() + b,
        n * pow2(b) == (x.significand() * d) * pow2(a),
    ensures
        round_to_double(x.is_negative(), n, d, e) == x,
{
    let m = x.significand();
    let ex = x.exponent();
    lemma2_to64();
    lemma2_to64_rest();
    lemma_pow2_pos(a);
    lemma_pow2_pos(b);
    lemma_pack_of_fields(x);
    if m == 0 {
        assert(n == 0) by (nonlinear_arith)
            requires
                n * pow2(b) == (m * d) * pow2(a),
                m == 0,
                pow2(b) > 0,
        ;
    } else {
        assert(n > 0) by (nonlinear_arith)
            requires
                n * pow2(b) == (m * d) * pow2(a),
                m > 0,
                d > 0,
                pow2(a) > 0,
        ;
        // The leading bit of the significand.
        let l: nat = if x.biased_exponent() == 0 {
            doublings_below(m, 1)
        } else {
            52
        };
        if x.biased_exponent() == 0 {
            lemma_doublings_below(m, 1);
            if l >= 52 {
                if l > 52 {
                    lemma_pow2_strictly_increases(52, l);
                }
                assert(1 * pow2(l) == pow2(l)) by (nonlinear_arith);
            }
        }
        lemma_pow2_unfold(l + 1);
        assert(pow2(l) <= m < 2 * pow2(l)) by (nonlinear_arith)
            requires
                x.biased_exponent() == 0 ==> 1 * pow2(l) <= m < 1 * pow2(l + 1),
                x.biased_exponent() != 0 ==> pow2(l) <= m < pow2(l + 1),
                pow2(l + 1) == 2 * pow2(l),
        ;
        lemma_pow2_adds(l, a);
        assert(d * pow2(l + a) <= n * pow2(b) < 2 * (d * pow2(l + a))) by (nonlinear_arith)
            requires
                n * pow2(b) == (m * d) * pow2(a),
                pow2(l + a) == pow2(l) * pow2(a),
                pow2(l) <= m < 2 * pow2(l),
                d > 0,
                pow2(a) > 0,
        ;
        lemma_ratio_log2_scaled(n, d, b, l + a);
        assert(quantum(e + ratio_log2(n, d)) == ex);
        if e >= ex {
            let up = (e - ex) as nat;
            lemma_pow2_adds(up, a);
            assert((n * pow2(up)) * 1 == m * d) by (nonlinear_arith)
                requires
                    n * (pow2(up) * pow2(a)) == (m * d) * pow2(a),
                    pow2(a) > 0,
            ;
            lemma_nearest_even_of_equal_ratios(n * pow2(up), d, m, 1);
        } else {
            let down = (ex - e) as nat;
            lemma_pow2_adds(down, b);
            lemma_pow2_pos(down);
            assert(n * 1 == m * (d * pow2(down)) && d * pow2(down) > 0) by (nonlinear_arith)
                requires
                    n * pow2(b) == (m * d) * (pow2(down) * pow2(b)),
                    pow2(b) > 0,
                    pow2(down) > 0,
                    d > 0,
            ;
            lemma_nearest_even_of_equal_ratios(n, d * pow2(down), m, 1);
        }
        assert(nearest_even_quotient(m, 1) == m);
    }
}

/// Rounding does not pass a double that the exact value does not pass:
/// where `(n / d) · 2^e` is at most the magnitude of `bound`, which
/// `n · 2^b <= significand · d · 2^a` says for `e + a == exponent + b`, the
/// rounded value is finite and at most that magnitude.
pub proof fn lemma_round_bounded(
    negative: bool,
    n: nat,
    d: nat,
    e: int,
    bound: Binary64,
    a: nat,
    b: nat,
)
    requires
        bound.is_finite(),
        d > 0,
        e + a == bound.exponent() + b,
        n * pow2(b) <= (bound.significand() * d) * pow2(a),
    ensures
        round_to_double(negative, n, d, e).is_finite(),
        round_to_double(negative, n, d, e).is_negative() == negative,
        round_to_double(negative, n, d, e).magnitude() <= bound.magnitude(),
        round_to_double(negative, n, d, e).magnitude() == round_to_double(
            !negative,
            n,
            d,
            e,
        ).magnitude(),
{
    lemma2_to64();
    lemma2_to64_rest();
    let mb = bound.significand();
    let eb = bound.exponent();
    if n == 0 {
        lemma_pack_magnitude(negative, 0, -1074);
        lemma_pack_magnitude(!negative, 0, -1074);
        assert(0 * pow2(0) == 0) by (nonlinear_arith);
    } else {
        let q = quantum(e + ratio_log2(n, d));
        let m = rounded_significand(n, d, e);
        let (a0, b0) = lemma_ratio_log2_bounds(n, d);
        lemma_rounded_range(n, d, e);
        lemma_pow2_pos(a);
        lemma_pow2_pos(b);
        lemma_pow2_pos(a0);
        lemma_pow2_pos(b0);
        if q > eb {
            // The value would lie above every double with the exponent of the bound.
            assert(b0 + b >= a0 + a + 53);
            if b0 + b > a0 + a + 53 {
                lemma_pow2_strictly_increases(a0 + a + 53, b0 + b);
            }
            lemma_pow2_adds(b0, b);
            lemma_pow2_adds(a0, a);
            lemma_pow2_adds(53, a0 + a);
            assert(false) by (nonlinear_arith)
                requires
                    d * pow2(b0) <= n * pow2(a0),
                    n * pow2(b) <= (mb * d) * pow2(a),
                    mb < pow2(53),
                    pow2(53) * (pow2(a0) * pow2(a)) <= pow2(b0) * pow2(b),
                    d > 0,
                    pow2(a) > 0,
                    pow2(a0) > 0,
                    pow2(b) > 0,
                    pow2(b0) > 0,
            ;
        }
        let c = (eb - q) as nat;
        let u: nat = if e >= q {
            (e - q) as nat
        } else {
            0
        };
        let v: nat = if e >= q {
            0
        } else {
            (q - e) as nat
        };
        let num = scaled_numerator(n, e, q);
        let den = scaled_denominator(d, e, q);
        lemma_pow2_pos(u);
        lemma_pow2_pos(v);
        lemma_pow2_pos(c);
        assert(num == n * pow2(u) && den == d * pow2(v)) by (nonlinear_arith)
            requires
                num == if e >= q {
                    n * pow2(u)
                } else {
                    n
                },
                den == if e >= q {
                    d
                } else {
                    d * pow2(v)
                },
                pow2(0) == 1,
                e >= q ==> v == 0,
                e < q ==> u == 0,
        ;
        let top = mb * pow2(c);
        assert(a + u == c + v + b);
        lemma_pow2_adds(a, u);
        lemma_pow2_adds(c, v + b);
        lemma_pow2_adds(v, b);
        assert(num <= top * den && den > 0) by (nonlinear_arith)
            requires
                num == n * pow2(u),
                den == d * pow2(v),
                top == mb * pow2(c),
                n * pow2(b) <= (mb * d) * pow2(a),
                pow2(a) * pow2(u) == pow2(c) * (pow2(v) * pow2(b)),
                pow2(b) > 0,
                pow2(u) > 0,
                pow2(v) > 0,
                d > 0,
        ;
        lemma_nearest_even_between(num, den, 0, top);
        assert(m <= top);
        // The rounded significand fits the double's fields.
        if m >= pow2(53) {
            assert(c >= 1) by (nonlinear_arith)
                requires
                    pow2(53) <= mb * pow2(c),
                    mb < pow2(53),
                    c == 0 ==> pow2(c) == 1,
            ;
        }
        lemma_pack_magnitude(negative, m, q);
        lemma_pack_magnitude(!negative, m, q);
        lemma_pow2_adds(c, (q + 1074) as nat);
        assert(m * pow2((q + 1074) as nat) <= mb * pow2((eb + 1074) as nat)) by (nonlinear_arith)
            requires
                m <= mb * pow2(c),
                pow2((eb + 1074) as nat) == pow2(c) * pow2((q + 1074) as nat),
                pow2((q + 1074) as nat) >= 0,
        ;
    }
}

} // verus!
