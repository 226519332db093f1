//! Double-precision numbers of IEEE 754, read through their bit patterns.

use vstd::prelude::*;
use vstd::arithmetic::power2::*;

verus! {

/// The bit that holds the sign.
pub const SIGN_BIT: u64 = 0x8000_0000_0000_0000;

/// Two to the power 52: the number of fraction patterns, and the bit that a
/// normal number's significand has above its fraction.
pub const HIDDEN_BIT: u64 = 0x10_0000_0000_0000;

/// The largest biased exponent, kept for infinities and NaNs.
pub const EXPONENT_MAX: u64 = 0x7ff;

/// The bit pattern of the number one.
pub const ONE_BITS: u64 = 0x3ff0_0000_0000_0000;

/// A double-precision number, held by the 64 bits that encode it.
///
/// Two values are equal when their bits are: the two zeros differ, and a NaN
/// equals itself.
#[derive(Clone, Copy, Debug, PartialEq, Eq, Structural)]
pub struct Binary64 {
    pub bits: u64,
}

impl Binary64 {
    /// Whether the sign bit is set.
    pub open spec fn is_negative(self) -> bool {
        self.bits >= SIGN_BIT
    }

    /// The bits below the sign bit.
    pub open spec fn magnitude_bits(self) -> nat {
        (self.bits % SIGN_BIT) as nat
    }

    /// The exponent field, from 0 to 2047.
    pub open spec fn biased_exponent(self) -> nat {
        self.magnitude_bits() / (HIDDEN_BIT as nat)
    }

    /// The fraction field, below two to the power 52.
    pub open spec fn fraction(self) -> nat {
        self.magnitude_bits() % (HIDDEN_BIT as nat)
    }

    /// No number: the largest exponent field with a fraction.
    pub open spec fn is_nan(self) -> bool {
        self.biased_exponent() == EXPONENT_MAX && self.fraction() != 0
    }

    /// One of the two infinities.
    pub open spec fn is_infinite(self) -> bool {
        self.biased_exponent() == EXPONENT_MAX && self.fraction() == 0
    }

    /// Zero, subnormal or normal.
    pub open spec fn is_finite(self) -> bool {
        self.biased_exponent() < EXPONENT_MAX
    }

    /// One of the two zeros.
    pub open spec fn is_zero(self) -> bool {
        self.magnitude_bits() == 0
    }

    /// The integer `m` of a finite number `±m · 2^e`.
    pub open spec fn significand(self) -> nat {
        if self.biased_exponent() == 0 {
            self.fraction()
        } else {
            HIDDEN_BIT as nat + self.fraction()
        }
    }

    /// The exponent `e` of a finite number `±m · 2^e`, from -1074 to 971.
    pub open spec fn exponent(self) -> int {
        if self.biased_exponent() == 0 {
            -1074
        } else {
            self.biased_exponent() - 1075
        }
    }

    /// The absolute value of a finite number, counted in units of 2^-1074,
    /// the smallest positive double.
    pub open spec fn magnitude(self) -> nat {
        self.significand() * pow2((self.exponent() + 1074) as nat)
    }

    /// Whether the number lies in the closed interval from -1 to 1. No NaN
    /// and no infinity does.
    pub open spec fn in_unit_range(self) -> bool {
        self.is_finite() && self.magnitude() <= pow2(1074)
    }

    /// The double with the given bit pattern.
    pub fn from_bits(bits: u64) -> (r: Binary64)
        ensures
            r.bits == bits,
    {
        Binary64 { bits }
    }

    /// The bit pattern.
    pub fn to_bits(self) -> (bits: u64)
        ensures
            bits == self.bits,
    {
        self.bits
    }

    /// The exponent field.
    pub fn exponent_field(self) -> (e: u64)
        ensures
            e == self.biased_exponent(),
            e <= EXPONENT_MAX,
    {
        (self.bits % SIGN_BIT) / HIDDEN_BIT
    }

    /// The fraction field.
    pub fn fraction_field(self) -> (f: u64)
        ensures
            f == self.fraction(),
            f < HIDDEN_BIT,
    {
        (self.bits % SIGN_BIT) % HIDDEN_BIT
    }

    /// The integer `m` of a finite number `±m · 2^e`. Of an infinity or a NaN
    /// it is what the fields give by the same rule.
    pub fn significand_of(self) -> (m: u64)
        ensures
            m == self.significand(),
            m < 2 * HIDDEN_BIT,
            m == 0 <==> self.is_zero(),
    {
        if self.exponent_field() == 0 {
            self.fraction_field()
        } else {
            HIDDEN_BIT + self.fraction_field()
        }
    }

    /// The exponent `e` of a finite number `±m · 2^e`. Of an infinity or a NaN
    /// it is what the exponent field gives by the same rule, 972.
    pub fn exponent_of(self) -> (e: i32)
        ensures
            e == self.exponent(),
            -1074 <= e <= 972,
            self.is_finite() ==> e <= 971,
    {
        let field: u64 = self.exponent_field();
        if field == 0 {
            -1074
        } else {
            field as i32 - 1075
        }
    }

    /// Whether the number is negative or a negative zero.
    pub fn sign_bit(self) -> (b: bool)
        ensures
            b == self.is_negative(),
    {
        self.bits >= SIGN_BIT
    }

    /// Decides whether the number lies between -1 and 1, both included.
    pub fn is_in_unit_range(self) -> (b: bool)
        ensures
            b == self.in_unit_range(),
    {
        proof {
            lemma_unit_range_bits(self);
        }
        self.bits % SIGN_BIT <= ONE_BITS
    }
}

/// A number lies between -1 and 1 exactly when its bits below the sign are at
/// most those of the number one.
pub proof fn lemma_unit_range_bits(x: Binary64)
    ensures
        x.in_unit_range() <==> x.magnitude_bits() <= ONE_BITS,
{
    let e = x.biased_exponent();
    let f = x.fraction();
    let m = x.significand();
    lemma2_to64();
    lemma2_to64_rest();
    assert(x.magnitude_bits() == e * 0x10_0000_0000_0000 + f);
    assert(e <= 2047);
    assert(f < 0x10_0000_0000_0000);
    let ulps = x.magnitude();
    if e == 0 {
        lemma_pow2_strictly_increases(52, 1074);
        assert(ulps == f * pow2(0));
        assert(x.in_unit_range());
    } else if e < 1023 {
        let t = pow2((e - 1) as nat);
        assert(ulps == m * t);
        lemma_pow2_adds(53, 1021);
        if e < 1022 {
            lemma_pow2_strictly_increases((e - 1) as nat, 1021);
        }
        lemma_pow2_pos((e - 1) as nat);
        assert(m * t < pow2(53) * t) by (nonlinear_arith)
            requires
                m < pow2(53),
                t > 0,
        ;
        assert(pow2(53) * t <= pow2(53) * pow2(1021)) by (nonlinear_arith)
            requires
                t <= pow2(1021),
        ;
        assert(x.in_unit_range());
    } else if e == 1023 {
        let t = pow2(1022);
        assert(ulps == m * t);
        lemma_pow2_adds(52, 1022);
        lemma_pow2_pos(1022);
        assert(f > 0 ==> m * t > pow2(52) * t) by (nonlinear_arith)
            requires
                m == pow2(52) + f,
                t > 0,
        ;
        assert(x.in_unit_range() <==> f == 0);
    } else if e < 2047 {
        let t = pow2((e - 1) as nat);
        assert(ulps == m * t);
        lemma_pow2_adds(52, 1022);
        lemma_pow2_strictly_increases(1022, (e - 1) as nat);
        assert(m * t > pow2(52) * pow2(1022)) by (nonlinear_arith)
            requires
                m >= pow2(52),
                t > pow2(1022),
                pow2(52) > 0,
        ;
        assert(!x.in_unit_range());
    } else {
        assert(!x.is_finite());
    }
}

} // verus!
