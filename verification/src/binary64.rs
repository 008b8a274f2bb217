//! Numbers in the IEEE 754 binary64 format, held by their encoding.
//!
//! A caller computes with such numbers; this crate only asks whether one is
//! greater than zero and what byte it becomes when a colour channel is cut
//! from it. Both questions are answered from the sign, exponent and fraction
//! fields of the encoding.

use vstd::prelude::*;
use vstd::arithmetic::power2::{pow2, lemma2_to64, lemma2_to64_rest, lemma_pow2_strictly_increases, lemma_pow2_pos};
use vstd::bits::lemma_u64_shr_is_div;

verus! {

/// Two to the power 52: the weight of the lowest exponent bit.
pub const FRACTION_RANGE: u64 = 0x10_0000_0000_0000;

/// The first encoding with the sign bit set.
pub const SIGN_BIT: u64 = 0x8000_0000_0000_0000;

/// The exponent field of the infinities and of the values that are no number.
pub const EXPONENT_SPECIAL: u64 = 2047;

/// The exponent field of the numbers from one up to, not including, two.
pub const EXPONENT_ONE: u64 = 1023;

/// The exponent field at which the lowest fraction bit weighs one.
pub const EXPONENT_UNIT: u64 = 1075;

/// A binary64 number, as the 64 bits that encode it.
#[derive(Clone, Copy, Debug, PartialEq, Eq, Structural)]
pub struct Binary64 {
    pub bits: u64,
}

impl Binary64 {
    /// Whether the sign bit is set.
    pub open spec fn negative(self) -> bool {
        self.bits >= SIGN_BIT
    }

    /// The exponent field, from 0 to 2047.
    pub open spec fn exponent(self) -> int {
        (self.bits as int / FRACTION_RANGE as int) % 2048
    }

    /// The fraction field, below two to the power 52.
    pub open spec fn fraction(self) -> int {
        self.bits as int % FRACTION_RANGE as int
    }

    /// Whether the encoding stands for no number at all.
    pub open spec fn is_nan(self) -> bool {
        self.exponent() == EXPONENT_SPECIAL && self.fraction() != 0
    }

    /// Whether the encoding stands for an infinity.
    pub open spec fn is_infinite(self) -> bool {
        self.exponent() == EXPONENT_SPECIAL && self.fraction() == 0
    }

    /// The integer that the exponent scales: the fraction, with the implicit
    /// leading bit unless the number is subnormal.
    pub open spec fn significand(self) -> int {
        if self.exponent() == 0 {
            self.fraction()
        } else {
            FRACTION_RANGE + self.fraction()
        }
    }

    /// The power of two by which the significand is scaled, counted from the
    /// exponent field at which that power is one.
    pub open spec fn scale(self) -> int {
        if self.exponent() == 0 {
            1 - EXPONENT_UNIT
        } else {
            self.exponent() - EXPONENT_UNIT
        }
    }

    /// The whole part of the absolute value of a finite number: the
    /// significand times two to the scale, rounded down.
    pub open spec fn magnitude_floor(self) -> int {
        if self.scale() >= 0 {
            self.significand() * pow2(self.scale() as nat)
        } else {
            self.significand() / (pow2((-self.scale()) as nat) as int)
        }
    }

    /// Whether the number is greater than zero. Positive infinity is; zero of
    /// either sign and what is no number are not.
    pub open spec fn spec_is_positive(self) -> bool {
        !self.negative() && !self.is_nan() && self.bits != 0
    }

    /// The byte that a channel takes from the number: its whole part, the
    /// digits after the point dropped, held into the range from 0 to 255.
    /// Whatever is negative or no number gives 0.
    pub open spec fn channel(self) -> u8 {
        if self.negative() || self.is_nan() {
            0
        } else if self.is_infinite() || self.magnitude_floor() >= 255 {
            255
        } else {
            self.magnitude_floor() as u8
        }
    }

    /// The number with the given encoding.
    pub fn from_bits(bits: u64) -> (x: Binary64)
        ensures
            x.bits == bits,
    {
        Binary64 { bits }
    }

    /// The encoding of the number.
    pub fn to_bits(self) -> (bits: u64)
        ensures
            bits == self.bits,
    {
        self.bits
    }

    /// Whether the number is greater than zero.
    #[verifier::when_used_as_spec(spec_is_positive)]
    pub fn is_positive(self) -> (p: bool)
        ensures
            p == self.spec_is_positive(),
    {
        let bits = self.bits;
        if bits == 0 || bits >= SIGN_BIT {
            return false;
        }
        let exponent: u64 = (bits / FRACTION_RANGE) % 2048;
        let fraction: u64 = bits % FRACTION_RANGE;
        !(exponent == EXPONENT_SPECIAL && fraction != 0)
    }

    /// The byte that a channel takes from the number.
    pub fn to_channel(self) -> (byte: u8)
        ensures
            byte == self.channel(),
    {
        let bits = self.bits;
        if bits >= SIGN_BIT {
            return 0;
        }
        let exponent: u64 = (bits / FRACTION_RANGE) % 2048;
        let fraction: u64 = bits % FRACTION_RANGE;
        if exponent == EXPONENT_SPECIAL {
            return if fraction != 0 { 0 } else { 255 };
        }
        if exponent < EXPONENT_ONE {
            proof {
                self.lemma_below_one();
            }
            return 0;
        }
        if exponent >= EXPONENT_ONE + 8 {
            proof {
                self.lemma_from_256();
            }
            return 255;
        }
        let significand: u64 = FRACTION_RANGE + fraction;
        let shift: u64 = EXPONENT_UNIT - exponent;
        let whole: u64 = significand >> shift;
        proof {
            lemma_u64_shr_is_div(significand, shift);
            lemma2_to64_rest();
            lemma_pow2_pos(shift as nat);
            if shift > 45 {
                lemma_pow2_strictly_increases(45, shift as nat);
            }
            let d = pow2(shift as nat) as int;
            assert(significand as int / d < 256) by (nonlinear_arith)
                requires
                    0 <= significand < 256 * 0x2000_0000_0000,
                    d >= 0x2000_0000_0000,
            ;
            assert(self.magnitude_floor() == whole);
        }
        if whole >= 255 {
            255
        } else {
            whole as u8
        }
    }

    /// A number whose exponent field is below that of one has no whole part.
    proof fn lemma_below_one(self)
        requires
            self.exponent() < EXPONENT_ONE,
        ensures
            self.magnitude_floor() == 0,
    {
        let k = (-self.scale()) as nat;
        lemma2_to64_rest();
        if k > 53 {
            lemma_pow2_strictly_increases(53, k);
        }
        let d = pow2(k) as int;
        let s = self.significand();
        assert(s / d == 0) by (nonlinear_arith)
            requires
                0 <= s < 0x20_0000_0000_0000,
                d >= 0x20_0000_0000_0000,
        ;
    }

    /// A finite number whose exponent field is eight or more above that of
    /// one is at least 256.
    proof fn lemma_from_256(self)
        requires
            EXPONENT_ONE + 8 <= self.exponent() < EXPONENT_SPECIAL,
        ensures
            self.magnitude_floor() >= 256,
    {
        let s = self.significand();
        lemma2_to64_rest();
        lemma2_to64();
        if self.scale() >= 0 {
            let p = pow2(self.scale() as nat) as int;
            lemma_pow2_pos(self.scale() as nat);
            assert(s * p >= 256) by (nonlinear_arith)
                requires
                    s >= 256,
                    p >= 1,
            ;
        } else {
            let k = (-self.scale()) as nat;
            lemma_pow2_pos(k);
            if k < 44 {
                lemma_pow2_strictly_increases(k, 44);
            }
            let d = pow2(k) as int;
            assert(s / d >= 256) by (nonlinear_arith)
                requires
                    s >= 256 * 0x1000_0000_0000,
                    0 < d <= 0x1000_0000_0000,
            ;
        }
    }

    /// The byte is cut off, never rounded: for a number from zero up to 255
    /// whose lowest fraction bit weighs less than one, the byte is the
    /// largest whole number that is not above it. In terms of the encoding,
    /// with `unit` the significand of one at the number's scale: `byte * unit`
    /// is at most the significand, which is below `(byte + 1) * unit`.
    pub proof fn lemma_channel_truncates(self)
        requires
            !self.negative(),
            !self.is_nan(),
            !self.is_infinite(),
            self.scale() < 0,
            self.magnitude_floor() < 255,
        ensures
            self.channel() * pow2((-self.scale()) as nat) <= self.significand(),
            self.significand() < (self.channel() + 1) * pow2((-self.scale()) as nat),
    {
        let unit = pow2((-self.scale()) as nat) as int;
        let s = self.significand();
        lemma_pow2_pos((-self.scale()) as nat);
        assert(0 <= s);
        assert(0 <= s / unit && (s / unit) * unit <= s < (s / unit + 1) * unit)
            by (nonlinear_arith)
            requires
                0 <= s,
                0 < unit,
        ;
    }

    /// A byte of zero is what is left of every number below one, of every
    /// negative number and of what is no number, and of nothing else.
    pub proof fn lemma_channel_zero(self)
        ensures
            self.channel() == 0 <==> self.negative() || self.is_nan() || self.exponent()
                < EXPONENT_ONE,
    {
        if !self.negative() && !self.is_nan() {
            if self.exponent() < EXPONENT_ONE {
                self.lemma_below_one();
            } else if !self.is_infinite() {
                self.lemma_from_one();
            }
        }
    }

    /// A finite number whose exponent field is at least that of one is at
    /// least one.
    proof fn lemma_from_one(self)
        requires
            EXPONENT_ONE <= self.exponent() < EXPONENT_SPECIAL,
        ensures
            self.magnitude_floor() >= 1,
    {
        let s = self.significand();
        lemma2_to64_rest();
        lemma2_to64();
        if self.scale() >= 0 {
            let p = pow2(self.scale() as nat) as int;
            lemma_pow2_pos(self.scale() as nat);
            assert(s * p >= 1) by (nonlinear_arith)
                requires
                    s >= 1,
                    p >= 1,
            ;
        } else {
            let k = (-self.scale()) as nat;
            lemma_pow2_pos(k);
            if k < 52 {
                lemma_pow2_strictly_increases(k, 52);
            }
            let d = pow2(k) as int;
            assert(s / d >= 1) by (nonlinear_arith)
                requires
                    s >= 0x10_0000_0000_0000,
                    0 < d <= 0x10_0000_0000_0000,
            ;
        }
    }
}

} // verus!
