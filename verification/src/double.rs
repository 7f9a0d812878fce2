//! The binary64 encoding: one sign bit, eleven exponent bits and fifty-two
//! fraction bits, and the number that such a word stands for.
use vstd::prelude::*;

verus! {

/// Two to the power 52: the weight of the hidden bit of a normal number.
pub const HIDDEN_BIT: u64 = 0x0010_0000_0000_0000;

/// Two to the power 63: the sign bit.
pub const SIGN_BIT: u64 = 0x8000_0000_0000_0000;

/// The encoding of positive infinity: exponent field all ones, fraction zero.
pub const INFINITY_BITS: u64 = 0x7FF0_0000_0000_0000;

/// The encoding of the quiet not-a-number that every invalid operation gives.
pub const NAN_BITS: u64 = 0x7FF8_0000_0000_0000;

/// The encoding of 1.
pub const ONE_BITS: u64 = 0x3FF0_0000_0000_0000;

/// The encoding of -1.
pub const MINUS_ONE_BITS: u64 = 0xBFF0_0000_0000_0000;

/// The encoding of 0.5.
pub const HALF_BITS: u64 = 0x3FE0_0000_0000_0000;

/// The encoding of two to the power -52, the gap between 1 and the next
/// larger number.
pub const EPSILON_BITS: u64 = 0x3CB0_0000_0000_0000;

/// The smallest exponent of a last place: subnormal numbers and the smallest
/// normal ones are multiples of two to this power.
pub open spec fn min_exponent() -> int {
    -1074
}

/// Whether the sign bit is set.
pub open spec fn is_negative(bits: u64) -> bool {
    bits >= SIGN_BIT
}

/// The encoding without its sign bit.
pub open spec fn magnitude_bits(bits: u64) -> u64 {
    if bits >= SIGN_BIT {
        (bits - SIGN_BIT) as u64
    } else {
        bits
    }
}

/// The sign bit of a negative number, zero otherwise.
pub open spec fn sign_bits(negative: bool) -> u64 {
    if negative {
        SIGN_BIT
    } else {
        0
    }
}

/// Not a number: exponent field all ones and a fraction that is not zero.
pub open spec fn is_nan(bits: u64) -> bool {
    magnitude_bits(bits) > INFINITY_BITS
}

/// Positive or negative infinity.
pub open spec fn is_infinite(bits: u64) -> bool {
    magnitude_bits(bits) == INFINITY_BITS
}

/// Zero, subnormal or normal.
pub open spec fn is_finite(bits: u64) -> bool {
    magnitude_bits(bits) < INFINITY_BITS
}

/// Positive or negative zero.
pub open spec fn is_zero(bits: u64) -> bool {
    magnitude_bits(bits) == 0
}

/// The eleven-bit exponent field.
pub open spec fn exponent_field(bits: u64) -> int {
    magnitude_bits(bits) as int / (HIDDEN_BIT as int)
}

/// The fifty-two-bit fraction field.
pub open spec fn fraction_field(bits: u64) -> int {
    magnitude_bits(bits) as int % (HIDDEN_BIT as int)
}

/// The integer significand of a finite number: the fraction, with the hidden
/// bit in front of it unless the number is subnormal or zero.
pub open spec fn significand(bits: u64) -> nat {
    if exponent_field(bits) == 0 {
        fraction_field(bits) as nat
    } else {
        (fraction_field(bits) + HIDDEN_BIT) as nat
    }
}

/// The power of two that the significand of a finite number is multiplied
/// by: the number is `significand * 2^exponent`, negated under the sign bit.
pub open spec fn exponent(bits: u64) -> int {
    if exponent_field(bits) == 0 {
        min_exponent()
    } else {
        exponent_field(bits) - 1075
    }
}

/// The place of a number in the order of the numbers: of two encodings that
/// are not NaN, the one with the smaller key is the smaller number, and both
/// zeros have the key 0.
pub open spec fn order_key(bits: u64) -> int {
    if is_negative(bits) {
        -(magnitude_bits(bits) as int)
    } else {
        magnitude_bits(bits) as int
    }
}

/// An IEEE 754 binary64 number, held as its encoding.
#[derive(Clone, Copy, Debug)]
pub struct Double {
    pub bits: u64,
}

impl Double {
    /// Whether this number is smaller than the other.
    pub open spec fn below(self, other: Double) -> bool {
        less_than(self.bits, other.bits)
    }

    /// The larger of this number and the other.
    pub open spec fn larger(self, other: Double) -> Double {
        Double { bits: maximum(self.bits, other.bits) }
    }

    /// The number with the given encoding.
    pub open spec fn encoded(bits: u64) -> Double {
        Double { bits }
    }

    /// The number with the given encoding.
    #[verifier::when_used_as_spec(encoded)]
    pub fn from_bits(bits: u64) -> (r: Double)
        ensures
            r == Double::encoded(bits),
    {
        Double { bits }
    }

    /// The encoding of this number.
    pub fn to_bits(&self) -> (bits: u64)
        ensures
            bits == self.bits,
    {
        self.bits
    }

    /// Positive zero.
    pub fn zero() -> (r: Double)
        ensures
            r.bits == 0,
    {
        Double { bits: 0 }
    }

    /// The number 1.
    pub fn one() -> (r: Double)
        ensures
            r.bits == ONE_BITS,
    {
        Double { bits: ONE_BITS }
    }

    /// Whether this is not a number.
    pub fn is_nan(&self) -> (b: bool)
        ensures
            b == is_nan(self.bits),
    {
        self.magnitude() > INFINITY_BITS
    }

    /// Whether this is zero, subnormal or normal.
    pub fn is_finite(&self) -> (b: bool)
        ensures
            b == is_finite(self.bits),
    {
        self.magnitude() < INFINITY_BITS
    }

    /// Whether the sign bit is set.
    pub fn is_sign_negative(&self) -> (b: bool)
        ensures
            b == is_negative(self.bits),
    {
        self.bits >= SIGN_BIT
    }

    /// The encoding without its sign bit.
    pub fn magnitude(&self) -> (m: u64)
        ensures
            m == magnitude_bits(self.bits),
    {
        if self.bits >= SIGN_BIT {
            self.bits - SIGN_BIT
        } else {
            self.bits
        }
    }

    /// The larger of this number and the other.
    pub fn max(&self, other: &Double) -> (r: Double)
        ensures
            r == self.larger(*other),
    {
        if self.is_nan() {
            Double { bits: other.bits }
        } else if other.is_nan() {
            Double { bits: self.bits }
        } else if self.lt(other) {
            Double { bits: other.bits }
        } else {
            Double { bits: self.bits }
        }
    }

    /// Whether this number is smaller than the other. False where either is
    /// not a number; the two zeros are equal.
    pub fn lt(&self, other: &Double) -> (b: bool)
        ensures
            b == self.below(*other),
    {
        if self.is_nan() || other.is_nan() {
            false
        } else {
            let a: u64 = self.magnitude();
            let b: u64 = other.magnitude();
            if self.is_sign_negative() {
                if other.is_sign_negative() {
                    b < a
                } else {
                    a > 0 || b > 0
                }
            } else {
                if other.is_sign_negative() {
                    false
                } else {
                    a < b
                }
            }
        }
    }
}

/// The larger of two numbers; where one is not a number, the other. Of the
/// two zeros, which are equal, the first argument is taken.
pub open spec fn maximum(a: u64, b: u64) -> u64 {
    if is_nan(a) {
        b
    } else if is_nan(b) {
        a
    } else if less_than(a, b) {
        b
    } else {
        a
    }
}

/// The order of the numbers: nothing compares with NaN.
pub open spec fn less_than(a: u64, b: u64) -> bool {
    !is_nan(a) && !is_nan(b) && order_key(a) < order_key(b)
}

} // verus!
