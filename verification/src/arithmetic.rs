//! The four operations and the square root on binary64 numbers, each the
//! exact result rounded to the nearest number, ties to even.
use vstd::prelude::*;
use vstd::arithmetic::power2::{
    pow2,
    lemma_pow2_pos,
    lemma_pow2_adds,
    lemma_pow2_strictly_increases,
};
use vstd::arithmetic::mul::{lemma_mul_strict_inequality, lemma_mul_inequality};
use crate::double::{
    Double,
    HIDDEN_BIT,
    SIGN_BIT,
    INFINITY_BITS,
    NAN_BITS,
    ONE_BITS,
    is_nan,
    is_infinite,
    is_finite,
    is_zero,
    is_negative,
    sign_bits,
    significand,
    exponent,
};
use crate::nearest::{lemma_rounded_is_number, lemma_rounded_of_number, lemma_rounded_of_scaled};
use crate::rounding::{
    rounded,
    round_pack,
    bit_length,
    bit_length_of,
    power_of_two,
    lemma_bit_length_bounds,
    lemma_pow2_values,
};

verus! {

/// The product of two numbers. Not a number where either is, and for zero
/// times infinity; else infinite where either is; else the exact product
/// of the two significands, rounded. The sign is negative where exactly one
/// sign is.
#[verifier::opaque]
pub open spec fn product(a: u64, b: u64) -> u64 {
    let negative = is_negative(a) != is_negative(b);
    if is_nan(a) || is_nan(b) {
        NAN_BITS
    } else if is_infinite(a) || is_infinite(b) {
        if is_zero(a) || is_zero(b) {
            NAN_BITS
        } else {
            (sign_bits(negative) + INFINITY_BITS) as u64
        }
    } else {
        rounded(negative, significand(a) * significand(b), exponent(a) + exponent(b), false)
    }
}

/// Zero times a finite number is zero, negative where exactly one sign is.
pub proof fn lemma_product_with_zero(a: u64, b: u64)
    requires
        is_zero(a),
        is_finite(b),
    ensures
        product(a, b) == sign_bits(is_negative(a) != is_negative(b)),
        product(b, a) == sign_bits(is_negative(a) != is_negative(b)),
{
    reveal(product);
    reveal(rounded);
    assert(significand(a) == 0);
    assert(significand(a) * significand(b) == 0) by (nonlinear_arith)
        requires
            significand(a) == 0,
    ;
    assert(significand(b) * significand(a) == 0) by (nonlinear_arith)
        requires
            significand(a) == 0,
    ;
}

/// Whether the number is finite and above zero.
pub open spec fn is_positive_finite(a: u64) -> bool {
    is_finite(a) && !is_zero(a) && !is_negative(a)
}

/// A product that is a number has come from two numbers; it is negative
/// where exactly one of them is, and zero where one of them is.
pub proof fn lemma_product_sign(a: u64, b: u64)
    requires
        !is_nan(product(a, b)),
    ensures
        !is_nan(a),
        !is_nan(b),
        is_negative(product(a, b)) == (is_negative(a) != is_negative(b)),
        is_zero(a) || is_zero(b) ==> is_zero(product(a, b)),
{
    reveal(product);
    if is_finite(a) && is_finite(b) {
        lemma_rounded_is_number(
            is_negative(a) != is_negative(b),
            significand(a) * significand(b),
            exponent(a) + exponent(b),
            false,
        );
        if is_zero(a) {
            lemma_product_with_zero(a, b);
        } else if is_zero(b) {
            lemma_product_with_zero(b, a);
        }
    }
}

/// A quotient that is a number has come from two numbers, and is
/// negative where exactly one of them is.
pub proof fn lemma_quotient_sign(a: u64, b: u64)
    requires
        !is_nan(quotient(a, b)),
    ensures
        !is_nan(a),
        !is_nan(b),
        is_negative(quotient(a, b)) == (is_negative(a) != is_negative(b)),
{
    reveal(quotient);
    if is_finite(a) && is_finite(b) && !is_zero(a) && !is_zero(b) {
        let scaled = normalized(significand(a)) * pow2(64);
        let divisor = normalized(significand(b));
        lemma_rounded_is_number(
            is_negative(a) != is_negative(b),
            scaled / divisor,
            normalized_exponent(significand(a), exponent(a)) - normalized_exponent(
                significand(b),
                exponent(b),
            ) - 64,
            scaled % divisor != 0,
        );
    }
}

/// The square of a number is a number that is not negative.
pub proof fn lemma_square_is_not_negative(a: u64)
    requires
        !is_nan(a),
    ensures
        !is_nan(product(a, a)),
        !is_negative(product(a, a)),
{
    reveal(product);
    if is_finite(a) {
        lemma_rounded_is_number(
            false,
            significand(a) * significand(a),
            exponent(a) + exponent(a),
            false,
        );
    }
}

/// The root of a number that is not negative is a number that is not
/// negative.
pub proof fn lemma_root_is_not_negative(a: u64)
    requires
        !is_nan(a),
        !is_negative(a),
    ensures
        !is_nan(square_root(a)),
        !is_negative(square_root(a)),
{
    reveal(square_root);
    if is_finite(a) && !is_zero(a) {
        let n = normalized(significand(a));
        let e = normalized_exponent(significand(a), exponent(a));
        let radicand = if e % 2 == 0 {
            n * pow2(72)
        } else {
            2 * n * pow2(72)
        };
        let even = if e % 2 == 0 {
            e
        } else {
            e - 1
        };
        let root = integer_sqrt(radicand);
        lemma_rounded_is_number(false, root, (even - 72) / 2, root * root != radicand);
    }
}

/// One times a number is that number.
pub proof fn lemma_product_with_one(a: u64)
    requires
        !is_nan(a),
    ensures
        product(a, ONE_BITS) == a,
        product(ONE_BITS, a) == a,
{
    reveal(product);
    lemma_pow2_values();
    assert(significand(ONE_BITS) == pow2(52));
    assert(exponent(ONE_BITS) == -52);
    if is_zero(a) {
        lemma_product_with_zero(a, ONE_BITS);
    } else if is_finite(a) {
        let m = significand(a);
        lemma_rounded_of_number(a);
        lemma_rounded_of_scaled(is_negative(a), m, 52, exponent(a));
        assert(pow2(52) * m == m * pow2(52)) by (nonlinear_arith);
    }
}

/// A number times a finite number above zero is a number with the same
/// sign, and zero where the first is.
pub proof fn lemma_product_keeps_sign(a: u64, b: u64)
    requires
        !is_nan(a),
        is_positive_finite(b),
    ensures
        !is_nan(product(a, b)),
        is_negative(product(a, b)) == is_negative(a),
        is_zero(a) ==> is_zero(product(a, b)),
{
    reveal(product);
    if is_zero(a) {
        lemma_product_with_zero(a, b);
    } else if is_finite(a) {
        lemma_rounded_is_number(
            is_negative(a),
            significand(a) * significand(b),
            exponent(a) + exponent(b),
            false,
        );
    }
}

/// A number divided by a finite number above zero is a number with the
/// same sign, and zero where the first is.
pub proof fn lemma_quotient_keeps_sign(a: u64, b: u64)
    requires
        !is_nan(a),
        is_positive_finite(b),
    ensures
        !is_nan(quotient(a, b)),
        is_negative(quotient(a, b)) == is_negative(a),
        is_zero(a) ==> is_zero(quotient(a, b)),
{
    reveal(quotient);
    if is_finite(a) && !is_zero(a) {
        let scaled = normalized(significand(a)) * pow2(64);
        let divisor = normalized(significand(b));
        lemma_rounded_is_number(
            is_negative(a),
            scaled / divisor,
            normalized_exponent(significand(a), exponent(a)) - normalized_exponent(
                significand(b),
                exponent(b),
            ) - 64,
            scaled % divisor != 0,
        );
    }
}

/// The significand of a finite number other than zero, moved left until it
/// has 53 digits.
pub open spec fn normalized(m: nat) -> nat {
    m * pow2((53 - bit_length(m)) as nat)
}

/// The exponent that goes with the normalized significand, so that the
/// number is unchanged.
pub open spec fn normalized_exponent(m: nat, e: int) -> int {
    e - (53 - bit_length(m))
}

/// A significand below two to the power 53 has at most 53 digits, and the
/// normalized one has exactly 53.
pub proof fn lemma_normalized_bounds(m: nat)
    requires
        0 < m < 0x20_0000_0000_0000,
    ensures
        1 <= bit_length(m) <= 53,
        0x10_0000_0000_0000 <= normalized(m) < 0x20_0000_0000_0000,
{
    lemma_pow2_values();
    lemma_bit_length_bounds(m);
    let len = bit_length(m);
    if len > 53 {
        if len > 54 {
            lemma_pow2_strictly_increases(53, (len - 1) as nat);
        }
    }
    let k = (53 - len) as nat;
    lemma_pow2_pos(k);
    lemma_pow2_adds((len - 1) as nat, k);
    lemma_pow2_adds(len, k);
    lemma_mul_strict_inequality(m as int, pow2(len) as int, pow2(k) as int);
    lemma_mul_inequality(pow2((len - 1) as nat) as int, m as int, pow2(k) as int);
}

/// The integer quotient of one normalized significand, moved 64 places to
/// the left, by another has 64 or 65 digits: enough for the rounding to
/// see on which side of the middle the exact quotient lies.
pub proof fn lemma_quotient_digits(n1: nat, n2: nat)
    requires
        0x10_0000_0000_0000 <= n1 < 0x20_0000_0000_0000,
        0x10_0000_0000_0000 <= n2 < 0x20_0000_0000_0000,
    ensures
        0x8000_0000_0000_0000 <= (n1 * pow2(64)) / n2 < 0x2_0000_0000_0000_0000,
        64 <= bit_length((n1 * pow2(64)) / n2) <= 65,
{
    lemma_pow2_values();
    let scaled = (n1 * pow2(64)) as int;
    let q = scaled / (n2 as int);
    assert(scaled == n1 * 0x1_0000_0000_0000_0000);
    vstd::arithmetic::div_mod::lemma_fundamental_div_mod(scaled, n2 as int);
    vstd::arithmetic::div_mod::lemma_mod_bound(scaled, n2 as int);
    assert(q >= 0x8000_0000_0000_0000) by (nonlinear_arith)
        requires
            scaled == n2 * q + scaled % (n2 as int),
            0 <= scaled % (n2 as int) < n2,
            scaled >= 0x10_0000_0000_0000 * 0x1_0000_0000_0000_0000,
            n2 < 0x20_0000_0000_0000,
    ;
    assert(q < 0x2_0000_0000_0000_0000) by (nonlinear_arith)
        requires
            scaled == n2 * q + scaled % (n2 as int),
            0 <= scaled % (n2 as int),
            scaled < 0x20_0000_0000_0000 * 0x1_0000_0000_0000_0000,
            n2 >= 0x10_0000_0000_0000,
    ;
    vstd::arithmetic::power2::lemma_pow2_unfold(65);
    vstd::arithmetic::power2::lemma_pow2_unfold(64);
    if q < 0x1_0000_0000_0000_0000 {
        crate::rounding::lemma_bit_length_unique(q as nat, 64);
    } else {
        crate::rounding::lemma_bit_length_unique(q as nat, 65);
    }
}

/// The integer root of a radicand of 125 or 126 digits has 63 digits:
/// enough for the rounding to see on which side of the middle the exact
/// root lies.
pub proof fn lemma_root_digits(radicand: nat)
    requires
        0x1000_0000_0000_0000_0000_0000_0000_0000 <= radicand
            < 0x4000_0000_0000_0000_0000_0000_0000_0000,
    ensures
        0x4000_0000_0000_0000 <= integer_sqrt(radicand) < 0x8000_0000_0000_0000,
        bit_length(integer_sqrt(radicand)) == 63,
{
    let root = integer_sqrt(radicand) as int;
    lemma_integer_sqrt_bounds(radicand);
    assert(root >= 0x4000_0000_0000_0000) by (nonlinear_arith)
        requires
            root >= 0,
            radicand < (root + 1) * (root + 1),
            radicand >= 0x4000_0000_0000_0000 * 0x4000_0000_0000_0000,
    ;
    assert(root < 0x8000_0000_0000_0000) by (nonlinear_arith)
        requires
            root >= 0,
            root * root <= radicand,
            radicand < 0x8000_0000_0000_0000 * 0x8000_0000_0000_0000,
    ;
    vstd::arithmetic::power2::lemma2_to64();
    vstd::arithmetic::power2::lemma_pow2_unfold(63);
    vstd::arithmetic::power2::lemma_pow2_unfold(64);
    lemma_pow2_values();
    crate::rounding::lemma_bit_length_unique(root as nat, 63);
}

/// The quotient of two numbers. Not a number where either is, and for zero
/// by zero and infinity by infinity; infinite for infinity by a finite
/// number and for a number other than zero by zero; zero for a finite number
/// by infinity and for zero by another number; else the exact quotient,
/// rounded. The sign is negative where exactly one sign is.
#[verifier::opaque]
pub open spec fn quotient(a: u64, b: u64) -> u64 {
    let negative = is_negative(a) != is_negative(b);
    if is_nan(a) || is_nan(b) {
        NAN_BITS
    } else if is_infinite(a) {
        if is_infinite(b) {
            NAN_BITS
        } else {
            (sign_bits(negative) + INFINITY_BITS) as u64
        }
    } else if is_infinite(b) {
        sign_bits(negative)
    } else if is_zero(b) {
        if is_zero(a) {
            NAN_BITS
        } else {
            (sign_bits(negative) + INFINITY_BITS) as u64
        }
    } else if is_zero(a) {
        sign_bits(negative)
    } else {
        let scaled = normalized(significand(a)) * pow2(64);
        let divisor = normalized(significand(b));
        rounded(
            negative,
            scaled / divisor,
            normalized_exponent(significand(a), exponent(a)) - normalized_exponent(
                significand(b),
                exponent(b),
            ) - 64,
            scaled % divisor != 0,
        )
    }
}

/// The integer square root: the largest `r` with `r * r <= n`.
pub open spec fn integer_sqrt(n: nat) -> nat
    decreases n,
{
    if n == 0 {
        0
    } else {
        let r = 2 * integer_sqrt(n / 4);
        if (r + 1) * (r + 1) <= n {
            r + 1
        } else {
            r
        }
    }
}

/// The square of the integer square root does not exceed `n`, and the
/// square of the next integer does.
pub proof fn lemma_integer_sqrt_bounds(n: nat)
    ensures
        integer_sqrt(n) * integer_sqrt(n) <= n,
        n < (integer_sqrt(n) + 1) * (integer_sqrt(n) + 1),
    decreases n,
{
    if n > 0 {
        let q = n / 4;
        let s = integer_sqrt(q);
        lemma_integer_sqrt_bounds(q);
        let r = 2 * s;
        assert(r * r <= n && n < (r + 1 + 1) * (r + 1 + 1)) by (nonlinear_arith)
            requires
                r == 2 * s,
                s * s <= q,
                q < (s + 1) * (s + 1),
                4 * q <= n < 4 * q + 4,
        ;
        let root = integer_sqrt(n);
        if (r + 1) * (r + 1) <= n {
            assert(root == r + 1);
            assert(root * root <= n);
            assert((root + 1) * (root + 1) == (r + 1 + 1) * (r + 1 + 1));
        } else {
            assert(root == r);
            assert((root + 1) * (root + 1) == (r + 1) * (r + 1));
        }
    } else {
        assert(integer_sqrt(n) == 0);
        assert(integer_sqrt(n) * integer_sqrt(n) == 0) by (nonlinear_arith)
            requires
                integer_sqrt(n) == 0,
        ;
        assert((integer_sqrt(n) + 1) * (integer_sqrt(n) + 1) == 1) by (nonlinear_arith)
            requires
                integer_sqrt(n) == 0,
        ;
    }
}

/// Only the integer square root lies between these bounds.
pub proof fn lemma_integer_sqrt_unique(n: nat, r: nat)
    requires
        r * r <= n,
        n < (r + 1) * (r + 1),
    ensures
        r == integer_sqrt(n),
{
    let s = integer_sqrt(n);
    lemma_integer_sqrt_bounds(n);
    assert(r == s) by (nonlinear_arith)
        requires
            r * r <= n,
            n < (r + 1) * (r + 1),
            s * s <= n,
            n < (s + 1) * (s + 1),
    ;
}

/// The square root of a number. Not a number for one and for a negative
/// number other than zero; each zero and positive infinity are their own
/// roots; else the exact root, rounded.
#[verifier::opaque]
pub open spec fn square_root(a: u64) -> u64 {
    if is_nan(a) {
        NAN_BITS
    } else if is_zero(a) {
        a
    } else if is_negative(a) {
        NAN_BITS
    } else if is_infinite(a) {
        a
    } else {
        let n = normalized(significand(a));
        let e = normalized_exponent(significand(a), exponent(a));
        let radicand = if e % 2 == 0 {
            n * pow2(72)
        } else {
            2 * n * pow2(72)
        };
        let even = if e % 2 == 0 {
            e
        } else {
            e - 1
        };
        let root = integer_sqrt(radicand);
        rounded(false, root, (even - 72) / 2, root * root != radicand)
    }
}

impl Double {
    /// The product of this number and the other.
    pub open spec fn times(self, other: Double) -> Double {
        Double { bits: product(self.bits, other.bits) }
    }

    /// The quotient of this number by the other.
    pub open spec fn over(self, other: Double) -> Double {
        Double { bits: quotient(self.bits, other.bits) }
    }

    /// The square root of this number.
    pub open spec fn root(self) -> Double {
        Double { bits: square_root(self.bits) }
    }

    /// The integer significand of a finite number.
    pub fn significand(&self) -> (m: u64)
        requires
            is_finite(self.bits),
        ensures
            m == significand(self.bits),
            m < 2 * HIDDEN_BIT,
    {
        let magnitude: u64 = self.magnitude();
        if magnitude / HIDDEN_BIT == 0 {
            magnitude % HIDDEN_BIT
        } else {
            magnitude % HIDDEN_BIT + HIDDEN_BIT
        }
    }

    /// The power of two that scales the significand of a finite number.
    pub fn exponent(&self) -> (e: i64)
        requires
            is_finite(self.bits),
        ensures
            e == exponent(self.bits),
            -1074 <= e <= 971,
    {
        let field: u64 = self.magnitude() / HIDDEN_BIT;
        if field == 0 {
            -1074
        } else {
            field as i64 - 1075
        }
    }

    /// Whether this is positive or negative zero.
    pub fn is_zero(&self) -> (b: bool)
        ensures
            b == is_zero(self.bits),
    {
        self.magnitude() == 0
    }

    /// Whether this is positive or negative infinity.
    pub fn is_infinite(&self) -> (b: bool)
        ensures
            b == is_infinite(self.bits),
    {
        self.magnitude() == INFINITY_BITS
    }

    /// The product of this number and the other.
    pub fn mul(&self, other: &Double) -> (r: Double)
        ensures
            r == self.times(*other),
    {
        reveal(product);
        let negative: bool = self.is_sign_negative() != other.is_sign_negative();
        let sign: u64 = if negative {
            SIGN_BIT
        } else {
            0
        };
        if self.is_nan() || other.is_nan() {
            Double { bits: NAN_BITS }
        } else if self.is_infinite() || other.is_infinite() {
            if self.is_zero() || other.is_zero() {
                Double { bits: NAN_BITS }
            } else {
                Double { bits: sign + INFINITY_BITS }
            }
        } else {
            let m1: u128 = self.significand() as u128;
            let m2: u128 = other.significand() as u128;
            assert(m1 * m2 <= 0x20_0000_0000_0000 * 0x20_0000_0000_0000) by (nonlinear_arith)
                requires
                    0 <= m1 <= 0x20_0000_0000_0000,
                    0 <= m2 <= 0x20_0000_0000_0000,
            ;
            Double { bits: round_pack(negative, m1 * m2, self.exponent() + other.exponent(), false) }
        }
    }

    /// The significand of a finite number other than zero, moved left until
    /// it has 53 digits, and the exponent that goes with it.
    pub fn normalized(&self) -> (r: (u64, i64))
        requires
            is_finite(self.bits),
            !is_zero(self.bits),
        ensures
            r.0 == normalized(significand(self.bits)),
            r.1 == normalized_exponent(significand(self.bits), exponent(self.bits)),
            HIDDEN_BIT <= r.0 < 2 * HIDDEN_BIT,
            -1126 <= r.1 <= 971,
    {
        let m: u64 = self.significand();
        let e: i64 = self.exponent();
        proof {
            lemma_normalized_bounds(m as nat);
        }
        let gap: u32 = 53 - bit_length_of(m as u128);
        let p: u128 = power_of_two(gap);
        ((m as u128 * p) as u64, e - gap as i64)
    }

    /// The quotient of this number by the other.
    pub fn div(&self, other: &Double) -> (r: Double)
        ensures
            r == self.over(*other),
    {
        reveal(quotient);
        let negative: bool = self.is_sign_negative() != other.is_sign_negative();
        let sign: u64 = if negative {
            SIGN_BIT
        } else {
            0
        };
        if self.is_nan() || other.is_nan() {
            Double { bits: NAN_BITS }
        } else if self.is_infinite() {
            if other.is_infinite() {
                Double { bits: NAN_BITS }
            } else {
                Double { bits: sign + INFINITY_BITS }
            }
        } else if other.is_infinite() {
            Double { bits: sign }
        } else if other.is_zero() {
            if self.is_zero() {
                Double { bits: NAN_BITS }
            } else {
                Double { bits: sign + INFINITY_BITS }
            }
        } else if self.is_zero() {
            Double { bits: sign }
        } else {
            let (n1, e1): (u64, i64) = self.normalized();
            let (n2, e2): (u64, i64) = other.normalized();
            proof {
                lemma_pow2_values();
            }
            let scaled: u128 = n1 as u128 * 0x1_0000_0000_0000_0000;
            let divisor: u128 = n2 as u128;
            Double {
                bits: round_pack(
                    negative,
                    scaled / divisor,
                    e1 - e2 - 64,
                    scaled % divisor != 0,
                ),
            }
        }
    }

    /// The square root of this number.
    pub fn sqrt(&self) -> (r: Double)
        ensures
            r == self.root(),
    {
        reveal(square_root);
        if self.is_nan() {
            Double { bits: NAN_BITS }
        } else if self.is_zero() {
            Double { bits: self.bits }
        } else if self.is_sign_negative() {
            Double { bits: NAN_BITS }
        } else if self.is_infinite() {
            Double { bits: self.bits }
        } else {
            let (n, e): (u64, i64) = self.normalized();
            proof {
                lemma_pow2_values();
                lemma_pow2_adds(64, 8);
                vstd::arithmetic::power2::lemma2_to64();
            }
            let is_even: bool = (e + 1126) % 2 == 0;
            let radicand: u128 = if is_even {
                n as u128 * 0x1_0000_0000_0000_0000_00
            } else {
                2 * (n as u128) * 0x1_0000_0000_0000_0000_00
            };
            let even: i64 = if is_even {
                e
            } else {
                e - 1
            };
            let root: u128 = integer_sqrt_of(radicand);
            proof {
                lemma_integer_sqrt_bounds(radicand as nat);
            }
            Double {
                bits: round_pack(
                    false,
                    root,
                    (even + 1200) / 2 - 636,
                    root * root != radicand,
                ),
            }
        }
    }
}

/// The integer square root of `n`.
pub fn integer_sqrt_of(n: u128) -> (r: u128)
    ensures
        r == integer_sqrt(n as nat),
        r < 0x1_0000_0000_0000_0000,
{
    let mut low: u128 = 0;
    let mut high: u128 = 0x1_0000_0000_0000_0000;
    assert(0x1_0000_0000_0000_0000int * 0x1_0000_0000_0000_0000int
        == 0x1_0000_0000_0000_0000_0000_0000_0000_0000int) by (nonlinear_arith);
    while high - low > 1
        invariant
            low < high <= 0x1_0000_0000_0000_0000,
            low * low <= n,
            n < high * high,
        decreases high - low,
    {
        let middle: u128 = low + (high - low) / 2;
        assert(middle * middle <= 0xFFFF_FFFF_FFFF_FFFF * 0xFFFF_FFFF_FFFF_FFFF)
            by (nonlinear_arith)
            requires
                0 <= middle <= 0xFFFF_FFFF_FFFF_FFFF,
        ;
        if middle * middle <= n {
            low = middle;
        } else {
            high = middle;
        }
    }
    proof {
        lemma_integer_sqrt_unique(n as nat, low as nat);
    }
    low
}

} // verus!
