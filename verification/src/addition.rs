//! Sums and differences of binary64 numbers.
use vstd::prelude::*;
use vstd::arithmetic::power2::{
    pow2,
    lemma_pow2_pos,
    lemma_pow2_adds,
    lemma_pow2_unfold,
    lemma_pow2_strictly_increases,
    lemma2_to64,
};
use vstd::arithmetic::div_mod::lemma_fundamental_div_mod_converse;
use crate::double::{
    Double,
    HIDDEN_BIT,
    SIGN_BIT,
    NAN_BITS,
    is_nan,
    is_infinite,
    is_finite,
    is_negative,
    is_zero,
    less_than,
    order_key,
    magnitude_bits,
    sign_bits,
    significand,
    exponent,
};
use crate::nearest::{
    lemma_pow2_rises,
    lemma_rounded_holds_value,
    lemma_rounded_is_number,
    lemma_rounded_of_number,
    lemma_rounded_of_scaled,
    lemma_rounded_rises,
};
use crate::rounding::{
    rounded,
    rounded_significand,
    last_place,
    round_pack,
    power_of_two,
    bit_length,
    lemma_bit_length_bounds,
    lemma_bit_length_unique,
    lemma_pow2_values,
};

verus! {

/// A significand with its sign.
pub open spec fn signed(negative: bool, m: nat) -> int {
    if negative {
        -(m as int)
    } else {
        m as int
    }
}

/// The sum of two finite numbers, each given by sign, significand and
/// exponent: both are written as multiples of two to the smaller exponent,
/// the multiples are added exactly, and the total is rounded. A total of
/// zero is negative only where both numbers are.
pub open spec fn finite_sum(
    a_negative: bool,
    a_m: nat,
    a_e: int,
    b_negative: bool,
    b_m: nat,
    b_e: int,
) -> u64 {
    let e = if a_e <= b_e {
        a_e
    } else {
        b_e
    };
    let total = signed(a_negative, a_m) * pow2((a_e - e) as nat) + signed(b_negative, b_m) * pow2(
        (b_e - e) as nat,
    );
    if total == 0 {
        sign_bits(a_negative && b_negative)
    } else if total < 0 {
        rounded(true, (-total) as nat, e, false)
    } else {
        rounded(false, total as nat, e, false)
    }
}

/// The sum of two numbers. Not a number where either is, and for two
/// infinities of opposite sign; an infinity plus anything else is that
/// infinity; else the exact sum, rounded.
#[verifier::opaque]
pub open spec fn sum(a: u64, b: u64) -> u64 {
    if is_nan(a) || is_nan(b) {
        NAN_BITS
    } else if is_infinite(a) {
        if is_infinite(b) && is_negative(a) != is_negative(b) {
            NAN_BITS
        } else {
            a
        }
    } else if is_infinite(b) {
        b
    } else {
        finite_sum(
            is_negative(a),
            significand(a),
            exponent(a),
            is_negative(b),
            significand(b),
            exponent(b),
        )
    }
}

/// The encoding with the sign bit flipped.
pub open spec fn negated(a: u64) -> u64 {
    (sign_bits(!is_negative(a)) + magnitude_bits(a)) as u64
}

/// The difference of two numbers: the sum of the first and the negated
/// second, but not a number where either is.
#[verifier::opaque]
pub open spec fn difference(a: u64, b: u64) -> u64 {
    if is_nan(a) || is_nan(b) {
        NAN_BITS
    } else {
        sum(a, negated(b))
    }
}

/// The sum of two zeros is zero, negative only where both are.
pub proof fn lemma_sum_of_zeros(a: u64, b: u64)
    requires
        is_zero(a),
        is_zero(b),
    ensures
        sum(a, b) == sign_bits(is_negative(a) && is_negative(b)),
{
    reveal(sum);
    assert(significand(a) == 0 && significand(b) == 0);
    assert(exponent(a) == exponent(b));
    lemma2_to64();
    assert(signed(is_negative(a), 0) * pow2(0) == 0) by (nonlinear_arith)
        requires
            signed(is_negative(a), 0) == 0,
    ;
    assert(signed(is_negative(b), 0) * pow2(0) == 0) by (nonlinear_arith)
        requires
            signed(is_negative(b), 0) == 0,
    ;
}

/// A normal significand `m1` at an exponent 55 or more places above that of
/// a term `t` of fewer than 54 digits: the term is less than a quarter of
/// the last place of `m1`, and the sum rounds back to `m1`.
pub proof fn lemma_far_term_is_absorbed(negative: bool, m1: nat, e1: int, t: int, e2: int)
    requires
        0x10_0000_0000_0000 <= m1 < 0x20_0000_0000_0000,
        -0x20_0000_0000_0000 < t < 0x20_0000_0000_0000,
        e1 - e2 >= 55,
        e2 >= -1074,
        e1 <= 971,
    ensures
        m1 * pow2((e1 - e2) as nat) + t > 0,
        rounded(negative, (m1 * pow2((e1 - e2) as nat) + t) as nat, e2, false) == sign_bits(
            negative,
        ) + (e1 + 1074) * HIDDEN_BIT + m1,
{
    reveal(rounded);
    let d = (e1 - e2) as nat;
    let whole = pow2(d) as int;
    let half = pow2((d - 1) as nat) as int;
    let quarter = pow2((d - 2) as nat) as int;
    lemma_pow2_values();
    lemma_pow2_unfold(d);
    lemma_pow2_unfold((d - 1) as nat);
    lemma_pow2_pos((d - 2) as nat);
    if d - 2 > 53 {
        lemma_pow2_strictly_increases(53, (d - 2) as nat);
    }
    assert(quarter >= 0x20_0000_0000_0000);
    assert(half == 2 * quarter);
    assert(whole == 4 * quarter);
    lemma_pow2_adds(52, d);
    lemma_pow2_adds(53, d);
    lemma_pow2_adds(53, (d - 2) as nat);
    lemma_pow2_adds(54, (d - 2) as nat);
    lemma2_to64();
    let total = m1 * whole + t;
    let m = m1 as int;
    assert(m * whole == (4 * m) * quarter) by (nonlinear_arith)
        requires
            whole == 4 * quarter,
    ;
    assert((4 * m) * quarter >= 0x40_0000_0000_0000 * quarter) by (nonlinear_arith)
        requires
            m >= 0x10_0000_0000_0000,
            quarter > 0,
    ;
    assert((4 * m) * quarter <= 0x80_0000_0000_0000 * quarter - 4 * quarter) by (nonlinear_arith)
        requires
            m < 0x20_0000_0000_0000,
            quarter > 0,
    ;
    assert(pow2(52 + d) == 0x40_0000_0000_0000 * quarter) by (nonlinear_arith)
        requires
            pow2(52 + d) == 0x10_0000_0000_0000 * whole,
            whole == 4 * quarter,
    ;
    assert(pow2(53 + d) == 0x80_0000_0000_0000 * quarter) by (nonlinear_arith)
        requires
            pow2(53 + d) == 0x20_0000_0000_0000 * whole,
            whole == 4 * quarter,
    ;
    assert(pow2((51 + d) as nat) == 0x20_0000_0000_0000 * quarter);
    assert(total > 0);
    if t >= 0 || m1 > 0x10_0000_0000_0000 {
        assert(pow2(52 + d) <= total) by (nonlinear_arith)
            requires
                total == (4 * m) * quarter + t,
                pow2(52 + d) == 0x40_0000_0000_0000 * quarter,
                m >= 0x10_0000_0000_0000,
                t >= 0 || m > 0x10_0000_0000_0000,
                quarter >= 0x20_0000_0000_0000,
                -0x20_0000_0000_0000 < t,
        ;
        lemma_bit_length_unique(total as nat, 53 + d);
        assert(last_place(total as nat, e2) == e1);
        let upper = if t >= 0 {
            2 * m
        } else {
            2 * m - 1
        };
        let rest = if t >= 0 {
            t
        } else {
            half + t
        };
        assert(total == upper * half + rest) by (nonlinear_arith)
            requires
                total == (4 * m) * quarter + t,
                half == 2 * quarter,
                upper == (if t >= 0 {
                    2 * m
                } else {
                    2 * m - 1
                }),
                rest == (if t >= 0 {
                    t
                } else {
                    half + t
                }),
        ;
        lemma_fundamental_div_mod_converse(total, half, upper, rest);
        assert(rounded_significand(total as nat, d as int, false) == m1);
    } else {
        assert(pow2((51 + d) as nat) <= total) by (nonlinear_arith)
            requires
                total == (4 * m) * quarter + t,
                pow2((51 + d) as nat) == 0x20_0000_0000_0000 * quarter,
                m == 0x10_0000_0000_0000,
                quarter >= 0x20_0000_0000_0000,
                -0x20_0000_0000_0000 < t,
        ;
        assert(total < pow2(52 + d));
        lemma_bit_length_unique(total as nat, 52 + d);
        assert(last_place(total as nat, e2) == e1 - 1);
        let upper = 0x40_0000_0000_0000 - 1;
        let rest = quarter + t;
        assert(total == upper * quarter + rest) by (nonlinear_arith)
            requires
                total == (4 * m) * quarter + t,
                m == 0x10_0000_0000_0000,
                upper == 0x40_0000_0000_0000 - 1,
                rest == quarter + t,
        ;
        lemma_fundamental_div_mod_converse(total, quarter, upper, rest);
        assert(rounded_significand(total as nat, d - 1, false) == 0x20_0000_0000_0000);
    }
}

/// The sum of two finite numbers of which the first has the larger
/// exponent, or the same.
fn add_ordered(high: &Double, low: &Double) -> (bits: u64)
    requires
        is_finite(high.bits),
        is_finite(low.bits),
        exponent(high.bits) >= exponent(low.bits),
    ensures
        bits == finite_sum(
            is_negative(high.bits),
            significand(high.bits),
            exponent(high.bits),
            is_negative(low.bits),
            significand(low.bits),
            exponent(low.bits),
        ),
{
    let high_negative: bool = high.is_sign_negative();
    let low_negative: bool = low.is_sign_negative();
    let m1: u128 = high.significand() as u128;
    let m2: u128 = low.significand() as u128;
    let e1: i64 = high.exponent();
    let e2: i64 = low.exponent();
    let distance: i64 = e1 - e2;
    proof {
        lemma_pow2_values();
        lemma2_to64();
    }
    proof {
        assert(pow2(0) == 1);
        assert(signed(low_negative, m2 as nat) * pow2(0) == signed(low_negative, m2 as nat))
            by (nonlinear_arith)
            requires
                pow2(0) == 1,
        ;
    }
    let ghost span = pow2(distance as nat) as int;
    let ghost high_part = signed(high_negative, m1 as nat) * span;
    let ghost total = high_part + signed(low_negative, m2 as nat);
    proof {
        let m = m1 as int;
        assert((-m) * span == -(m * span)) by (nonlinear_arith);
        assert(high_part == if high_negative {
            -(m * span)
        } else {
            m * span
        });
    }
    if distance > 64 {
        proof {
            let t = signed(low_negative != high_negative, m2 as nat);
            lemma_far_term_is_absorbed(high_negative, m1 as nat, e1 as int, t, e2 as int);
            assert(magnitude_bits(high.bits) == (e1 + 1074) * HIDDEN_BIT + m1);
            if high_negative {
                assert(-total == m1 * span + t);
            } else {
                assert(total == m1 * span + t);
            }
        }
        return high.bits;
    }
    let whole: u128 = power_of_two(distance as u32);
    proof {
        if distance < 64 {
            lemma_pow2_strictly_increases(distance as nat, 64);
        }
        let m = m1 as int;
        let w = whole as int;
        assert(m * w <= 0x20_0000_0000_0000 * 0x1_0000_0000_0000_0000) by (nonlinear_arith)
            requires
                0 <= m <= 0x20_0000_0000_0000,
                0 <= w <= 0x1_0000_0000_0000_0000,
        ;
        assert(0 <= m * w) by (nonlinear_arith)
            requires
                0 <= m,
                0 <= w,
        ;
    }
    let scaled: u128 = m1 * whole;
    if high_negative == low_negative {
        if scaled + m2 == 0 {
            if high_negative {
                SIGN_BIT
            } else {
                0
            }
        } else {
            round_pack(high_negative, scaled + m2, e2, false)
        }
    } else if scaled > m2 {
        round_pack(high_negative, scaled - m2, e2, false)
    } else if scaled < m2 {
        round_pack(low_negative, m2 - scaled, e2, false)
    } else {
        0
    }
}

impl Double {
    /// The sum of this number and the other.
    pub open spec fn plus(self, other: Double) -> Double {
        Double { bits: sum(self.bits, other.bits) }
    }

    /// The difference of this number and the other.
    pub open spec fn minus(self, other: Double) -> Double {
        Double { bits: difference(self.bits, other.bits) }
    }

    /// This number with the opposite sign.
    pub open spec fn opposite(self) -> Double {
        Double { bits: negated(self.bits) }
    }

    /// The sum of this number and the other.
    pub fn add(&self, other: &Double) -> (r: Double)
        ensures
            r == self.plus(*other),
    {
        reveal(sum);
        if self.is_nan() || other.is_nan() {
            Double { bits: NAN_BITS }
        } else if self.is_infinite() {
            if other.is_infinite() && self.is_sign_negative() != other.is_sign_negative() {
                Double { bits: NAN_BITS }
            } else {
                Double { bits: self.bits }
            }
        } else if other.is_infinite() {
            Double { bits: other.bits }
        } else if self.exponent() >= other.exponent() {
            Double { bits: add_ordered(self, other) }
        } else {
            Double { bits: add_ordered(other, self) }
        }
    }

    /// This number with the opposite sign.
    pub fn neg(&self) -> (r: Double)
        ensures
            r == self.opposite(),
    {
        if self.is_sign_negative() {
            Double { bits: self.bits - SIGN_BIT }
        } else {
            Double { bits: self.bits + SIGN_BIT }
        }
    }

    /// The difference of this number and the other.
    pub fn sub(&self, other: &Double) -> (r: Double)
        ensures
            r == self.minus(*other),
    {
        reveal(difference);
        if self.is_nan() || other.is_nan() {
            Double { bits: NAN_BITS }
        } else {
            self.add(&other.neg())
        }
    }
}

/// The sum of two numbers that are not negative is a number that is not
/// negative.
pub proof fn lemma_sum_is_not_negative(a: u64, b: u64)
    requires
        !is_nan(a),
        !is_nan(b),
        !is_negative(a),
        !is_negative(b),
    ensures
        !is_nan(sum(a, b)),
        !is_negative(sum(a, b)),
{
    reveal(sum);
    if is_finite(a) && is_finite(b) {
        let e = if exponent(a) <= exponent(b) {
            exponent(a)
        } else {
            exponent(b)
        };
        let ka = (exponent(a) - e) as nat;
        let kb = (exponent(b) - e) as nat;
        let part_a = signed(false, significand(a)) * pow2(ka);
        let part_b = signed(false, significand(b)) * pow2(kb);
        assert(part_a >= 0) by (nonlinear_arith)
            requires
                part_a == signed(false, significand(a)) * pow2(ka),
                signed(false, significand(a)) >= 0,
        ;
        assert(part_b >= 0) by (nonlinear_arith)
            requires
                part_b == signed(false, significand(b)) * pow2(kb),
                signed(false, significand(b)) >= 0,
        ;
        if part_a + part_b > 0 {
            lemma_rounded_is_number(false, (part_a + part_b) as nat, e, false);
        }
    }
}

/// Adding a zero to a number other than zero leaves the number as it is.
pub proof fn lemma_sum_with_zero(a: u64, zero: u64)
    requires
        !is_nan(a),
        !is_zero(a),
        is_zero(zero),
    ensures
        sum(a, zero) == a,
        sum(zero, a) == a,
{
    reveal(sum);
    if is_finite(a) {
        let k = (exponent(a) - exponent(zero)) as nat;
        let m = significand(a);
        lemma2_to64();
        lemma_rounded_of_number(a);
        lemma_rounded_of_scaled(is_negative(a), m, k, exponent(a));
        assert(significand(zero) == 0);
        assert(signed(is_negative(zero), 0) * pow2(0) == 0) by (nonlinear_arith)
            requires
                signed(is_negative(zero), 0) == 0,
        ;
        assert((-(m as int)) * pow2(k) == -(m * pow2(k))) by (nonlinear_arith);
    }
}

/// Adding a number that is zero or more to a finite number gives a number
/// that is not below the finite one.
pub proof fn lemma_sum_does_not_fall(a: u64, b: u64)
    requires
        is_finite(a),
        !is_nan(b),
        order_key(b) >= 0,
    ensures
        !is_nan(sum(a, b)),
        order_key(sum(a, b)) >= order_key(a),
        !less_than(sum(a, b), a),
{
    reveal(sum);
    if is_finite(b) {
        let e = if exponent(a) <= exponent(b) {
            exponent(a)
        } else {
            exponent(b)
        };
        let ka = (exponent(a) - e) as nat;
        let kb = (exponent(b) - e) as nat;
        let ma = significand(a);
        let mb = significand(b);
        let part_a = signed(is_negative(a), ma) * pow2(ka);
        let part_b = signed(is_negative(b), mb) * pow2(kb);
        let total = part_a + part_b;
        lemma_pow2_pos(ka);
        lemma_pow2_pos(kb);
        assert(is_negative(b) ==> mb == 0);
        assert(part_b >= 0) by (nonlinear_arith)
            requires
                part_b == signed(is_negative(b), mb) * pow2(kb),
                signed(is_negative(b), mb) >= 0,
                pow2(kb) > 0,
        ;
        assert(part_a == if is_negative(a) {
            -(ma * pow2(ka))
        } else {
            (ma * pow2(ka)) as int
        }) by (nonlinear_arith)
            requires
                part_a == signed(is_negative(a), ma) * pow2(ka),
                signed(is_negative(a), ma) == (if is_negative(a) {
                    -(ma as int)
                } else {
                    ma as int
                }),
        ;
        assert(ma * pow2(ka) >= 0) by (nonlinear_arith)
            requires
                pow2(ka) > 0,
        ;
        assert(ma > 0 ==> ma * pow2(ka) > 0) by (nonlinear_arith)
            requires
                pow2(ka) > 0,
        ;
        assert(ma == 0 ==> ma * pow2(ka) == 0) by (nonlinear_arith);
        assert(ma == 0 ==> is_zero(a));
        if !is_zero(a) {
            lemma_rounded_of_number(a);
            lemma_rounded_of_scaled(is_negative(a), ma, ka, exponent(a));
            lemma_rounded_is_number(is_negative(a), ma * pow2(ka), e, false);
        }
        if total > 0 {
            lemma_rounded_is_number(false, total as nat, e, false);
            if !is_negative(a) && !is_zero(a) {
                lemma_rounded_rises(ma * pow2(ka), total as nat, e);
            }
        } else if total < 0 {
            lemma_rounded_is_number(true, (-total) as nat, e, false);
            lemma_rounded_rises((-total) as nat, ma * pow2(ka), e);
        }
    }
}

/// The numbers for two values at one exponent add up to the number for the
/// sum of the values, where the format holds both values as they are.
pub proof fn lemma_sum_of_values(ma: nat, mb: nat, e: int)
    requires
        0 < ma < 0x20_0000_0000_0000,
        0 < mb < 0x20_0000_0000_0000,
        -1074 <= e <= 971,
    ensures
        sum(rounded(false, ma, e, false), rounded(false, mb, e, false)) == rounded(
            false,
            ma + mb,
            e,
            false,
        ),
{
    reveal(sum);
    lemma_pow2_values();
    lemma_bit_length_bounds(ma);
    lemma_bit_length_bounds(mb);
    if bit_length(ma) > 53 {
        lemma_pow2_rises(53, (bit_length(ma) - 1) as nat);
    }
    if bit_length(mb) > 53 {
        lemma_pow2_rises(53, (bit_length(mb) - 1) as nat);
    }
    lemma_rounded_holds_value(ma, e);
    lemma_rounded_holds_value(mb, e);
    let a = rounded(false, ma, e, false);
    let b = rounded(false, mb, e, false);
    let place_a = last_place(ma, e);
    let place_b = last_place(mb, e);
    let low = if place_a <= place_b {
        place_a
    } else {
        place_b
    };
    let up_a = pow2((e - place_a) as nat) as int;
    let up_b = pow2((e - place_b) as nat) as int;
    let down_a = pow2((place_a - low) as nat) as int;
    let down_b = pow2((place_b - low) as nat) as int;
    let all = pow2((e - low) as nat) as int;
    lemma_pow2_adds((e - place_a) as nat, (place_a - low) as nat);
    lemma_pow2_adds((e - place_b) as nat, (place_b - low) as nat);
    lemma_pow2_pos((e - low) as nat);
    let total = signed(false, significand(a)) * down_a + signed(false, significand(b)) * down_b;
    assert(total == (ma + mb) * all) by (nonlinear_arith)
        requires
            total == (ma * up_a) * down_a + (mb * up_b) * down_b,
            all == up_a * down_a,
            all == up_b * down_b,
    ;
    assert(total > 0) by (nonlinear_arith)
        requires
            total == (ma + mb) * all,
            ma + mb > 0,
            all > 0,
    ;
    lemma_rounded_of_scaled(false, ma + mb, (e - low) as nat, e);
}

} // verus!
