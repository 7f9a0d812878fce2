//! Multiplying by a power of two moves the exponent and leaves the digits
//! alone, as long as the results stay clear of the smallest and the largest
//! numbers. So the length of a pair scaled by a power of two is that power
//! times the length.
use vstd::prelude::*;
use vstd::arithmetic::power2::{pow2, lemma_pow2_pos};
use crate::addition::{signed, sum, lemma_sum_of_zeros, lemma_sum_with_zero};
use crate::arithmetic::{
    product,
    square_root,
    normalized,
    normalized_exponent,
    integer_sqrt,
    lemma_product_with_zero,
};
use crate::double::{
    Double,
    HIDDEN_BIT,
    INFINITY_BITS,
    exponent,
    exponent_field,
    is_finite,
    is_negative,
    is_zero,
    magnitude_bits,
    significand,
};
use crate::nearest::{
    lemma_rounded_is_number,
    lemma_rounded_of_number,
    lemma_rounded_of_scaled,
    lemma_rounded_significand_bounds,
};
use crate::rounding::{
    bit_length,
    last_place,
    rounded,
    rounded_significand,
    lemma_bit_length_bounds,
    lemma_pow2_values,
};
use crate::vector2d::Pair;

verus! {

/// Whether `a` is a normal number that is still normal, with the same
/// digits, after its exponent has moved by `j`. The very smallest normal
/// numbers are left out, since a rounding up from below them looks the same.
pub open spec fn keeps_digits(a: u64, j: int) -> bool {
    is_finite(a) && 2 <= exponent_field(a) && 2 <= exponent_field(a) + j <= 2046
}

/// The encoding of `a` times two to the power `j`, where `a` keeps its
/// digits; a zero stays as it is.
pub open spec fn shifted(a: u64, j: int) -> u64 {
    if is_zero(a) {
        a
    } else {
        (a + j * HIDDEN_BIT) as u64
    }
}

/// The encoding of two to the power `j`, for `j` from -1022 to 1023.
pub open spec fn power_of_two_bits(j: int) -> u64 {
    ((j + 1023) * HIDDEN_BIT) as u64
}

/// A number that keeps its digits has, after the move, the same sign and
/// significand, and its exponent is larger by `j`.
pub proof fn lemma_shifted_is_scaled(a: u64, j: int)
    requires
        keeps_digits(a, j),
    ensures
        is_finite(shifted(a, j)),
        !is_zero(shifted(a, j)),
        !is_zero(a),
        is_negative(shifted(a, j)) == is_negative(a),
        significand(shifted(a, j)) == significand(a),
        exponent(shifted(a, j)) == exponent(a) + j,
        exponent_field(shifted(a, j)) == exponent_field(a) + j,
        significand(a) >= 0x10_0000_0000_0000,
{
    let m = magnitude_bits(a) as int;
    let field = exponent_field(a);
    assert(m == field * 0x10_0000_0000_0000 + m % 0x10_0000_0000_0000);
    let moved = m + j * 0x10_0000_0000_0000;
    assert(moved == (field + j) * 0x10_0000_0000_0000 + m % 0x10_0000_0000_0000);
    assert(moved / 0x10_0000_0000_0000 == field + j);
    assert(moved % 0x10_0000_0000_0000 == m % 0x10_0000_0000_0000);
    assert(magnitude_bits(shifted(a, j)) == moved);
}

/// Under the ideal last place the rounded significand has at most 53
/// digits, or is two to the power 52.
pub proof fn lemma_clamped_significand_is_small(m: nat, e: int, sticky: bool)
    requires
        m > 0,
        last_place(m, e) > e + bit_length(m) - 53,
    ensures
        rounded_significand(m, last_place(m, e) - e, sticky) <= 0x10_0000_0000_0000,
{
    lemma_pow2_values();
    lemma_bit_length_bounds(m);
    let len = bit_length(m);
    let shift = last_place(m, e) - e;
    if shift <= 0 {
        let k = (-shift) as nat;
        lemma_pow2_pos(k);
        vstd::arithmetic::power2::lemma_pow2_adds(len, k);
        crate::nearest::lemma_pow2_rises(len + k, 52);
        vstd::arithmetic::mul::lemma_mul_strict_inequality(
            m as int,
            pow2(len) as int,
            pow2(k) as int,
        );
    } else {
        let h = pow2((shift - 1) as nat) as int;
        lemma_pow2_pos((shift - 1) as nat);
        let upper = m as int / h;
        vstd::arithmetic::div_mod::lemma_div_pos_is_pos(m as int, h);
        if shift - 1 >= len {
            crate::nearest::lemma_pow2_rises(len, (shift - 1) as nat);
            vstd::arithmetic::div_mod::lemma_basic_div(m as int, h);
        } else {
            let above = (len - (shift - 1)) as nat;
            vstd::arithmetic::power2::lemma_pow2_adds((shift - 1) as nat, above);
            vstd::arithmetic::div_mod::lemma_multiply_divide_lt(m as int, h, pow2(above) as int);
            crate::nearest::lemma_pow2_rises(above, 53);
            assert(upper < 0x20_0000_0000_0000);
        }
    }
}

/// Where a value rounds to a number that keeps its digits, the value at an
/// exponent larger by `j` rounds to that number with its exponent moved.
pub proof fn lemma_rounded_shifted(negative: bool, m: nat, e: int, sticky: bool, j: int)
    requires
        m > 0,
        keeps_digits(rounded(negative, m, e, sticky), j),
    ensures
        rounded(negative, m, e + j, sticky) == shifted(rounded(negative, m, e, sticky), j),
{
    reveal(rounded);
    let r = rounded(negative, m, e, sticky);
    let place = last_place(m, e);
    let mantissa = rounded_significand(m, place - e, sticky);
    let magnitude = (place + 1074) * HIDDEN_BIT + mantissa;
    lemma_rounded_significand_bounds(m, e, sticky);
    assert(magnitude < INFINITY_BITS);
    assert(magnitude_bits(r) == magnitude);
    assert(magnitude / 0x10_0000_0000_0000 >= 2);
    if place > e + bit_length(m) - 53 {
        lemma_clamped_significand_is_small(m, e, sticky);
    }
    assert(place == e + bit_length(m) - 53);
    assert(magnitude / 0x10_0000_0000_0000 <= place + 1076);
    assert(last_place(m, e + j) == place + j);
    let moved = magnitude + j * HIDDEN_BIT;
    assert(moved == (place + j + 1074) * HIDDEN_BIT + mantissa);
    assert(moved / 0x10_0000_0000_0000 == magnitude / 0x10_0000_0000_0000 + j);
    assert(moved < INFINITY_BITS);
}

/// A number that keeps its digits, or a zero, times two to the power `j`
/// is the number with its exponent moved by `j`.
pub proof fn lemma_product_with_power_of_two(a: u64, j: int)
    requires
        -1022 <= j <= 1023,
        is_zero(a) || keeps_digits(a, j),
    ensures
        product(a, power_of_two_bits(j)) == shifted(a, j),
        product(power_of_two_bits(j), a) == shifted(a, j),
{
    reveal(product);
    lemma_pow2_values();
    let k = power_of_two_bits(j);
    assert(k == (j + 1023) * 0x10_0000_0000_0000);
    assert(magnitude_bits(k) == k);
    assert(exponent_field(k) == j + 1023);
    assert(significand(k) == pow2(52));
    assert(exponent(k) == j - 52);
    if is_zero(a) {
        lemma_product_with_zero(a, k);
    } else {
        let m = significand(a);
        lemma_shifted_is_scaled(a, j);
        lemma_rounded_of_number(a);
        lemma_rounded_of_scaled(is_negative(a), m, 52, exponent(a) + j);
        lemma_rounded_shifted(is_negative(a), m, exponent(a), false, j);
        assert(pow2(52) * m == m * pow2(52)) by (nonlinear_arith);
    }
}

/// The square of a number with its exponent moved by `j` is the square of
/// the number with its exponent moved by twice `j`, where both keep their
/// digits.
pub proof fn lemma_square_of_shifted(a: u64, j: int)
    requires
        is_zero(a) || (keeps_digits(a, j) && keeps_digits(product(a, a), 2 * j)),
    ensures
        product(shifted(a, j), shifted(a, j)) == shifted(product(a, a), 2 * j),
        !is_negative(product(a, a)),
        is_zero(a) ==> is_zero(product(a, a)),
{
    reveal(product);
    if is_zero(a) {
        lemma_product_with_zero(a, a);
    } else {
        let m = significand(a);
        lemma_shifted_is_scaled(a, j);
        assert(m * m > 0) by (nonlinear_arith)
            requires
                m > 0,
        ;
        lemma_rounded_shifted(false, m * m, exponent(a) + exponent(a), false, 2 * j);
        lemma_rounded_is_number(false, m * m, exponent(a) + exponent(a), false);
    }
}

/// The sum of two numbers that are zero or more, each with its exponent
/// moved by `j`, is their sum with its exponent moved by `j`, where all
/// three keep their digits or are zero.
pub proof fn lemma_sum_of_shifted(a: u64, b: u64, j: int)
    requires
        !is_negative(a),
        !is_negative(b),
        is_zero(a) || keeps_digits(a, j),
        is_zero(b) || keeps_digits(b, j),
        (is_zero(a) && is_zero(b)) || keeps_digits(sum(a, b), j),
    ensures
        sum(shifted(a, j), shifted(b, j)) == shifted(sum(a, b), j),
        !is_negative(sum(a, b)),
        is_zero(a) && is_zero(b) ==> is_zero(sum(a, b)),
{
    if is_zero(a) && is_zero(b) {
        lemma_sum_of_zeros(a, b);
    } else if is_zero(b) {
        lemma_shifted_is_scaled(a, j);
        lemma_sum_with_zero(a, b);
        lemma_sum_with_zero(shifted(a, j), b);
    } else if is_zero(a) {
        lemma_shifted_is_scaled(b, j);
        lemma_sum_with_zero(b, a);
        lemma_sum_with_zero(shifted(b, j), a);
    } else {
        reveal(sum);
        lemma_shifted_is_scaled(a, j);
        lemma_shifted_is_scaled(b, j);
        let e = if exponent(a) <= exponent(b) {
            exponent(a)
        } else {
            exponent(b)
        };
        let ka = (exponent(a) - e) as nat;
        let kb = (exponent(b) - e) as nat;
        let total = signed(false, significand(a)) * pow2(ka) + signed(false, significand(b))
            * pow2(kb);
        lemma_pow2_pos(ka);
        lemma_pow2_pos(kb);
        assert(significand(a) * pow2(ka) > 0) by (nonlinear_arith)
            requires
                significand(a) > 0,
                pow2(ka) > 0,
        ;
        assert(significand(b) * pow2(kb) > 0) by (nonlinear_arith)
            requires
                significand(b) > 0,
                pow2(kb) > 0,
        ;
        assert(total > 0);
        assert(sum(a, b) == rounded(false, total as nat, e, false));
        assert(sum(shifted(a, j), shifted(b, j)) == rounded(false, total as nat, e + j, false));
        lemma_rounded_shifted(false, total as nat, e, false, j);
        lemma_rounded_is_number(false, total as nat, e, false);
    }
}

/// The root of a number above zero with its exponent moved by twice `j` is
/// the root of the number with its exponent moved by `j`, where both keep
/// their digits; the root of a zero is that zero.
pub proof fn lemma_root_of_shifted(a: u64, j: int)
    requires
        !is_negative(a),
        is_zero(a) || (keeps_digits(a, 2 * j) && keeps_digits(square_root(a), j)),
    ensures
        square_root(shifted(a, 2 * j)) == shifted(square_root(a), j),
        is_zero(a) ==> is_zero(square_root(a)),
{
    reveal(square_root);
    if !is_zero(a) {
        lemma_shifted_is_scaled(a, 2 * j);
        let n = normalized(significand(a));
        let e = normalized_exponent(significand(a), exponent(a));
        let radicand = if e % 2 == 0 {
            n * pow2(72)
        } else {
            2 * n * pow2(72)
        };
        let even = if e % 2 == 0 {
            e
        } else {
            e - 1
        };
        assert((e + 2 * j) % 2 == e % 2);
        assert((even + 2 * j - 72) / 2 == (even - 72) / 2 + j);
        let root = integer_sqrt(radicand);
        lemma_pow2_pos(72);
        crate::arithmetic::lemma_normalized_bounds(significand(a));
        assert(radicand >= 1) by (nonlinear_arith)
            requires
                n >= 1,
                pow2(72) >= 1,
                radicand == n * pow2(72) || radicand == 2 * n * pow2(72),
        ;
        crate::arithmetic::lemma_integer_sqrt_bounds(radicand);
        assert(root > 0) by (nonlinear_arith)
            requires
                radicand >= 1,
                radicand < (root + 1) * (root + 1),
                root >= 0,
        ;
        lemma_rounded_shifted(false, root, (even - 72) / 2, root * root != radicand, j);
    }
}

impl Pair {
    /// Whether scaling this pair by two to the power `j` only moves
    /// exponents: each component, each square, their sum and its root keep
    /// their digits, or are zero because a component is.
    pub open spec fn scales_exactly(self, j: int) -> bool {
        let squares = self.x.times(self.x).plus(self.y.times(self.y));
        &&& is_zero(self.x.bits) || (keeps_digits(self.x.bits, j) && keeps_digits(
            self.x.times(self.x).bits,
            2 * j,
        ))
        &&& is_zero(self.y.bits) || (keeps_digits(self.y.bits, j) && keeps_digits(
            self.y.times(self.y).bits,
            2 * j,
        ))
        &&& (is_zero(self.x.bits) && is_zero(self.y.bits)) || (keeps_digits(squares.bits, 2 * j)
            && keeps_digits(squares.root().bits, j))
    }
}

/// The length of a pair scaled by a power of two is that power times the
/// length of the pair, as long as the scaling only moves exponents.
pub proof fn lemma_magnitude_of_scaled(v: Pair, j: int)
    requires
        -1022 <= j <= 1023,
        v.scales_exactly(j),
    ensures
        v.scaled(Double::from_bits(power_of_two_bits(j))).magnitude() == Double::from_bits(
            power_of_two_bits(j),
        ).times(v.magnitude()),
{
    let k = power_of_two_bits(j);
    let x = v.x.bits;
    let y = v.y.bits;
    lemma_product_with_power_of_two(x, j);
    lemma_product_with_power_of_two(y, j);
    lemma_square_of_shifted(x, j);
    lemma_square_of_shifted(y, j);
    let xx = product(x, x);
    let yy = product(y, y);
    lemma_sum_of_shifted(xx, yy, 2 * j);
    let squares = sum(xx, yy);
    lemma_root_of_shifted(squares, j);
    let length = square_root(squares);
    if !is_zero(squares) {
        lemma_product_with_power_of_two(length, j);
    } else {
        lemma_product_with_zero(length, k);
        assert(is_finite(k));
        assert(!is_negative(k));
        reveal(square_root);
    }
}

} // verus!
