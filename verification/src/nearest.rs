//! What rounding promises: the result is a number with the sign asked for,
//! it is the nearest one, a representable value comes back unchanged, and a
//! larger value never rounds to a smaller number.
use vstd::prelude::*;
use vstd::arithmetic::power2::{
    pow2,
    lemma_pow2_pos,
    lemma_pow2_adds,
    lemma_pow2_unfold,
    lemma_pow2_strictly_increases,
    lemma2_to64,
};
use vstd::arithmetic::mul::{lemma_mul_strict_inequality, lemma_mul_inequality};
use vstd::arithmetic::div_mod::{
    lemma_fundamental_div_mod,
    lemma_fundamental_div_mod_converse,
    lemma_multiply_divide_lt,
    lemma_div_is_ordered,
    lemma_div_multiples_vanish,
    lemma_mod_bound,
    lemma_div_pos_is_pos,
};
use crate::double::{
    HIDDEN_BIT,
    INFINITY_BITS,
    is_negative,
    is_nan,
    is_finite,
    is_zero,
    magnitude_bits,
    sign_bits,
    significand,
    exponent,
    min_exponent,
};
use crate::rounding::{
    rounded,
    rounded_significand,
    last_place,
    bit_length,
    lemma_bit_length_bounds,
    lemma_bit_length_unique,
    lemma_pow2_values,
};

verus! {

/// Powers of two rise with the exponent.
pub proof fn lemma_pow2_rises(a: nat, b: nat)
    requires
        a <= b,
    ensures
        pow2(a) <= pow2(b),
        pow2(a) > 0,
{
    lemma_pow2_pos(a);
    if a < b {
        lemma_pow2_strictly_increases(a, b);
    }
}

/// Rounding gives a number, not NaN, with the sign that was asked for.
pub proof fn lemma_rounded_is_number(negative: bool, m: nat, e: int, sticky: bool)
    ensures
        is_negative(rounded(negative, m, e, sticky)) == negative,
        magnitude_bits(rounded(negative, m, e, sticky)) <= INFINITY_BITS,
        !is_nan(rounded(negative, m, e, sticky)),
        rounded(negative, m, e, sticky) == sign_bits(negative) + rounded(false, m, e, sticky),
{
    reveal(rounded);
    if m != 0 {
        let place = last_place(m, e);
        let steps = place - min_exponent();
        assert(steps * HIDDEN_BIT >= 0) by (nonlinear_arith)
            requires
                steps >= 0,
        ;
    }
}

/// The rounded significand has at most 53 digits, or is two to the power
/// 53; where the last place is the ideal one, it has at least 53 digits.
pub proof fn lemma_rounded_significand_bounds(m: nat, e: int, sticky: bool)
    requires
        m > 0,
    ensures
        rounded_significand(m, last_place(m, e) - e, sticky) <= 0x20_0000_0000_0000,
        last_place(m, e) == e + bit_length(m) - 53 ==> rounded_significand(
            m,
            last_place(m, e) - e,
            sticky,
        ) >= 0x10_0000_0000_0000,
{
    lemma_pow2_values();
    lemma2_to64();
    lemma_bit_length_bounds(m);
    let len = bit_length(m);
    let shift = last_place(m, e) - e;
    let ideal = shift == len - 53;
    assert(shift >= len - 53);
    if shift <= 0 {
        let k = (-shift) as nat;
        lemma_pow2_pos(k);
        lemma_pow2_adds(len, k);
        lemma_pow2_rises(len + k, 53);
        lemma_mul_strict_inequality(m as int, pow2(len) as int, pow2(k) as int);
        if ideal {
            lemma_pow2_adds((len - 1) as nat, k);
            lemma_mul_inequality(pow2((len - 1) as nat) as int, m as int, pow2(k) as int);
        }
    } else {
        let h = pow2((shift - 1) as nat) as int;
        lemma_pow2_pos((shift - 1) as nat);
        let upper = m as int / h;
        lemma_div_pos_is_pos(m as int, h);
        if shift - 1 >= len {
            lemma_pow2_rises(len, (shift - 1) as nat);
            vstd::arithmetic::div_mod::lemma_basic_div(m as int, h);
            assert(upper == 0);
        } else {
            let above = (len - (shift - 1)) as nat;
            lemma_pow2_adds((shift - 1) as nat, above);
            lemma_multiply_divide_lt(m as int, h, pow2(above) as int);
            lemma_pow2_rises(above, 54);
            lemma_pow2_adds(53, 1);
            assert(upper < 0x40_0000_0000_0000);
        }
        if ideal {
            lemma_pow2_adds((shift - 1) as nat, 53);
            assert(pow2((len - 1) as nat) == h * 0x20_0000_0000_0000);
            lemma_div_is_ordered(h * 0x20_0000_0000_0000, m as int, h);
            lemma_div_multiples_vanish(0x20_0000_0000_0000, h);
            assert(upper >= 0x20_0000_0000_0000);
        }
    }
}

/// The rounded significand, put back at its place, is within half a last
/// place of the exact value; what `sticky` hides never makes it further;
/// and where the exact value lies in the middle between two candidates,
/// the even one is taken. Moving to the left loses nothing.
pub proof fn lemma_rounded_significand_is_nearest(m: nat, shift: int, sticky: bool)
    ensures
        shift <= 0 ==> rounded_significand(m, shift, sticky) == m * pow2((-shift) as nat),
        shift > 0 ==> ({
            let half = pow2((shift - 1) as nat);
            let back = rounded_significand(m, shift, sticky) * (2 * half);
            &&& m - half <= back <= m + half
            &&& sticky ==> m - half < back
            &&& !sticky && (back == m + half || back == m - half) ==> rounded_significand(
                m,
                shift,
                sticky,
            ) % 2 == 0
        }),
{
    if shift > 0 {
        let half = pow2((shift - 1) as nat) as int;
        lemma_pow2_pos((shift - 1) as nat);
        let upper = m as int / half;
        let rest = m as int % half;
        lemma_fundamental_div_mod(m as int, half);
        lemma_mod_bound(m as int, half);
        lemma_div_pos_is_pos(m as int, half);
        let kept = upper / 2;
        let guard = upper % 2;
        let r = rounded_significand(m, shift, sticky) as int;
        assert(upper == 2 * kept + guard);
        assert(m == (2 * kept + guard) * half + rest) by (nonlinear_arith)
            requires
                m == half * upper + rest,
                upper == 2 * kept + guard,
        ;
        assert(kept * (2 * half) == (2 * kept) * half) by (nonlinear_arith);
        assert((2 * kept + guard) * half == (2 * kept) * half + guard * half)
            by (nonlinear_arith);
        assert((kept + 1) * (2 * half) == kept * (2 * half) + 2 * half) by (nonlinear_arith);
        if guard == 0 {
            assert(guard * half == 0) by (nonlinear_arith)
                requires
                    guard == 0,
            ;
            assert(r == kept);
        } else {
            assert(guard == 1);
            assert(guard * half == half) by (nonlinear_arith)
                requires
                    guard == 1,
            ;
        }
    }
}

/// For one shift, a larger value never rounds to a smaller significand.
pub proof fn lemma_rounded_significand_rises(m1: nat, m2: nat, shift: int)
    requires
        m1 <= m2,
    ensures
        rounded_significand(m1, shift, false) <= rounded_significand(m2, shift, false),
{
    if shift <= 0 {
        let k = (-shift) as nat;
        lemma_pow2_pos(k);
        lemma_mul_inequality(m1 as int, m2 as int, pow2(k) as int);
    } else {
        let half = pow2((shift - 1) as nat) as int;
        lemma_pow2_pos((shift - 1) as nat);
        let upper1 = m1 as int / half;
        let upper2 = m2 as int / half;
        lemma_div_is_ordered(m1 as int, m2 as int, half);
        lemma_div_pos_is_pos(m1 as int, half);
        lemma_fundamental_div_mod(m1 as int, half);
        lemma_fundamental_div_mod(m2 as int, half);
        lemma_mod_bound(m1 as int, half);
        lemma_mod_bound(m2 as int, half);
        if upper1 == upper2 {
            assert(m1 as int % half <= m2 as int % half);
        }
    }
}

/// The bit length rises with the number.
pub proof fn lemma_bit_length_rises(m1: nat, m2: nat)
    requires
        m1 <= m2,
    ensures
        bit_length(m1) <= bit_length(m2),
{
    lemma_bit_length_bounds(m1);
    lemma_bit_length_bounds(m2);
    if bit_length(m1) > bit_length(m2) {
        lemma_pow2_rises(bit_length(m2), (bit_length(m1) - 1) as nat);
    }
}

/// Of two values at one exponent, the larger never rounds to the smaller
/// number.
pub proof fn lemma_rounded_rises(m1: nat, m2: nat, e: int)
    requires
        m1 <= m2,
    ensures
        rounded(false, m1, e, false) <= rounded(false, m2, e, false),
{
    reveal(rounded);
    lemma_rounded_is_number(false, m2, e, false);
    if m1 > 0 {
        lemma_bit_length_rises(m1, m2);
        lemma_rounded_significand_bounds(m1, e, false);
        lemma_rounded_significand_bounds(m2, e, false);
        let place1 = last_place(m1, e);
        let place2 = last_place(m2, e);
        if place1 == place2 {
            lemma_rounded_significand_rises(m1, m2, place1 - e);
        }
    }
}

/// A value written with `k` more binary places rounds to the same number.
pub proof fn lemma_rounded_of_scaled(negative: bool, m: nat, k: nat, e: int)
    requires
        m > 0,
    ensures
        m * pow2(k) > 0,
        rounded(negative, m * pow2(k), e - k, false) == rounded(negative, m, e, false),
{
    reveal(rounded);
    let scale = pow2(k) as int;
    let wide = m * pow2(k);
    let len = bit_length(m);
    lemma_pow2_pos(k);
    lemma_bit_length_bounds(m);
    lemma_pow2_adds((len - 1) as nat, k);
    lemma_pow2_adds(len, k);
    lemma_mul_strict_inequality(m as int, pow2(len) as int, scale);
    lemma_mul_inequality(pow2((len - 1) as nat) as int, m as int, scale);
    lemma_pow2_pos((len - 1) as nat);
    assert(wide > 0) by (nonlinear_arith)
        requires
            wide == m * scale,
            m > 0,
            scale > 0,
    ;
    lemma_bit_length_unique(wide, len + k);
    let place = last_place(m, e);
    assert(last_place(wide, e - k) == place);
    let shift = place - e;
    if shift + k <= 0 {
        lemma_pow2_adds(k, (-shift - k) as nat);
        assert(m * scale * pow2((-shift - k) as nat) == m * pow2((-shift) as nat))
            by (nonlinear_arith)
            requires
                scale * pow2((-shift - k) as nat) == pow2((-shift) as nat),
        ;
    } else if shift <= 0 {
        let half = pow2((shift + k - 1) as nat) as int;
        let left = pow2((-shift) as nat) as int;
        lemma_pow2_pos((shift + k - 1) as nat);
        lemma_pow2_pos((-shift) as nat);
        lemma_pow2_adds((1 - shift) as nat, (shift + k - 1) as nat);
        lemma_pow2_unfold((1 - shift) as nat);
        let upper = 2 * (m * left);
        assert(wide == upper * half + 0) by (nonlinear_arith)
            requires
                wide == m * scale,
                scale == (2 * left) * half,
                upper == 2 * (m * left),
        ;
        lemma_fundamental_div_mod_converse(wide as int, half, upper, 0);
    } else {
        let half = pow2((shift - 1) as nat) as int;
        lemma_pow2_pos((shift - 1) as nat);
        lemma_pow2_adds(k, (shift - 1) as nat);
        vstd::arithmetic::div_mod::lemma_div_multiples_vanish_quotient(scale, m as int, half);
        vstd::arithmetic::div_mod::lemma_truncate_middle(m as int, scale, half);
        lemma_mod_bound(m as int, half);
        assert(scale * m == wide) by (nonlinear_arith)
            requires
                wide == m * scale,
        ;
        assert(scale * (m as int % half) != 0 <==> m as int % half != 0) by (nonlinear_arith)
            requires
                scale > 0,
                m as int % half >= 0,
        ;
    }
}

/// A finite number other than zero is what its own significand and
/// exponent round to: rounding changes nothing that the format can hold.
pub proof fn lemma_rounded_of_number(bits: u64)
    requires
        is_finite(bits),
        !is_zero(bits),
    ensures
        significand(bits) > 0,
        rounded(is_negative(bits), significand(bits), exponent(bits), false) == bits,
{
    reveal(rounded);
    lemma_pow2_values();
    lemma2_to64();
    let m = significand(bits);
    let e = exponent(bits);
    lemma_bit_length_bounds(m);
    if m >= 0x10_0000_0000_0000 {
        lemma_bit_length_unique(m, 53);
    } else {
        if bit_length(m) > 52 {
            lemma_pow2_rises(52, (bit_length(m) - 1) as nat);
        }
    }
    assert(last_place(m, e) == e);
    assert(m * pow2(0) == m) by (nonlinear_arith)
        requires
            pow2(0) == 1,
    ;
}

/// A value of at most 53 digits that lies within the range of the format
/// rounds to the number that is that value: its significand is the value
/// moved to the last place, and its exponent that place.
pub proof fn lemma_rounded_holds_value(m: nat, e: int)
    requires
        0 < m < 0x20_0000_0000_0000,
        min_exponent() <= e,
        e + bit_length(m) <= 1024,
    ensures
        is_finite(rounded(false, m, e, false)),
        !is_zero(rounded(false, m, e, false)),
        !is_negative(rounded(false, m, e, false)),
        last_place(m, e) <= e,
        significand(rounded(false, m, e, false)) == m * pow2((e - last_place(m, e)) as nat),
        exponent(rounded(false, m, e, false)) == last_place(m, e),
{
    reveal(rounded);
    lemma_pow2_values();
    lemma_bit_length_bounds(m);
    let len = bit_length(m);
    if len > 53 {
        lemma_pow2_rises(53, (len - 1) as nat);
    }
    let place = last_place(m, e);
    let k = (e - place) as nat;
    let mantissa = m * pow2(k);
    lemma_pow2_pos(k);
    lemma_pow2_adds(len, k);
    lemma_mul_strict_inequality(m as int, pow2(len) as int, pow2(k) as int);
    assert(mantissa > 0) by (nonlinear_arith)
        requires
            mantissa == m * pow2(k),
            m > 0,
            pow2(k) > 0,
    ;
    if place == e + len - 53 {
        lemma_pow2_adds((len - 1) as nat, k);
        lemma_mul_inequality(pow2((len - 1) as nat) as int, m as int, pow2(k) as int);
        assert(0x10_0000_0000_0000 <= mantissa < 0x20_0000_0000_0000);
    } else {
        lemma_pow2_rises(len + k, 52);
        assert(mantissa < 0x10_0000_0000_0000);
    }
    let magnitude = (place + 1074) * 0x10_0000_0000_0000 + mantissa;
    assert(rounded(false, m, e, false) == magnitude);
    if mantissa >= 0x10_0000_0000_0000 {
        assert(magnitude == (place + 1075) * 0x10_0000_0000_0000 + (mantissa
            - 0x10_0000_0000_0000));
        assert(magnitude / 0x10_0000_0000_0000 == place + 1075);
        assert(magnitude % 0x10_0000_0000_0000 == mantissa - 0x10_0000_0000_0000);
    } else {
        assert(magnitude / 0x10_0000_0000_0000 == 0);
        assert(magnitude % 0x10_0000_0000_0000 == mantissa);
    }
}

} // verus!
