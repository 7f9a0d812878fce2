//! Rounding an exact binary value to the nearest binary64 number, ties to
//! the one with an even significand.
use vstd::prelude::*;
use vstd::arithmetic::power2::{
    pow2,
    lemma_pow2_pos,
    lemma_pow2_unfold,
    lemma_pow2_adds,
    lemma_pow2_strictly_increases,
    lemma2_to64,
};
use vstd::arithmetic::mul::lemma_mul_strict_inequality;
use vstd::arithmetic::div_mod::lemma_basic_div;
use crate::double::{HIDDEN_BIT, SIGN_BIT, INFINITY_BITS, sign_bits, min_exponent};

verus! {

/// The number of binary digits of `n`: the least `k` with `n < 2^k`.
pub open spec fn bit_length(n: nat) -> nat
    decreases n,
{
    if n == 0 {
        0
    } else {
        1 + bit_length(n / 2)
    }
}

/// `n` lies below two to the power of its bit length, and, unless it is
/// zero, not below half of that.
pub proof fn lemma_bit_length_bounds(n: nat)
    ensures
        n < pow2(bit_length(n)),
        n > 0 ==> pow2((bit_length(n) - 1) as nat) <= n,
    decreases n,
{
    lemma2_to64();
    if n > 0 {
        lemma_bit_length_bounds(n / 2);
        lemma_pow2_unfold(bit_length(n));
        if n / 2 > 0 {
            lemma_pow2_unfold(bit_length(n / 2));
        }
    }
}

/// The bit length is the only `k` with `2^(k-1) <= n < 2^k`.
pub proof fn lemma_bit_length_unique(n: nat, k: nat)
    requires
        k > 0,
        pow2((k - 1) as nat) <= n,
        n < pow2(k),
    ensures
        bit_length(n) == k,
{
    lemma_pow2_pos((k - 1) as nat);
    lemma_bit_length_bounds(n);
    let len = bit_length(n);
    if len < k {
        if len < k - 1 {
            lemma_pow2_strictly_increases(len, (k - 1) as nat);
        }
    } else if len > k {
        if k < len - 1 {
            lemma_pow2_strictly_increases(k, (len - 1) as nat);
        }
    }
}

/// The values of the powers of two that the format and the widest integer
/// are made of.
pub proof fn lemma_pow2_values()
    ensures
        pow2(128) == 0x1_0000_0000_0000_0000_0000_0000_0000_0000,
        pow2(64) == 0x1_0000_0000_0000_0000,
        pow2(52) == 0x10_0000_0000_0000,
        pow2(53) == 0x20_0000_0000_0000,
{
    lemma2_to64();
    lemma_pow2_adds(64, 64);
    lemma_pow2_adds(32, 20);
    lemma_pow2_adds(32, 21);
}

/// Two to the power `k`.
pub fn power_of_two(k: u32) -> (p: u128)
    requires
        k <= 127,
    ensures
        p == pow2(k as nat),
{
    let mut p: u128 = 1;
    let mut i: u32 = 0;
    proof {
        lemma2_to64();
    }
    while i < k
        invariant
            i <= k <= 127,
            p == pow2(i as nat),
        decreases k - i,
    {
        proof {
            lemma_pow2_unfold((i + 1) as nat);
            lemma_pow2_values();
            if i + 1 < 127 {
                lemma_pow2_strictly_increases((i + 1) as nat, 127);
            }
            lemma_pow2_unfold(128);
        }
        p = p * 2;
        i = i + 1;
    }
    p
}

/// The number of binary digits of `m`.
pub fn bit_length_of(m: u128) -> (len: u32)
    ensures
        len == bit_length(m as nat),
        len <= 128,
{
    let mut len: u32 = 0;
    let mut rest: u128 = m;
    proof {
        lemma_bit_length_bounds(m as nat);
        lemma_pow2_values();
        if bit_length(m as nat) > 128 {
            if bit_length(m as nat) > 129 {
                lemma_pow2_strictly_increases(128, (bit_length(m as nat) - 1) as nat);
            }
        }
    }
    while rest > 0
        invariant
            bit_length(m as nat) == len + bit_length(rest as nat),
            bit_length(m as nat) <= 128,
        decreases rest,
    {
        rest = rest / 2;
        len = len + 1;
    }
    len
}

/// The significand that is left when `m` is moved `shift` binary places to
/// the right and rounded to the nearest integer, a tie going to the even
/// one. `sticky` says that the exact value lies above `m`, by less than one
/// unit of `m`. A `shift` of zero or less moves `m` to the left instead,
/// which loses nothing.
pub open spec fn rounded_significand(m: nat, shift: int, sticky: bool) -> nat {
    if shift <= 0 {
        m * pow2((-shift) as nat)
    } else {
        let upper = m / pow2((shift - 1) as nat);
        let kept = upper / 2;
        let above_half = sticky || m % pow2((shift - 1) as nat) != 0;
        if upper % 2 == 1 && (above_half || kept % 2 == 1) {
            kept + 1
        } else {
            kept
        }
    }
}

/// The exponent of the last place of the binary64 number nearest to
/// `m * 2^e`: the one that leaves 53 digits, but never below the smallest.
pub open spec fn last_place(m: nat, e: int) -> int {
    let ideal = e + bit_length(m) - 53;
    if ideal < min_exponent() {
        min_exponent()
    } else {
        ideal
    }
}

/// The encoding of the binary64 number nearest to `m * 2^e`, or, where
/// `sticky` is set, to a value above that by less than `2^e`; negated if
/// `negative`. A tie goes to the even significand, and a value too large
/// for the format to infinity. With `sticky`, `m` is meant to have at least
/// 55 digits, so that what it hides never decides alone.
#[verifier::opaque]
pub open spec fn rounded(negative: bool, m: nat, e: int, sticky: bool) -> u64 {
    if m == 0 {
        sign_bits(negative)
    } else {
        let place = last_place(m, e);
        let magnitude = (place - min_exponent()) * HIDDEN_BIT + rounded_significand(
            m,
            place - e,
            sticky,
        );
        if magnitude >= INFINITY_BITS {
            (sign_bits(negative) + INFINITY_BITS) as u64
        } else {
            (sign_bits(negative) + magnitude) as u64
        }
    }
}

/// Rounds `m * 2^e` to the nearest binary64 number and encodes it.
pub fn round_pack(negative: bool, m: u128, e: i64, sticky: bool) -> (bits: u64)
    ensures
        bits == rounded(negative, m as nat, e as int, sticky),
{
    reveal(rounded);
    let sign: u64 = if negative {
        SIGN_BIT
    } else {
        0
    };
    if m == 0 {
        return sign;
    }
    let len: u32 = bit_length_of(m);
    let ideal: i128 = e as i128 + len as i128 - 53;
    let place: i128 = if ideal < -1074 {
        -1074
    } else {
        ideal
    };
    let shift: i128 = place - e as i128;
    proof {
        lemma_bit_length_bounds(m as nat);
        lemma_pow2_values();
    }
    if place > 972 {
        assert((place + 1074) * 0x10_0000_0000_0000 >= 2047 * 0x10_0000_0000_0000)
            by (nonlinear_arith)
            requires
                place + 1074 >= 2047,
        ;
        return sign + INFINITY_BITS;
    }
    let mantissa: u128;
    if shift <= 0 {
        let p: u128 = power_of_two((-shift) as u32);
        proof {
            lemma_pow2_pos((-shift) as nat);
            lemma_pow2_adds(len as nat, (-shift) as nat);
            if len as int - shift < 53 {
                lemma_pow2_strictly_increases((len as int - shift) as nat, 53);
            }
            lemma_mul_strict_inequality(m as int, pow2(len as nat) as int, p as int);
        }
        mantissa = m * p;
    } else if shift > len as i128 {
        proof {
            if shift - 1 > len as int {
                lemma_pow2_strictly_increases(len as nat, (shift - 1) as nat);
            }
            lemma_basic_div(m as int, pow2((shift - 1) as nat) as int);
        }
        mantissa = 0;
    } else {
        let p: u128 = power_of_two((shift - 1) as u32);
        proof {
            lemma_pow2_pos((shift - 1) as nat);
        }
        let upper: u128 = m / p;
        let kept: u128 = upper / 2;
        let above_half: bool = sticky || m % p != 0;
        if upper % 2 == 1 && (above_half || kept % 2 == 1) {
            mantissa = kept + 1;
        } else {
            mantissa = kept;
        }
    }
    let steps: u128 = (place + 1074) as u128;
    assert(steps * 0x10_0000_0000_0000 <= 2046 * 0x10_0000_0000_0000) by (nonlinear_arith)
        requires
            0 <= steps <= 2046,
    ;
    let magnitude: u128 = steps * (HIDDEN_BIT as u128) + mantissa;
    if magnitude >= INFINITY_BITS as u128 {
        sign + INFINITY_BITS
    } else {
        sign + (magnitude as u64)
    }
}

} // verus!
