//! A population of riders under one wind, advanced in steps of one length.
use vstd::prelude::*;
use vstd::arithmetic::div_mod::lemma_fundamental_div_mod;
use vstd::arithmetic::power2::{pow2, lemma_pow2_pos};
use crate::addition::{lemma_sum_does_not_fall, lemma_sum_of_values, lemma_sum_with_zero, sum};
use crate::arithmetic::{is_positive_finite, lemma_product_with_zero, product};
use crate::double::{Double, exponent, is_finite, is_nan, significand};
use crate::nearest::{
    lemma_pow2_rises,
    lemma_rounded_holds_value,
    lemma_rounded_of_number,
    lemma_rounded_of_scaled,
};
use crate::rounding::{
    bit_length,
    last_place,
    rounded,
    lemma_bit_length_bounds,
    lemma_pow2_values,
};
use crate::rider::{
    update_rider_position,
    update_rider_velocity,
    Rider,
    is_not_negative,
    is_positive,
};
use crate::wind::Wind;

verus! {

/// The riders, the wind, the length of a step in seconds, and the time that
/// has passed.
pub struct Simulation {
    pub riders: Vec<Rider>,
    pub wind: Wind,
    pub dt: Double,
    pub time: Double,
}

impl Simulation {
    /// At least one rider, each with valid numbers, a finite wind and a
    /// step longer than zero.
    pub open spec fn valid(&self) -> bool {
        &&& self.riders.len() > 0
        &&& forall|i: int| 0 <= i < self.riders.len() ==> (#[trigger] self.riders[i])@.valid()
        &&& self.wind.is_finite()
        &&& is_positive(self.dt)
    }

    /// A simulation of the given riders, in their order, at time zero.
    pub fn new(riders: Vec<Rider>, wind: Wind, dt: Double) -> (simulation: Simulation)
        requires
            riders.len() > 0,
            forall|i: int| 0 <= i < riders.len() ==> (#[trigger] riders[i])@.valid(),
            wind.is_finite(),
            is_positive(dt),
        ensures
            simulation.riders == riders,
            simulation.wind == wind,
            simulation.dt == dt,
            simulation.time == Double::from_bits(0),
            simulation.valid(),
    {
        Simulation { riders, wind, dt, time: Double::zero() }
    }

    /// Advances every rider by one step, in the order of the population:
    /// its velocity first, then its position from the new velocity. When
    /// all riders are done, the time moves on by the length of the step.
    pub fn tick(&mut self)
        ensures
            final(self).riders.len() == old(self).riders.len(),
            forall|i: int|
                0 <= i < old(self).riders.len() ==> (#[trigger] final(self).riders[i])@ == old(
                    self,
                ).riders[i]@.after_tick(old(self).dt, old(self).wind.components()),
            forall|i: int|
                0 <= i < old(self).riders.len() ==> (#[trigger] final(self).riders[i]).id == old(
                    self,
                ).riders[i].id,
            final(self).wind == old(self).wind,
            final(self).dt == old(self).dt,
            final(self).time == old(self).time.plus(old(self).dt),
            old(self).valid() ==> final(self).valid(),
    {
        let count: usize = self.riders.len();
        let mut i: usize = 0;
        while i < count
            invariant
                i <= count,
                count == old(self).riders.len(),
                self.riders.len() == count,
                self.wind == old(self).wind,
                self.dt == old(self).dt,
                self.time == old(self).time,
                forall|j: int|
                    0 <= j < i ==> (#[trigger] self.riders[j])@ == old(self).riders[j]@.after_tick(
                        old(self).dt,
                        old(self).wind.components(),
                    ),
                forall|j: int| i <= j < count ==> (#[trigger] self.riders[j]) == old(self).riders[j],
            decreases count - i,
        {
            update_rider_velocity(&mut self.riders[i], self.dt, &self.wind);
            update_rider_position(&mut self.riders[i], self.dt);
            i = i + 1;
        }
        self.time = self.time.add(&self.dt);
    }
}

/// The time after `ticks` steps of length `dt` from zero.
pub open spec fn time_after(dt: Double, ticks: nat) -> Double
    decreases ticks,
{
    if ticks == 0 {
        Double::from_bits(0)
    } else {
        time_after(dt, (ticks - 1) as nat).plus(dt)
    }
}

/// The number nearest to a count; the count itself below two to the
/// power 53.
pub open spec fn counted(n: nat) -> Double {
    Double { bits: rounded(false, n, 0, false) }
}

/// After any number of steps the time is that number times the length of
/// a step, as long as the format holds every multiple on the way: the
/// significand of the step, without `z` zeros at its end, times the number
/// of steps stays below two to the power 53, and below the largest number.
pub proof fn lemma_time_after_ticks(dt: Double, ticks: nat, z: nat)
    requires
        is_positive_finite(dt.bits),
        significand(dt.bits) % pow2(z) == 0,
        ticks * (significand(dt.bits) / pow2(z)) < 0x20_0000_0000_0000,
        exponent(dt.bits) + z <= 971,
    ensures
        time_after(dt, ticks) == counted(ticks).times(dt),
        time_after(dt, ticks).bits == rounded(
            false,
            ticks * (significand(dt.bits) / pow2(z)),
            exponent(dt.bits) + z,
            false,
        ),
    decreases ticks,
{
    let m = significand(dt.bits);
    let e = exponent(dt.bits);
    let unit = pow2(z);
    let c = m / unit;
    let high = e + z;
    lemma_pow2_values();
    lemma_pow2_pos(z);
    lemma_fundamental_div_mod(m as int, unit as int);
    lemma_rounded_of_number(dt.bits);
    assert(m == c * unit) by (nonlinear_arith)
        requires
            m == unit * c + 0,
    ;
    assert(c > 0) by (nonlinear_arith)
        requires
            m == c * unit,
            m > 0,
            unit > 0,
            c >= 0,
    ;
    lemma_rounded_of_scaled(false, c, z, high);
    assert(dt.bits == rounded(false, c, high, false));
    if ticks == 0 {
        assert(0 * c == 0) by (nonlinear_arith);
        assert(rounded(false, 0, high, false) == 0) by {
            reveal(rounded);
        }
        assert(counted(0).bits == 0) by {
            reveal(rounded);
        }
        lemma_product_with_zero(0, dt.bits);
    } else {
        let before = (ticks - 1) as nat;
        assert(before * c + c == ticks * c) by (nonlinear_arith)
            requires
                before + 1 == ticks,
        ;
        assert(before * c >= 0) by (nonlinear_arith)
            requires
                c > 0,
                before >= 0,
        ;
        assert(c < 0x20_0000_0000_0000);
        lemma_time_after_ticks(dt, before, z);
        if before == 0 {
            lemma_sum_with_zero(dt.bits, 0);
            assert(before * c == 0);
        } else {
            assert(before * c > 0) by (nonlinear_arith)
                requires
                    c > 0,
                    before > 0,
            ;
            lemma_sum_of_values(before * c, c, high);
        }
        assert(time_after(dt, ticks).bits == rounded(false, ticks * c, high, false)) by {
            reveal(sum);
        }
        assert(ticks < 0x20_0000_0000_0000) by (nonlinear_arith)
            requires
                ticks * c < 0x20_0000_0000_0000,
                c >= 1,
                ticks >= 0,
        ;
        lemma_bit_length_bounds(ticks);
        if bit_length(ticks) > 53 {
            lemma_pow2_rises(53, (bit_length(ticks) - 1) as nat);
        }
        lemma_rounded_holds_value(ticks, 0);
        let count = rounded(false, ticks, 0, false);
        let place = last_place(ticks, 0);
        let up = pow2((0 - place) as nat);
        lemma_pow2_pos((0 - place) as nat);
        assert(product(count, dt.bits) == rounded(
            false,
            significand(count) * m,
            place + e,
            false,
        )) by {
            reveal(product);
        }
        assert(significand(count) * m == (ticks * m) * up) by (nonlinear_arith)
            requires
                significand(count) == ticks * up,
        ;
        assert(ticks * m == (ticks * c) * unit) by (nonlinear_arith)
            requires
                m == c * unit,
        ;
        assert(ticks * c > 0) by (nonlinear_arith)
            requires
                c > 0,
                ticks > 0,
        ;
        assert(ticks * m > 0) by (nonlinear_arith)
            requires
                m > 0,
                ticks > 0,
        ;
        lemma_rounded_of_scaled(false, ticks * m, (0 - place) as nat, e);
        lemma_rounded_of_scaled(false, ticks * c, z, high);
    }
}

/// Time does not run back: a finite time plus a step that is zero or more
/// is a number and not below the old time.
pub proof fn lemma_time_does_not_run_back(time: Double, dt: Double)
    requires
        is_finite(time.bits),
        is_not_negative(dt),
    ensures
        !is_nan(time.plus(dt).bits),
        !time.plus(dt).below(time),
{
    lemma_sum_does_not_fall(time.bits, dt.bits);
}

} // verus!
