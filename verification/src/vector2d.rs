//! Arithmetic on two-dimensional quantities, written once for all of them.
use vstd::prelude::*;
use crate::addition::{lemma_sum_is_not_negative, lemma_sum_of_zeros, sum};
use crate::arithmetic::{
    lemma_product_sign,
    lemma_quotient_sign,
    lemma_product_with_one,
    lemma_product_with_zero,
    lemma_root_is_not_negative,
    lemma_square_is_not_negative,
    product,
    square_root,
};
use crate::double::{Double, EPSILON_BITS, ONE_BITS, is_nan, is_negative, is_zero};

verus! {

/// The two components of a two-dimensional quantity, whatever it measures.
pub struct Pair {
    pub x: Double,
    pub y: Double,
}

impl Pair {
    /// The Euclidean length: the root of the sum of the squares.
    pub open spec fn magnitude(self) -> Double {
        self.x.times(self.x).plus(self.y.times(self.y)).root()
    }

    /// Both components multiplied by `scalar`.
    pub open spec fn scaled(self, scalar: Double) -> Pair {
        Pair { x: self.x.times(scalar), y: self.y.times(scalar) }
    }

    /// The pair of length one in the same direction; the zero pair where
    /// the length is below the gap between 1 and the next number.
    pub open spec fn unit(self) -> Pair {
        if self.magnitude().below(Double { bits: EPSILON_BITS }) {
            Pair { x: Double { bits: 0 }, y: Double { bits: 0 } }
        } else {
            self.scaled(Double { bits: ONE_BITS }.over(self.magnitude()))
        }
    }

    /// The sum, component by component.
    pub open spec fn plus(self, other: Pair) -> Pair {
        Pair { x: self.x.plus(other.x), y: self.y.plus(other.y) }
    }

    /// The difference, component by component.
    pub open spec fn minus(self, other: Pair) -> Pair {
        Pair { x: self.x.minus(other.x), y: self.y.minus(other.y) }
    }
}

/// The unit of a pair of zeros, whatever their signs, is the pair of
/// positive zeros: nothing is divided by the zero length.
pub proof fn lemma_unit_of_zero_is_zero(v: Pair)
    requires
        is_zero(v.x.bits),
        is_zero(v.y.bits),
    ensures
        v.magnitude() == Double::from_bits(0),
        v.unit() == (Pair { x: Double::from_bits(0), y: Double::from_bits(0) }),
{
    lemma_product_with_zero(v.x.bits, v.x.bits);
    lemma_product_with_zero(v.y.bits, v.y.bits);
    lemma_sum_of_zeros(0, 0);
    reveal(square_root);
}

/// The length of a pair of numbers is a number, and not negative.
pub proof fn lemma_magnitude_is_number(v: Pair)
    requires
        !is_nan(v.x.bits),
        !is_nan(v.y.bits),
    ensures
        !is_nan(v.magnitude().bits),
        !is_negative(v.magnitude().bits),
{
    lemma_square_is_not_negative(v.x.bits);
    lemma_square_is_not_negative(v.y.bits);
    lemma_sum_is_not_negative(product(v.x.bits, v.x.bits), product(v.y.bits, v.y.bits));
    lemma_root_is_not_negative(sum(product(v.x.bits, v.x.bits), product(v.y.bits, v.y.bits)));
}

/// A length that is a number is not negative.
pub proof fn lemma_magnitude_is_not_negative(v: Pair)
    requires
        !is_nan(v.magnitude().bits),
    ensures
        !is_negative(v.magnitude().bits),
{
    let xx = product(v.x.bits, v.x.bits);
    let yy = product(v.y.bits, v.y.bits);
    assert(!is_nan(sum(xx, yy))) by {
        reveal(square_root);
    }
    assert(!is_nan(xx) && !is_nan(yy)) by {
        reveal(sum);
    }
    lemma_product_sign(v.x.bits, v.x.bits);
    lemma_product_sign(v.y.bits, v.y.bits);
    lemma_sum_is_not_negative(xx, yy);
    lemma_root_is_not_negative(sum(xx, yy));
}

/// The unit of a pair points into the same quarter of the plane as the
/// pair: each component that is a number has the sign of the component it
/// came from, unless the pair is too short to have a direction.
pub proof fn lemma_unit_keeps_signs(v: Pair)
    requires
        !v.magnitude().below(Double::from_bits(EPSILON_BITS)),
    ensures
        !is_nan(v.unit().x.bits) ==> is_negative(v.unit().x.bits) == is_negative(v.x.bits),
        !is_nan(v.unit().y.bits) ==> is_negative(v.unit().y.bits) == is_negative(v.y.bits),
{
    let inverse = Double::from_bits(ONE_BITS).over(v.magnitude());
    if !is_nan(v.unit().x.bits) {
        lemma_product_sign(v.x.bits, inverse.bits);
        lemma_quotient_sign(ONE_BITS, v.magnitude().bits);
        lemma_magnitude_is_not_negative(v);
    }
    if !is_nan(v.unit().y.bits) {
        lemma_product_sign(v.y.bits, inverse.bits);
        lemma_quotient_sign(ONE_BITS, v.magnitude().bits);
        lemma_magnitude_is_not_negative(v);
    }
}

/// Scaling by one changes nothing, so the length of the scaled pair is one
/// times the length of the pair.
pub proof fn lemma_scaled_by_one(v: Pair)
    requires
        !is_nan(v.x.bits),
        !is_nan(v.y.bits),
    ensures
        v.scaled(Double::from_bits(ONE_BITS)) == v,
        v.scaled(Double::from_bits(ONE_BITS)).magnitude() == Double::from_bits(ONE_BITS).times(
            v.magnitude(),
        ),
{
    lemma_magnitude_is_number(v);
    lemma_product_with_one(v.x.bits);
    lemma_product_with_one(v.y.bits);
    lemma_product_with_one(v.magnitude().bits);
}

/// A quantity with an `x` and a `y` component. Whoever says which
/// components a value holds, and implements the three methods without a
/// body so that they agree with that, gets the arithmetic.
pub trait Vector2D: Sized {
    /// The components that this value holds.
    spec fn components(&self) -> Pair;

    /// The component along the race.
    fn x(&self) -> (r: Double)
        ensures
            r == self.components().x,
    ;

    /// The component across the race.
    fn y(&self) -> (r: Double)
        ensures
            r == self.components().y,
    ;

    /// The value with the given components.
    fn from_components(x: Double, y: Double) -> (v: Self)
        ensures
            v.components() == (Pair { x, y }),
    ;

    /// The Euclidean length.
    fn magnitude(&self) -> (r: Double)
        ensures
            r == self.components().magnitude(),
    {
        let x: Double = self.x();
        let y: Double = self.y();
        x.mul(&x).add(&y.mul(&y)).sqrt()
    }

    /// The value of length one in the same direction, or the zero value
    /// where the length is below the gap between 1 and the next number.
    fn unit(&self) -> (v: Self)
        ensures
            v.components() == self.components().unit(),
    {
        let magnitude: Double = self.magnitude();
        if magnitude.lt(&Double::from_bits(EPSILON_BITS)) {
            Self::from_components(Double::zero(), Double::zero())
        } else {
            self.scale(Double::one().div(&magnitude))
        }
    }

    /// Both components multiplied by `scalar`.
    fn scale(&self, scalar: Double) -> (v: Self)
        ensures
            v.components() == self.components().scaled(scalar),
    {
        Self::from_components(self.x().mul(&scalar), self.y().mul(&scalar))
    }

    /// The sum, component by component.
    fn add(&self, other: &Self) -> (v: Self)
        ensures
            v.components() == self.components().plus(other.components()),
    {
        Self::from_components(self.x().add(&other.x()), self.y().add(&other.y()))
    }

    /// The difference, component by component.
    fn sub(&self, other: &Self) -> (v: Self)
        ensures
            v.components() == self.components().minus(other.components()),
    {
        Self::from_components(self.x().sub(&other.x()), self.y().sub(&other.y()))
    }
}

} // verus!
