//! The wind that all riders of a run share.
use vstd::prelude::*;
use crate::double::is_finite;
use crate::physics::Velocity;
use crate::vector2d::{Pair, Vector2D};

verus! {

/// The velocity of the air, the same for every rider and for the whole run.
pub struct Wind {
    velocity: Velocity,
}

impl Wind {
    /// The velocity of the air, as its two components.
    pub closed spec fn components(&self) -> Pair {
        self.velocity.components()
    }

    /// Whether both components are finite numbers.
    pub open spec fn is_finite(&self) -> bool {
        is_finite(self.components().x.bits) && is_finite(self.components().y.bits)
    }

    /// The wind that blows with the given velocity.
    pub fn new(velocity: Velocity) -> (w: Wind)
        ensures
            w.components() == velocity.components(),
    {
        Wind { velocity }
    }

    /// The velocity of the air.
    pub fn velocity(&self) -> (v: Velocity)
        ensures
            v.components() == self.components(),
    {
        self.velocity
    }
}

} // verus!
