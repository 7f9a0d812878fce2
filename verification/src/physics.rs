//! Position, velocity and force: pairs of numbers with a meaning.
use vstd::prelude::*;
use crate::double::Double;
use crate::vector2d::{Pair, Vector2D};

verus! {

/// Where an object is: `x` metres along the race, `y` metres to the side.
#[derive(Clone, Copy, Debug)]
pub struct Position {
    x: Double,
    y: Double,
}

impl Position {
    /// The components that this position holds.
    pub closed spec fn components(&self) -> Pair {
        Pair { x: self.x, y: self.y }
    }

    /// The position with the given components.
    pub fn new(x: Double, y: Double) -> (p: Position)
        ensures
            p.components() == (Pair { x, y }),
    {
        Position { x, y }
    }

    /// The distance along the race.
    pub fn x(&self) -> (r: Double)
        ensures
            r == self.components().x,
    {
        self.x
    }

    /// The offset to the side.
    pub fn y(&self) -> (r: Double)
        ensures
            r == self.components().y,
    {
        self.y
    }
}

/// How fast an object moves, in metres per second along and across the race.
#[derive(Clone, Copy, Debug)]
pub struct Velocity {
    x: Double,
    y: Double,
}

impl Vector2D for Velocity {
    closed spec fn components(&self) -> Pair {
        Pair { x: self.x, y: self.y }
    }

    fn x(&self) -> (r: Double) {
        self.x
    }

    fn y(&self) -> (r: Double) {
        self.y
    }

    fn from_components(x: Double, y: Double) -> (v: Velocity) {
        Velocity { x, y }
    }
}

impl Velocity {
    /// The velocity with the given components.
    pub fn new(x: Double, y: Double) -> (v: Velocity)
        ensures
            v.components() == (Pair { x, y }),
    {
        Velocity { x, y }
    }

    /// The speed along the race.
    pub fn x(&self) -> (r: Double)
        ensures
            r == self.components().x,
    {
        self.x
    }

    /// The speed across the race.
    pub fn y(&self) -> (r: Double)
        ensures
            r == self.components().y,
    {
        self.y
    }
}

/// A force in newtons, along and across the race.
#[derive(Debug)]
pub struct Force {
    x: Double,
    y: Double,
}

impl Vector2D for Force {
    closed spec fn components(&self) -> Pair {
        Pair { x: self.x, y: self.y }
    }

    fn x(&self) -> (r: Double) {
        self.x
    }

    fn y(&self) -> (r: Double) {
        self.y
    }

    fn from_components(x: Double, y: Double) -> (v: Force) {
        Force { x, y }
    }
}

impl Force {
    /// The force with the given components.
    pub fn new(x: Double, y: Double) -> (f: Force)
        ensures
            f.components() == (Pair { x, y }),
    {
        Force { x, y }
    }

    /// The force along the race.
    pub fn x(&self) -> (r: Double)
        ensures
            r == self.components().x,
    {
        self.x
    }

    /// The force across the race.
    pub fn y(&self) -> (r: Double)
        ensures
            r == self.components().y,
    {
        self.y
    }
}

} // verus!
