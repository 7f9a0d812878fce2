//! A rider, the forces on it, and one step of its motion.
use vstd::prelude::*;
use crate::addition::lemma_sum_does_not_fall;
use crate::arithmetic::{
    is_positive_finite,
    lemma_product_keeps_sign,
    lemma_product_sign,
    lemma_quotient_keeps_sign,
    lemma_quotient_sign,
};
use crate::double::{
    Double,
    EPSILON_BITS,
    HALF_BITS,
    MINUS_ONE_BITS,
    ONE_BITS,
    is_finite,
    is_nan,
};
use crate::physics::{Force, Position, Velocity};
use crate::vector2d::{Pair, Vector2D, lemma_magnitude_is_not_negative};
use crate::wind::Wind;
use crate::DENSITY_OF_AIR_AT_SEA_LEVEL;

verus! {

/// The source of rider ids: each id is handed out once, in rising order,
/// starting at 0.
pub struct RiderIds {
    next: u32,
}

impl RiderIds {
    /// The id that the next rider gets.
    pub closed spec fn next_id(&self) -> u32 {
        self.next
    }

    /// A source that has handed out no id yet.
    pub fn new() -> (ids: RiderIds)
        ensures
            ids.next_id() == 0,
    {
        RiderIds { next: 0 }
    }

    /// Whether every id but the last has been handed out, so that no rider
    /// can be made any more.
    pub fn is_exhausted(&self) -> (b: bool)
        ensures
            b == (self.next_id() == u32::MAX),
    {
        self.next == u32::MAX
    }

    /// Hands out the next id.
    pub fn issue(&mut self) -> (id: u32)
        requires
            old(self).next_id() < u32::MAX,
        ensures
            id == old(self).next_id(),
            final(self).next_id() == id + 1,
    {
        let id: u32 = self.next;
        self.next = id + 1;
        id
    }
}

/// What a rider is at one moment: who, where, how fast, and the three
/// numbers that never change.
pub struct RiderState {
    pub id: u32,
    pub position: Pair,
    pub velocity: Pair,
    pub power: Double,
    pub cda: Double,
    pub mass: Double,
}

/// One component of the drag, from the size of the drag and the same
/// component of the direction through the air.
pub open spec fn drag_component(size: Double, direction: Double) -> Double {
    Double::from_bits(MINUS_ONE_BITS).times(size).times(direction)
}

/// Whether the number is greater than zero.
pub open spec fn is_positive(x: Double) -> bool {
    Double::from_bits(0).below(x)
}

/// Whether the number is zero or greater.
pub open spec fn is_not_negative(x: Double) -> bool {
    !is_nan(x.bits) && !x.below(Double::from_bits(0))
}

impl RiderState {
    /// Power and mass above zero, drag area not below it.
    pub open spec fn valid(self) -> bool {
        is_positive(self.power) && is_not_negative(self.cda) && is_positive(self.mass)
    }

    /// The force that the rider's power gives at its speed along the race,
    /// the speed taken as 1 metre per second where it is less. Nothing
    /// pushes across the race.
    pub open spec fn propulsive_force(self) -> Pair {
        Pair {
            x: self.power.over(self.velocity.x.larger(Double::from_bits(ONE_BITS))),
            y: Double::from_bits(0),
        }
    }

    /// The size of the drag at the given speed through the air: half the
    /// drag area times the density of air times the speed squared.
    pub open spec fn drag_size(self, speed: Double) -> Double {
        Double::from_bits(HALF_BITS).times(self.cda).times(
            Double::from_bits(DENSITY_OF_AIR_AT_SEA_LEVEL),
        ).times(speed.times(speed))
    }

    /// The drag of the air: of the size that the speed through the air
    /// gives, against the direction of the motion through the air.
    pub open spec fn drag_force(self, wind: Pair) -> Pair {
        let through_air = self.velocity.minus(wind);
        let size = self.drag_size(through_air.magnitude());
        let direction = through_air.unit();
        Pair { x: drag_component(size, direction.x), y: drag_component(size, direction.y) }
    }

    /// Propulsion and drag together.
    pub open spec fn net_force(self, wind: Pair) -> Pair {
        self.propulsive_force().plus(self.drag_force(wind))
    }

    /// The velocity after `dt` seconds of the acceleration that the net
    /// force gives the mass.
    pub open spec fn next_velocity(self, dt: Double, wind: Pair) -> Pair {
        let force = self.net_force(wind);
        Pair {
            x: self.velocity.x.plus(force.x.over(self.mass).times(dt)),
            y: self.velocity.y.plus(force.y.over(self.mass).times(dt)),
        }
    }

    /// The position after `dt` seconds at the present velocity.
    pub open spec fn next_position(self, dt: Double) -> Pair {
        Pair {
            x: self.position.x.plus(self.velocity.x.times(dt)),
            y: self.position.y.plus(self.velocity.y.times(dt)),
        }
    }

    /// The rider after one step: first the velocity is advanced from the
    /// forces at the old velocity, then the position from the new velocity.
    pub open spec fn after_tick(self, dt: Double, wind: Pair) -> RiderState {
        let moving = RiderState { velocity: self.next_velocity(dt, wind), ..self };
        RiderState { position: moving.next_position(dt), ..moving }
    }
}

/// A step changes where a rider is and how fast it moves, and nothing
/// else: the id and the three fixed numbers stay, and so a valid rider
/// stays valid. What it changes depends on this rider, the wind and the
/// length of the step alone.
pub proof fn lemma_tick_keeps_identity(state: RiderState, dt: Double, wind: Pair)
    ensures
        state.after_tick(dt, wind).id == state.id,
        state.after_tick(dt, wind).power == state.power,
        state.after_tick(dt, wind).cda == state.cda,
        state.after_tick(dt, wind).mass == state.mass,
        state.valid() ==> state.after_tick(dt, wind).valid(),
        state.after_tick(dt, wind).velocity == state.next_velocity(dt, wind),
        state.after_tick(dt, wind).position == (Pair {
            x: state.position.x.plus(state.next_velocity(dt, wind).x.times(dt)),
            y: state.position.y.plus(state.next_velocity(dt, wind).y.times(dt)),
        }),
{
}

/// A component of the drag that is a number is never on the side of the
/// motion: against a motion through the air that is above zero it is zero
/// or below, and against one below zero it is zero or above.
proof fn lemma_drag_component_opposes(through_air: Pair, cda: Double, along: Double)
    requires
        is_not_negative(cda),
        along == through_air.x || along == through_air.y,
    ensures
        ({
            let size = Double::from_bits(HALF_BITS).times(cda).times(
                Double::from_bits(DENSITY_OF_AIR_AT_SEA_LEVEL),
            ).times(through_air.magnitude().times(through_air.magnitude()));
            let direction = if along == through_air.x {
                through_air.unit().x
            } else {
                through_air.unit().y
            };
            let drag = drag_component(size, direction);
            &&& !is_nan(drag.bits) && Double::from_bits(0).below(along) ==> !Double::from_bits(
                0,
            ).below(drag)
            &&& !is_nan(drag.bits) && along.below(Double::from_bits(0)) ==> !drag.below(
                Double::from_bits(0),
            )
        }),
{
    let speed = through_air.magnitude();
    let square = speed.times(speed);
    let half_area = Double::from_bits(HALF_BITS).times(cda);
    let factor = half_area.times(Double::from_bits(DENSITY_OF_AIR_AT_SEA_LEVEL));
    let size = factor.times(square);
    let pull = Double::from_bits(MINUS_ONE_BITS).times(size);
    let direction = if along == through_air.x {
        through_air.unit().x
    } else {
        through_air.unit().y
    };
    let drag = pull.times(direction);
    if !is_nan(drag.bits) {
        lemma_product_sign(pull.bits, direction.bits);
        lemma_product_sign(MINUS_ONE_BITS, size.bits);
        lemma_product_sign(factor.bits, square.bits);
        lemma_product_sign(half_area.bits, DENSITY_OF_AIR_AT_SEA_LEVEL);
        lemma_product_sign(HALF_BITS, cda.bits);
        lemma_product_sign(speed.bits, speed.bits);
        if !speed.below(Double::from_bits(EPSILON_BITS)) {
            let inverse = Double::from_bits(ONE_BITS).over(speed);
            lemma_product_sign(along.bits, inverse.bits);
            lemma_quotient_sign(ONE_BITS, speed.bits);
            lemma_magnitude_is_not_negative(through_air);
        }
    }
}

/// The drag never pushes a rider on through the air: along the race and
/// across it, a drag that is a number is zero or against the motion
/// through the air.
pub proof fn lemma_drag_opposes_motion(state: RiderState, wind: Pair)
    requires
        is_not_negative(state.cda),
    ensures
        ({
            let through_air = state.velocity.minus(wind);
            let drag = state.drag_force(wind);
            let zero = Double::from_bits(0);
            &&& !is_nan(drag.x.bits) && zero.below(through_air.x) ==> !zero.below(drag.x)
            &&& !is_nan(drag.x.bits) && through_air.x.below(zero) ==> !drag.x.below(zero)
            &&& !is_nan(drag.y.bits) && zero.below(through_air.y) ==> !zero.below(drag.y)
            &&& !is_nan(drag.y.bits) && through_air.y.below(zero) ==> !drag.y.below(zero)
        }),
{
    let through_air = state.velocity.minus(wind);
    lemma_drag_component_opposes(through_air, state.cda, through_air.x);
    lemma_drag_component_opposes(through_air, state.cda, through_air.y);
}

/// Where the net force along the race is zero or more, a step does not
/// make the rider slower along the race: a finite speed, a finite mass
/// above zero and a finite step above zero give a speed that is a number
/// and not below the old one.
pub proof fn lemma_speed_does_not_drop(state: RiderState, dt: Double, wind: Pair)
    requires
        is_finite(state.velocity.x.bits),
        is_not_negative(state.net_force(wind).x),
        is_positive_finite(state.mass.bits),
        is_positive_finite(dt.bits),
    ensures
        !is_nan(state.next_velocity(dt, wind).x.bits),
        !state.next_velocity(dt, wind).x.below(state.velocity.x),
{
    let force = state.net_force(wind).x;
    let acceleration = force.over(state.mass);
    lemma_quotient_keeps_sign(force.bits, state.mass.bits);
    let gain = acceleration.times(dt);
    lemma_product_keeps_sign(acceleration.bits, dt.bits);
    lemma_sum_does_not_fall(state.velocity.x.bits, gain.bits);
}

/// A rider with kit and bicycle. `x` is the direction of the race, `y` is
/// across it.
pub struct Rider {
    pub id: u32,
    pub position: Position,
    pub velocity: Velocity,
    pub power: Double,
    pub cda: Double,
    pub mass: Double,
}

impl View for Rider {
    type V = RiderState;

    open spec fn view(&self) -> RiderState {
        RiderState {
            id: self.id,
            position: self.position.components(),
            velocity: self.velocity.components(),
            power: self.power,
            cda: self.cda,
            mass: self.mass,
        }
    }
}

impl Rider {
    /// A rider at rest at the origin, with the next id of `ids`, the power
    /// in watts, the drag area in square metres and the mass in kilograms.
    pub fn new(ids: &mut RiderIds, power: Double, cda: Double, mass: Double) -> (rider: Rider)
        requires
            old(ids).next_id() < u32::MAX,
            is_positive(power),
            is_not_negative(cda),
            is_positive(mass),
        ensures
            final(ids).next_id() == old(ids).next_id() + 1,
            rider@ == (RiderState {
                id: old(ids).next_id(),
                position: Pair { x: Double::from_bits(0), y: Double::from_bits(0) },
                velocity: Pair { x: Double::from_bits(0), y: Double::from_bits(0) },
                power,
                cda,
                mass,
            }),
            rider@.valid(),
    {
        Rider {
            id: ids.issue(),
            position: Position::new(Double::zero(), Double::zero()),
            velocity: Velocity::new(Double::zero(), Double::zero()),
            power,
            cda,
            mass,
        }
    }

    /// The power in watts.
    pub fn power(&self) -> (r: Double)
        ensures
            r == self@.power,
    {
        self.power
    }

    /// The drag area in square metres.
    pub fn cda(&self) -> (r: Double)
        ensures
            r == self@.cda,
    {
        self.cda
    }

    /// The mass in kilograms.
    pub fn mass(&self) -> (r: Double)
        ensures
            r == self@.mass,
    {
        self.mass
    }

    /// Where the rider is.
    pub fn position(&self) -> (p: Position)
        ensures
            p.components() == self@.position,
    {
        self.position
    }

    /// Puts the rider at `position`.
    pub fn set_position(&mut self, position: Position)
        ensures
            final(self)@ == (RiderState { position: position.components(), ..old(self)@ }),
    {
        self.position = position;
    }

    /// How fast the rider moves.
    pub fn velocity(&self) -> (v: Velocity)
        ensures
            v.components() == self@.velocity,
    {
        self.velocity
    }

    /// Makes the rider move at `velocity`.
    pub fn set_velocity(&mut self, velocity: Velocity)
        ensures
            final(self)@ == (RiderState { velocity: velocity.components(), ..old(self)@ }),
    {
        self.velocity = velocity;
    }
}

/// The drag of the air on the rider, from the rider's velocity and the
/// wind's.
pub fn calculate_rider_drag(rider: &Rider, wind: &Wind) -> (force: Force)
    ensures
        force.components() == rider@.drag_force(wind.components()),
{
    let rider_velocity: Velocity = rider.velocity();
    let velocity_relative_to_air: Velocity = rider_velocity.sub(&wind.velocity());
    let vel_mag: Double = velocity_relative_to_air.magnitude();
    let drag_mag: Double = Double::from_bits(HALF_BITS).mul(&rider.cda()).mul(
        &Double::from_bits(DENSITY_OF_AIR_AT_SEA_LEVEL),
    ).mul(&vel_mag.mul(&vel_mag));
    let direction: Velocity = velocity_relative_to_air.unit();
    Force::new(
        Double::from_bits(MINUS_ONE_BITS).mul(&drag_mag).mul(&direction.x()),
        Double::from_bits(MINUS_ONE_BITS).mul(&drag_mag).mul(&direction.y()),
    )
}

/// The force that the rider's power gives. Below 1 metre per second the
/// speed counts as 1, which keeps the force finite at rest and the first
/// acceleration within reason.
pub fn calculate_rider_force(rider: &Rider) -> (force: Force)
    ensures
        force.components() == rider@.propulsive_force(),
{
    let min_velocity: Double = Double::one();
    let rider_velocity: Velocity = rider.velocity();
    let rider_power: Double = rider.power();
    let v_x: Double = rider_velocity.x().max(&min_velocity);
    Force::new(rider_power.div(&v_x), Double::zero())
}

/// Advances the rider's velocity by `dt` seconds under its own force and
/// the drag of the air.
pub fn update_rider_velocity(rider: &mut Rider, dt: Double, wind: &Wind)
    ensures
        final(rider)@ == (RiderState {
            velocity: old(rider)@.next_velocity(dt, wind.components()),
            ..old(rider)@
        }),
{
    let rider_force: Force = calculate_rider_force(rider);
    let drag_force: Force = calculate_rider_drag(rider, wind);
    let total_force: Force = rider_force.add(&drag_force);
    let current_rider_velocity: Velocity = rider.velocity();
    let new_rider_velocity: Velocity = Velocity::new(
        current_rider_velocity.x().add(&total_force.x().div(&rider.mass()).mul(&dt)),
        current_rider_velocity.y().add(&total_force.y().div(&rider.mass()).mul(&dt)),
    );
    rider.set_velocity(new_rider_velocity);
}

/// Advances the rider's position by `dt` seconds at its present velocity.
pub fn update_rider_position(rider: &mut Rider, dt: Double)
    ensures
        final(rider)@ == (RiderState {
            position: old(rider)@.next_position(dt),
            ..old(rider)@
        }),
{
    let current_rider_position: Position = rider.position();
    let new_rider_position: Position = Position::new(
        current_rider_position.x().add(&rider.velocity().x().mul(&dt)),
        current_rider_position.y().add(&rider.velocity().y().mul(&dt)),
    );
    rider.set_position(new_rider_position);
}

} // verus!
