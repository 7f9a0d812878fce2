//! Longitudinal dynamics of cycling riders under self-propulsion and
//! aerodynamic drag, advanced through fixed time steps.
//!
//! Every quantity is an IEEE 754 binary64 number. The arithmetic on them is
//! carried out on their 64-bit encodings with integer operations only, so
//! that each result is stated exactly and a run is reproducible bit for bit.
pub mod double;
pub mod rounding;
pub mod nearest;
pub mod arithmetic;
pub mod addition;
pub mod vector2d;
pub mod physics;
pub mod wind;
pub mod rider;
pub mod simulation;
pub mod scaling;

use vstd::prelude::*;

verus! {

/// The encoding of 1.225, the density of air at sea level in kilograms per
/// cubic metre.
pub const DENSITY_OF_AIR_AT_SEA_LEVEL: u64 = 0x3FF3_9999_9999_999A;

} // verus!
