use cycling_sim::double::Double;
use cycling_sim::physics::{Force, Position, Velocity};

fn d(x: f64) -> Double {
    Double::from_bits(x.to_bits())
}

fn value(x: Double) -> f64 {
    f64::from_bits(x.to_bits())
}

#[test]
fn test_position_creation() {
    let pos = Position::new(d(1.0), d(2.0));
    assert_eq!(value(pos.x()), 1.0);
    assert_eq!(value(pos.y()), 2.0);
}

#[test]
fn test_velocity_creation() {
    let vel = Velocity::new(d(3.0), d(4.0));
    assert_eq!(value(vel.x()), 3.0);
    assert_eq!(value(vel.y()), 4.0);
}

#[test]
fn test_force_creation() {
    let force = Force::new(d(5.0), d(6.0));
    assert_eq!(value(force.x()), 5.0);
    assert_eq!(value(force.y()), 6.0);
}
