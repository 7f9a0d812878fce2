use cycling_sim::double::Double;
use cycling_sim::physics::Velocity;
use cycling_sim::wind::Wind;

fn d(x: f64) -> Double {
    Double::from_bits(x.to_bits())
}

fn value(x: Double) -> f64 {
    f64::from_bits(x.to_bits())
}

#[test]
fn test_wind_creation() {
    let wind = Wind::new(Velocity::new(d(5.0), d(2.0)));
    assert_eq!(value(wind.velocity().x()), 5.0);
    assert_eq!(value(wind.velocity().y()), 2.0);
}

#[test]
fn test_wind_zero_velocity() {
    let wind = Wind::new(Velocity::new(d(0.0), d(0.0)));
    assert_eq!(value(wind.velocity().x()), 0.0);
    assert_eq!(value(wind.velocity().y()), 0.0);
}

#[test]
fn test_wind_negative_velocity() {
    let wind = Wind::new(Velocity::new(d(-3.0), d(-1.0)));
    assert_eq!(value(wind.velocity().x()), -3.0);
    assert_eq!(value(wind.velocity().y()), -1.0);
}
