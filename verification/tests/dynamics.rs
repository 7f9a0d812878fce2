use cycling_sim::double::Double;
use cycling_sim::physics::Velocity;
use cycling_sim::rider::{update_rider_velocity, Rider, RiderIds};
use cycling_sim::wind::Wind;

fn d(x: f64) -> Double {
    Double::from_bits(x.to_bits())
}

fn value(x: Double) -> f64 {
    f64::from_bits(x.to_bits())
}

#[test]
fn test_velocity_increases_monotonically_from_zero() {
    let mut ids = RiderIds::new();
    let mut rider = Rider::new(&mut ids, d(300.0), d(0.3), d(80.0));
    let wind = Wind::new(Velocity::new(d(1.0), d(0.0)));

    let dt = d(1.0);

    for _ in 0..100 {
        let old_rider_velocity = rider.velocity();
        update_rider_velocity(&mut rider, dt, &wind);
        let new_rider_velocity = rider.velocity();

        assert!(
            value(new_rider_velocity.x()) >= value(old_rider_velocity.x()),
            "Velocity decreased! prev: {}, current: {}",
            value(old_rider_velocity.x()),
            value(new_rider_velocity.x())
        );
    }
}
