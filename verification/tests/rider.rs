use cycling_sim::double::Double;
use cycling_sim::physics::Velocity;
use cycling_sim::rider::{
    calculate_rider_drag, calculate_rider_force, update_rider_position, update_rider_velocity,
    Rider, RiderIds,
};
use cycling_sim::wind::Wind;

fn d(x: f64) -> Double {
    Double::from_bits(x.to_bits())
}

fn value(x: Double) -> f64 {
    f64::from_bits(x.to_bits())
}

#[test]
fn test_rider_creation() {
    let mut ids = RiderIds::new();
    let rider = Rider::new(&mut ids, d(250.0), d(0.3), d(75.0));
    assert_eq!(value(rider.power()), 250.0);
    assert_eq!(value(rider.cda()), 0.3);
    assert_eq!(value(rider.mass()), 75.0);
    assert_eq!(value(rider.position().x()), 0.0);
    assert_eq!(value(rider.position().y()), 0.0);
    assert_eq!(value(rider.velocity().x()), 0.0);
    assert_eq!(value(rider.velocity().y()), 0.0);
}

#[test]
fn test_rider_id_increment() {
    let mut ids = RiderIds::new();
    let rider1 = Rider::new(&mut ids, d(250.0), d(0.3), d(75.0));
    let rider2 = Rider::new(&mut ids, d(250.0), d(0.3), d(75.0));
    assert_eq!(rider2.id, rider1.id + 1);
}

#[test]
fn test_rider_position_update() {
    let mut ids = RiderIds::new();
    let mut rider = Rider::new(&mut ids, d(250.0), d(0.3), d(75.0));
    rider.set_velocity(Velocity::new(d(10.0), d(0.0)));
    update_rider_position(&mut rider, d(1.0));
    assert_eq!(value(rider.position().x()), 10.0);
    assert_eq!(value(rider.position().y()), 0.0);
}

#[test]
fn test_rider_velocity_update() {
    let mut ids = RiderIds::new();
    let mut rider = Rider::new(&mut ids, d(250.0), d(0.3), d(75.0));
    let wind = Wind::new(Velocity::new(d(0.0), d(0.0)));
    update_rider_velocity(&mut rider, d(1.0), &wind);
    assert!(value(rider.velocity().x()) > 0.0);
}

#[test]
fn test_rider_drag_calculation() {
    let mut ids = RiderIds::new();
    let mut rider = Rider::new(&mut ids, d(250.0), d(0.3), d(75.0));
    rider.set_velocity(Velocity::new(d(10.0), d(0.0)));
    let wind = Wind::new(Velocity::new(d(0.0), d(0.0)));
    let drag = calculate_rider_drag(&rider, &wind);
    assert!(value(drag.x()) < 0.0);
    assert_eq!(value(drag.y()), 0.0);
}

#[test]
fn test_rider_force_at_zero_velocity() {
    let mut ids = RiderIds::new();
    let rider = Rider::new(&mut ids, d(250.0), d(0.3), d(75.0));
    let force = calculate_rider_force(&rider);
    assert_eq!(value(force.x()), 250.0);
    assert_eq!(value(force.y()), 0.0);
}

#[test]
fn ids_start_at_zero_and_rise_by_one() {
    let mut ids = RiderIds::new();
    assert!(!ids.is_exhausted());
    for expected in 0..50u32 {
        let rider = Rider::new(&mut ids, d(200.0), d(0.25), d(60.0));
        assert_eq!(rider.id, expected);
    }
    assert_eq!(ids.issue(), 50);
    assert_eq!(ids.issue(), 51);
}

#[test]
fn force_above_the_floor_is_power_over_speed() {
    let mut ids = RiderIds::new();
    let mut rider = Rider::new(&mut ids, d(250.0), d(0.3), d(75.0));
    rider.set_velocity(Velocity::new(d(4.0), d(7.0)));
    let force = calculate_rider_force(&rider);
    assert_eq!(value(force.x()), 62.5);
    assert_eq!(value(force.y()), 0.0);
    rider.set_velocity(Velocity::new(d(0.5), d(0.0)));
    assert_eq!(value(calculate_rider_force(&rider).x()), 250.0);
    rider.set_velocity(Velocity::new(d(-3.0), d(0.0)));
    assert_eq!(value(calculate_rider_force(&rider).x()), 250.0);
}

#[test]
fn drag_is_half_cda_density_speed_squared_against_the_motion() {
    let mut ids = RiderIds::new();
    let mut rider = Rider::new(&mut ids, d(250.0), d(0.3), d(75.0));
    rider.set_velocity(Velocity::new(d(10.0), d(0.0)));
    let still = Wind::new(Velocity::new(d(0.0), d(0.0)));
    let drag = calculate_rider_drag(&rider, &still);
    assert_eq!(value(drag.x()), -1.0 * (0.5 * 0.3 * 1.225 * 100.0) * 1.0);
    let head = Wind::new(Velocity::new(d(-5.0), d(0.0)));
    let drag = calculate_rider_drag(&rider, &head);
    assert_eq!(value(drag.x()), -1.0 * (0.5 * 0.3 * 1.225 * 225.0) * 1.0);
    let tail = Wind::new(Velocity::new(d(14.0), d(3.0)));
    let drag = calculate_rider_drag(&rider, &tail);
    assert_eq!(value(drag.x()), -1.0 * (0.5 * 0.3 * 1.225 * 25.0) * (-4.0 * (1.0 / 5.0)));
    assert_eq!(value(drag.y()), -1.0 * (0.5 * 0.3 * 1.225 * 25.0) * (-3.0 * (1.0 / 5.0)));
}

#[test]
fn no_drag_when_moving_with_the_air() {
    let mut ids = RiderIds::new();
    let mut rider = Rider::new(&mut ids, d(250.0), d(0.3), d(75.0));
    rider.set_velocity(Velocity::new(d(6.5), d(-1.25)));
    let wind = Wind::new(Velocity::new(d(6.5), d(-1.25)));
    let drag = calculate_rider_drag(&rider, &wind);
    assert_eq!(value(drag.x()), 0.0);
    assert_eq!(value(drag.y()), 0.0);
}

#[test]
fn first_tick_from_rest_uses_the_speed_floor() {
    let mut ids = RiderIds::new();
    let mut rider = Rider::new(&mut ids, d(250.0), d(0.3), d(75.0));
    let wind = Wind::new(Velocity::new(d(0.0), d(0.0)));
    update_rider_velocity(&mut rider, d(1.0), &wind);
    assert_eq!(value(rider.velocity().x()), 250.0 / 75.0);
    assert_eq!(value(rider.velocity().y()), 0.0);
    assert_eq!(value(rider.position().x()), 0.0);
    update_rider_position(&mut rider, d(1.0));
    assert_eq!(value(rider.position().x()), 250.0 / 75.0);
    assert!((value(rider.position().x()) - 3.33).abs() < 0.01);
}

#[test]
fn setters_replace_one_field_only() {
    let mut ids = RiderIds::new();
    let mut rider = Rider::new(&mut ids, d(250.0), d(0.3), d(75.0));
    rider.set_position(cycling_sim::physics::Position::new(d(2.0), d(-3.0)));
    rider.set_velocity(Velocity::new(d(1.5), d(0.5)));
    assert_eq!(rider.id, 0);
    assert_eq!(value(rider.position().x()), 2.0);
    assert_eq!(value(rider.position().y()), -3.0);
    assert_eq!(value(rider.velocity().x()), 1.5);
    assert_eq!(value(rider.velocity().y()), 0.5);
    assert_eq!(value(rider.power()), 250.0);
    assert_eq!(value(rider.cda()), 0.3);
    assert_eq!(value(rider.mass()), 75.0);
}

#[test]
fn drag_is_never_on_the_side_of_the_motion_through_the_air() {
    let mut ids = RiderIds::new();
    let mut rider = Rider::new(&mut ids, d(250.0), d(0.3), d(75.0));
    let speeds = [-12.0, -1.0, -1e-9, 0.0, 1e-9, 0.5, 3.0, 20.0];
    for vx in speeds {
        for vy in speeds {
            for wx in [-6.0, 0.0, 2.5] {
                for wy in [-1.5, 0.0, 4.0] {
                    rider.set_velocity(Velocity::new(d(vx), d(vy)));
                    let wind = Wind::new(Velocity::new(d(wx), d(wy)));
                    let drag = calculate_rider_drag(&rider, &wind);
                    let (rx, ry) = (vx - wx, vy - wy);
                    assert!(value(drag.x()) * rx <= 0.0);
                    assert!(value(drag.y()) * ry <= 0.0);
                    if rx > 1e-3 {
                        assert!(value(drag.x()) < 0.0);
                    }
                    if ry < -1e-3 {
                        assert!(value(drag.y()) > 0.0);
                    }
                }
            }
        }
    }
}

#[test]
fn speed_does_not_drop_while_the_net_force_is_not_negative() {
    let mut ids = RiderIds::new();
    let mut rider = Rider::new(&mut ids, d(300.0), d(0.3), d(80.0));
    let wind = Wind::new(Velocity::new(d(-5.0), d(1.0)));
    for _ in 0..300 {
        let before = value(rider.velocity().x());
        let force = calculate_rider_force(&rider);
        let drag = calculate_rider_drag(&rider, &wind);
        let net = value(force.x()) + value(drag.x());
        update_rider_velocity(&mut rider, d(0.5), &wind);
        if net >= 0.0 {
            assert!(value(rider.velocity().x()) >= before);
        }
    }
    assert!(value(rider.velocity().x()) > 5.0);
}
