use cycling_sim::double::Double;
use cycling_sim::physics::Velocity;
use cycling_sim::rider::{Rider, RiderIds};
use cycling_sim::simulation::Simulation;
use cycling_sim::wind::Wind;

fn d(x: f64) -> Double {
    Double::from_bits(x.to_bits())
}

fn value(x: Double) -> f64 {
    f64::from_bits(x.to_bits())
}

#[test]
fn test_time_increments() {
    let mut ids = RiderIds::new();
    let riders = vec![Rider::new(&mut ids, d(100.0), d(0.5), d(70.0))];
    let wind = Wind::new(Velocity::new(d(0.0), d(0.0)));
    let dt = d(1.0);
    let mut sim = Simulation::new(riders, wind, dt);
    sim.tick();
    assert_eq!(value(sim.time), 1.0);
}

#[test]
fn test_rider_moves() {
    let mut ids = RiderIds::new();
    let mut rider = Rider::new(&mut ids, d(100.0), d(0.5), d(70.0));
    rider.set_velocity(Velocity::new(d(10.0), d(0.0)));
    let riders = vec![rider];
    let wind = Wind::new(Velocity::new(d(0.0), d(0.0)));
    let dt = d(1.0);
    let mut sim = Simulation::new(riders, wind, dt);
    sim.tick();
    assert!(value(sim.riders[0].position().x()) > 0.0);
}

#[test]
fn test_multiple_riders() {
    let mut ids = RiderIds::new();
    let riders = vec![
        Rider::new(&mut ids, d(100.0), d(0.5), d(70.0)),
        Rider::new(&mut ids, d(120.0), d(0.4), d(75.0)),
    ];
    let wind = Wind::new(Velocity::new(d(0.0), d(0.0)));
    let dt = d(1.0);
    let mut sim = Simulation::new(riders, wind, dt);
    sim.tick();
    assert_eq!(sim.riders.len(), 2);
}

#[test]
fn test_wind_affects_movement() {
    let mut ids = RiderIds::new();
    let mut rider = Rider::new(&mut ids, d(100.0), d(0.5), d(70.0));
    rider.set_velocity(Velocity::new(d(10.0), d(0.0)));
    let riders = vec![rider];
    let wind = Wind::new(Velocity::new(d(-5.0), d(0.0)));
    let dt = d(1.0);
    let mut sim = Simulation::new(riders, wind, dt);
    sim.tick();
    let velocity_with_wind = value(sim.riders[0].velocity().x());

    let mut rider = Rider::new(&mut ids, d(100.0), d(0.5), d(70.0));
    rider.set_velocity(Velocity::new(d(10.0), d(0.0)));
    let riders = vec![rider];
    let wind = Wind::new(Velocity::new(d(0.0), d(0.0)));
    let mut sim = Simulation::new(riders, wind, dt);
    sim.tick();
    let velocity_without_wind = value(sim.riders[0].velocity().x());

    assert!(velocity_with_wind < velocity_without_wind);
}

#[test]
fn time_after_many_ticks_is_their_number_times_the_step() {
    let mut ids = RiderIds::new();
    let riders = vec![Rider::new(&mut ids, d(100.0), d(0.5), d(70.0))];
    let wind = Wind::new(Velocity::new(d(0.0), d(0.0)));
    let mut sim = Simulation::new(riders, wind, d(0.25));
    assert_eq!(value(sim.time), 0.0);
    for n in 1..=40u32 {
        sim.tick();
        assert_eq!(value(sim.time), n as f64 * 0.25);
    }
    let riders = vec![Rider::new(&mut ids, d(100.0), d(0.5), d(70.0))];
    let wind = Wind::new(Velocity::new(d(0.0), d(0.0)));
    let mut sim = Simulation::new(riders, wind, d(0.1));
    for _ in 0..100 {
        sim.tick();
    }
    assert!((value(sim.time) - 10.0).abs() < 1e-9);
}

#[test]
fn first_tick_from_rest_moves_by_the_new_velocity() {
    let mut ids = RiderIds::new();
    let riders = vec![Rider::new(&mut ids, d(250.0), d(0.3), d(75.0))];
    let wind = Wind::new(Velocity::new(d(0.0), d(0.0)));
    let mut sim = Simulation::new(riders, wind, d(1.0));
    sim.tick();
    let v = value(sim.riders[0].velocity().x());
    let p = value(sim.riders[0].position().x());
    assert_eq!(v, 250.0 / 75.0);
    assert_eq!(p, v);
    assert!((v - 3.33).abs() < 0.01);
    assert_eq!(value(sim.riders[0].velocity().y()), 0.0);
    assert_eq!(value(sim.riders[0].position().y()), 0.0);
}

#[test]
fn riders_keep_their_ids_and_do_not_affect_each_other() {
    let mut ids = RiderIds::new();
    let riders = vec![
        Rider::new(&mut ids, d(100.0), d(0.5), d(70.0)),
        Rider::new(&mut ids, d(400.0), d(0.2), d(90.0)),
        Rider::new(&mut ids, d(120.0), d(0.4), d(75.0)),
    ];
    let wind = Wind::new(Velocity::new(d(-2.0), d(0.5)));
    let mut together = Simulation::new(riders, wind, d(0.5));

    let mut other_ids = RiderIds::new();
    let _ = other_ids.issue();
    let _ = other_ids.issue();
    let alone_riders = vec![Rider::new(&mut other_ids, d(120.0), d(0.4), d(75.0))];
    let wind = Wind::new(Velocity::new(d(-2.0), d(0.5)));
    let mut alone = Simulation::new(alone_riders, wind, d(0.5));

    for _ in 0..25 {
        together.tick();
        alone.tick();
        assert_eq!(together.riders.len(), 3);
        assert_eq!(together.riders[0].id, 0);
        assert_eq!(together.riders[1].id, 1);
        assert_eq!(together.riders[2].id, 2);
        assert_eq!(alone.riders[0].id, 2);
        assert_eq!(
            together.riders[2].velocity().x().to_bits(),
            alone.riders[0].velocity().x().to_bits()
        );
        assert_eq!(
            together.riders[2].velocity().y().to_bits(),
            alone.riders[0].velocity().y().to_bits()
        );
        assert_eq!(
            together.riders[2].position().x().to_bits(),
            alone.riders[0].position().x().to_bits()
        );
        assert_eq!(
            together.riders[2].position().y().to_bits(),
            alone.riders[0].position().y().to_bits()
        );
    }
}

#[test]
fn accessors_return_the_same_values_between_ticks() {
    let mut ids = RiderIds::new();
    let riders = vec![Rider::new(&mut ids, d(300.0), d(0.3), d(80.0))];
    let wind = Wind::new(Velocity::new(d(-5.0), d(1.0)));
    let mut sim = Simulation::new(riders, wind, d(1.0));
    for _ in 0..5 {
        sim.tick();
        let first = (
            sim.riders[0].position().x().to_bits(),
            sim.riders[0].position().y().to_bits(),
            sim.riders[0].velocity().x().to_bits(),
            sim.riders[0].velocity().y().to_bits(),
        );
        let second = (
            sim.riders[0].position().x().to_bits(),
            sim.riders[0].position().y().to_bits(),
            sim.riders[0].velocity().x().to_bits(),
            sim.riders[0].velocity().y().to_bits(),
        );
        assert_eq!(first, second);
    }
}

struct Reference {
    px: f64,
    py: f64,
    vx: f64,
    vy: f64,
    power: f64,
    cda: f64,
    mass: f64,
}

fn reference_tick(r: &mut Reference, dt: f64, wx: f64, wy: f64) {
    let force_x = r.power / r.vx.max(1.0);
    let rel_x = r.vx - wx;
    let rel_y = r.vy - wy;
    let mag = (rel_x * rel_x + rel_y * rel_y).sqrt();
    let drag_mag = 0.5 * r.cda * 1.225 * (mag * mag);
    let (ux, uy) = if mag < f64::EPSILON {
        (0.0, 0.0)
    } else {
        (rel_x * (1.0 / mag), rel_y * (1.0 / mag))
    };
    let total_x = force_x + -1.0 * drag_mag * ux;
    let total_y = 0.0 + -1.0 * drag_mag * uy;
    r.vx = r.vx + (total_x / r.mass) * dt;
    r.vy = r.vy + (total_y / r.mass) * dt;
    r.px = r.px + r.vx * dt;
    r.py = r.py + r.vy * dt;
}

#[test]
fn a_run_agrees_with_hardware_arithmetic_bit_for_bit() {
    let mut ids = RiderIds::new();
    let riders = vec![
        Rider::new(&mut ids, d(300.0), d(0.3), d(80.0)),
        Rider::new(&mut ids, d(180.0), d(0.45), d(62.5)),
    ];
    let wind = Wind::new(Velocity::new(d(-5.0), d(1.0)));
    let mut sim = Simulation::new(riders, wind, d(0.7));
    let mut refs = vec![
        Reference { px: 0.0, py: 0.0, vx: 0.0, vy: 0.0, power: 300.0, cda: 0.3, mass: 80.0 },
        Reference { px: 0.0, py: 0.0, vx: 0.0, vy: 0.0, power: 180.0, cda: 0.45, mass: 62.5 },
    ];
    let mut time = 0.0f64;
    for _ in 0..200 {
        sim.tick();
        for r in refs.iter_mut() {
            reference_tick(r, 0.7, -5.0, 1.0);
        }
        time += 0.7;
        assert_eq!(sim.time.to_bits(), time.to_bits());
        for (rider, r) in sim.riders.iter().zip(refs.iter()) {
            assert_eq!(rider.velocity().x().to_bits(), r.vx.to_bits());
            assert_eq!(rider.velocity().y().to_bits(), r.vy.to_bits());
            assert_eq!(rider.position().x().to_bits(), r.px.to_bits());
            assert_eq!(rider.position().y().to_bits(), r.py.to_bits());
        }
    }
}
