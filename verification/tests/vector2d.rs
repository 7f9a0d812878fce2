use cycling_sim::double::Double;
use cycling_sim::vector2d::{Pair, Vector2D};

fn d(x: f64) -> Double {
    Double::from_bits(x.to_bits())
}

fn value(x: Double) -> f64 {
    f64::from_bits(x.to_bits())
}

struct TestVector {
    x: Double,
    y: Double,
}

impl Vector2D for TestVector {
    fn components(&self) -> Pair {
        Pair { x: self.x, y: self.y }
    }

    fn x(&self) -> Double {
        self.x
    }

    fn y(&self) -> Double {
        self.y
    }

    fn from_components(x: Double, y: Double) -> Self {
        Self { x, y }
    }
}

#[test]
fn test_magnitude() {
    let v = TestVector { x: d(3.0), y: d(4.0) };
    assert_eq!(value(v.magnitude()), 5.0);
}

#[test]
fn test_magnitude_negative() {
    let v = TestVector { x: d(-3.0), y: d(-4.0) };
    assert_eq!(value(v.magnitude()), 5.0);
}

#[test]
fn test_unit() {
    let v = TestVector { x: d(3.0), y: d(3.0) };
    let unit = v.unit();
    assert_eq!(value(unit.magnitude()), 1.0);
    assert!((value(unit.x()) - value(unit.y())).abs() < f64::EPSILON);
    assert!((value(unit.x()) - (2.0_f64.sqrt() / 2.0)).abs() < f64::EPSILON);
}

#[test]
fn test_unit_of_zero() {
    let v = TestVector { x: d(0.0), y: d(0.0) };
    let unit = v.unit();
    assert_eq!(value(unit.magnitude()), 0.0);
}

#[test]
fn test_scale() {
    let v = TestVector { x: d(3.0), y: d(4.0) };
    let scaled = v.scale(d(2.0));
    assert_eq!(value(scaled.magnitude()), 10.0);
    assert_eq!(value(scaled.x()), 6.0);
    assert_eq!(value(scaled.y()), 8.0);
}

#[test]
fn test_add() {
    let v1 = TestVector { x: d(3.0), y: d(4.0) };
    let v2 = TestVector { x: d(1.0), y: d(2.0) };
    let added = v1.add(&v2);
    assert_eq!(value(added.x()), 4.0);
    assert_eq!(value(added.y()), 6.0);
}

#[test]
fn test_sub() {
    let v1 = TestVector { x: d(3.0), y: d(4.0) };
    let v2 = TestVector { x: d(1.0), y: d(2.0) };
    let subbed = v1.sub(&v2);
    assert_eq!(value(subbed.x()), 2.0);
    assert_eq!(value(subbed.y()), 2.0);
}

#[test]
fn test_from_components() {
    let v = TestVector::from_components(d(1.0), d(2.0));
    assert_eq!(value(v.x()), 1.0);
    assert_eq!(value(v.y()), 2.0);
}

#[test]
fn unit_of_zeros_of_either_sign_is_the_zero_vector() {
    for (x, y) in [(0.0, 0.0), (-0.0, 0.0), (0.0, -0.0), (-0.0, -0.0)] {
        let unit = TestVector { x: d(x), y: d(y) }.unit();
        assert_eq!(unit.x().to_bits(), 0);
        assert_eq!(unit.y().to_bits(), 0);
    }
}

#[test]
fn unit_of_a_vector_shorter_than_epsilon_is_the_zero_vector() {
    let unit = TestVector { x: d(1e-17), y: d(0.0) }.unit();
    assert_eq!(value(unit.x()), 0.0);
    assert_eq!(value(unit.y()), 0.0);
    let unit = TestVector { x: d(1e-200), y: d(1e-200) }.unit();
    assert_eq!(value(unit.magnitude()), 0.0);
    let unit = TestVector { x: d(f64::EPSILON), y: d(0.0) }.unit();
    assert_eq!(value(unit.x()), 1.0);
}

#[test]
fn unit_is_parallel_and_of_length_one() {
    for (x, y) in [(3.0, 4.0), (-5.0, 12.0), (0.0, -2.0), (1e10, 1e-3), (0.3, -0.7)] {
        let v = TestVector { x: d(x), y: d(y) };
        let unit = v.unit();
        assert!((value(unit.magnitude()) - 1.0).abs() < 4.0 * f64::EPSILON);
        let cross = x * value(unit.y()) - y * value(unit.x());
        assert!(cross.abs() <= 4.0 * f64::EPSILON * (x.abs() + y.abs()));
        assert!(x * value(unit.x()) + y * value(unit.y()) > 0.0);
    }
    let unit = TestVector { x: d(3.0), y: d(4.0) }.unit();
    assert_eq!(value(unit.x()), 3.0 * (1.0 / 5.0));
    assert_eq!(value(unit.y()), 4.0 * (1.0 / 5.0));
}

#[test]
fn magnitude_scales_with_the_vector() {
    for (x, y, k) in [(3.0, 4.0, 2.0), (3.0, 4.0, 0.0), (5.0, 12.0, 0.5), (1.0, 1.0, 4.0), (8.0, 6.0, 1.0)] {
        let v = TestVector { x: d(x), y: d(y) };
        assert_eq!(value(v.scale(d(k)).magnitude()), k * value(v.magnitude()));
    }
    // In general the two sides agree only up to rounding.
    let v = TestVector { x: d(1.0), y: d(1.0) };
    let scaled = value(v.scale(d(3.0)).magnitude());
    let product = 3.0 * value(v.magnitude());
    assert_eq!(scaled, 4.242640687119285);
    assert_eq!(product, 4.242640687119286);
    assert!((scaled - product).abs() <= 2.0 * f64::EPSILON * product);
}

#[test]
fn magnitude_of_the_zero_vector_is_zero() {
    let v = TestVector { x: d(0.0), y: d(-0.0) };
    assert_eq!(v.magnitude().to_bits(), 0);
}

#[test]
fn magnitude_scales_exactly_with_powers_of_two() {
    let vectors = [(3.0, 4.0), (1.0, 1.0), (0.1, 0.7), (-2.5, 1e3), (0.0, 7.0), (1e-5, 0.0)];
    for (x, y) in vectors {
        let v = TestVector { x: d(x), y: d(y) };
        for j in [-40, -3, -1, 0, 1, 2, 10, 100] {
            let k = 2.0f64.powi(j);
            assert_eq!(
                v.scale(d(k)).magnitude().to_bits(),
                d(k).mul(&v.magnitude()).to_bits(),
                "({}, {}) scaled by 2^{}",
                x,
                y,
                j
            );
        }
    }
}
