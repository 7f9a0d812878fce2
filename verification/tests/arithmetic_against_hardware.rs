use cycling_sim::double::Double;

fn d(x: f64) -> Double {
    Double::from_bits(x.to_bits())
}

fn same(got: Double, want: f64) -> bool {
    if want.is_nan() {
        got.is_nan()
    } else {
        got.to_bits() == want.to_bits()
    }
}

fn samples() -> Vec<f64> {
    let mut v = vec![
        0.0,
        -0.0,
        1.0,
        -1.0,
        0.5,
        2.0,
        3.0,
        4.0,
        10.0,
        0.1,
        0.3,
        1.225,
        1.0 / 3.0,
        f64::EPSILON,
        f64::MIN_POSITIVE,
        f64::MIN_POSITIVE / 2.0,
        f64::from_bits(1),
        f64::from_bits(2),
        f64::from_bits(3),
        f64::from_bits(0x000F_FFFF_FFFF_FFFF),
        f64::MAX,
        f64::MAX / 2.0,
        -f64::MAX,
        f64::INFINITY,
        f64::NEG_INFINITY,
        f64::NAN,
        1e308,
        1e-308,
        1e-320,
        1e150,
        1e-150,
        1e200,
        1e-200,
        9007199254740992.0,
        9007199254740993.0,
        9007199254740991.0,
        4503599627370496.5,
        1.0 + f64::EPSILON,
        1.0 - f64::EPSILON / 2.0,
        2.0_f64.sqrt(),
        std::f64::consts::PI,
        -std::f64::consts::E,
        123456789.123456789,
        -75.0,
        250.0,
    ];
    let mut state: u64 = 0x9E37_79B9_7F4A_7C15;
    for _ in 0..60 {
        state ^= state << 13;
        state ^= state >> 7;
        state ^= state << 17;
        v.push(f64::from_bits(state));
        let near_one = 0x3FF0_0000_0000_0000u64 ^ (state >> 12);
        v.push(f64::from_bits(near_one));
        let small_exp = ((state >> 52) % 80 + 983) << 52 | (state & 0x800F_FFFF_FFFF_FFFF);
        v.push(f64::from_bits(small_exp));
    }
    v
}

#[test]
fn sum_agrees_with_hardware() {
    let v = samples();
    for &a in &v {
        for &b in &v {
            assert!(same(d(a).add(&d(b)), a + b), "{:e} + {:e}", a, b);
        }
    }
}

#[test]
fn difference_agrees_with_hardware() {
    let v = samples();
    for &a in &v {
        for &b in &v {
            assert!(same(d(a).sub(&d(b)), a - b), "{:e} - {:e}", a, b);
        }
    }
}

#[test]
fn product_agrees_with_hardware() {
    let v = samples();
    for &a in &v {
        for &b in &v {
            assert!(same(d(a).mul(&d(b)), a * b), "{:e} * {:e}", a, b);
        }
    }
}

#[test]
fn quotient_agrees_with_hardware() {
    let v = samples();
    for &a in &v {
        for &b in &v {
            assert!(same(d(a).div(&d(b)), a / b), "{:e} / {:e}", a, b);
        }
    }
}

#[test]
fn square_root_agrees_with_hardware() {
    let v = samples();
    for &a in &v {
        assert!(same(d(a).sqrt(), a.sqrt()), "sqrt {:e}", a);
    }
    for i in 0..2000u64 {
        let a = i as f64 * 0.37;
        assert!(same(d(a).sqrt(), a.sqrt()), "sqrt {:e}", a);
    }
}

#[test]
fn order_agrees_with_hardware() {
    let v = samples();
    for &a in &v {
        for &b in &v {
            assert_eq!(d(a).lt(&d(b)), a < b, "{:e} < {:e}", a, b);
        }
    }
}

#[test]
fn maximum_agrees_with_hardware() {
    let v = samples();
    for &a in &v {
        for &b in &v {
            if a == 0.0 && b == 0.0 {
                continue;
            }
            assert!(same(d(a).max(&d(b)), a.max(b)), "max {:e} {:e}", a, b);
        }
    }
}

struct Random(u64);

impl Random {
    fn next(&mut self) -> u64 {
        self.0 ^= self.0 << 13;
        self.0 ^= self.0 >> 7;
        self.0 ^= self.0 << 17;
        self.0
    }

    /// Any encoding, then one whose exponent is within `spread` of that of
    /// the first.
    fn pair(&mut self, spread: u64) -> (f64, f64) {
        let a = self.next();
        let b = self.next();
        let exponent_a = (a >> 52) & 0x7FF;
        let shift = self.next() % (2 * spread + 1);
        let exponent_b = (exponent_a + shift).saturating_sub(spread).min(0x7FF);
        let b = (b & 0x800F_FFFF_FFFF_FFFF) | (exponent_b << 52);
        (f64::from_bits(a), f64::from_bits(b))
    }
}

#[test]
fn random_sums_and_differences_agree_with_hardware() {
    let mut random = Random(0x2545_F491_4F6C_DD1D);
    for round in 0..30000u64 {
        let (a, b) = random.pair(if round % 3 == 0 { 2 } else { 70 });
        assert!(same(d(a).add(&d(b)), a + b), "{:e} + {:e}", a, b);
        assert!(same(d(a).sub(&d(b)), a - b), "{:e} - {:e}", a, b);
    }
}

#[test]
fn random_products_and_quotients_agree_with_hardware() {
    let mut random = Random(0x1234_5678_9ABC_DEF1);
    for round in 0..30000u64 {
        let (a, b) = if round % 2 == 0 {
            random.pair(1100)
        } else {
            (f64::from_bits(random.next()), f64::from_bits(random.next()))
        };
        assert!(same(d(a).mul(&d(b)), a * b), "{:e} * {:e}", a, b);
        assert!(same(d(a).div(&d(b)), a / b), "{:e} / {:e}", a, b);
    }
}

#[test]
fn random_square_roots_agree_with_hardware() {
    let mut random = Random(0x0F0F_1234_5555_AAAA);
    for _ in 0..30000u64 {
        let a = f64::from_bits(random.next() & 0x7FFF_FFFF_FFFF_FFFF);
        assert!(same(d(a).sqrt(), a.sqrt()), "sqrt {:e}", a);
        let square = f64::from_bits(random.next() & 0x000F_FFFF_FFFF_FFFF | 0x3FF0_0000_0000_0000);
        let square = square * square;
        assert!(same(d(square).sqrt(), square.sqrt()), "sqrt {:e}", square);
    }
}

#[test]
fn random_subnormal_results_agree_with_hardware() {
    let mut random = Random(0x7777_1212_3434_5656);
    for _ in 0..20000u64 {
        let a = f64::from_bits(random.next() & 0x801F_FFFF_FFFF_FFFF);
        let b = f64::from_bits(random.next() & 0x801F_FFFF_FFFF_FFFF);
        let c = f64::from_bits((random.next() & 0x800F_FFFF_FFFF_FFFF) | 0x3FE0_0000_0000_0000);
        assert!(same(d(a).add(&d(b)), a + b), "{:e} + {:e}", a, b);
        assert!(same(d(a).sub(&d(b)), a - b), "{:e} - {:e}", a, b);
        assert!(same(d(a).mul(&d(c)), a * c), "{:e} * {:e}", a, c);
        assert!(same(d(a).div(&d(c)), a / c), "{:e} / {:e}", a, c);
        assert!(same(d(a).div(&d(b)), a / b), "{:e} / {:e}", a, b);
    }
}
