//! Arithmetic on bit patterns against the numbers that they stand for.
use hera_leds::color::{FULL_SCALE, ONE_HALF, SEVENTY_FIVE};
use hera_leds::double::Double;
use hera_leds::stats::{RANGE_HIGH, RANGE_LOW, SCALE_HIGH, SCALE_LOW, TWO, UNMEASURED};

fn d(x: f64) -> Double {
    Double { bits: x.to_bits() }
}

fn f(x: Double) -> f64 {
    f64::from_bits(x.bits)
}

/// Numbers at every corner of the format.
fn corners() -> Vec<f64> {
    let mut v = vec![
        0.0,
        1.0,
        1.5,
        2.0,
        3.0,
        0.1,
        45.0,
        20.0,
        75.0,
        90.0,
        100.0,
        255.0,
        256.0,
        254.999,
        1e-300,
        1e300,
        1e-320,
        5e-324,
        f64::MAX,
        f64::MIN_POSITIVE,
        f64::EPSILON,
        1.0 + f64::EPSILON,
        1.0 - f64::EPSILON / 2.0,
        9007199254740991.0,
        9007199254740992.0,
        9007199254740994.0,
        4503599627370496.5,
        2.2250738585072009e-308,
        f64::INFINITY,
        f64::NAN,
    ];
    let negatives: Vec<f64> = v.iter().map(|x| -x).collect();
    v.extend(negatives);
    v
}

/// Bit patterns without an order to them.
fn scattered(n: usize) -> Vec<f64> {
    let mut state: u64 = 0x9e37_79b9_7f4a_7c15;
    let mut v = Vec::new();
    for i in 0..n {
        state = state.wrapping_mul(6364136223846793005).wrapping_add(1442695040888963407);
        let bits = if i % 3 == 0 {
            // exponents close to each other
            (state & 0x800f_ffff_ffff_ffff) | ((1000 + (state >> 58)) << 52)
        } else {
            state ^ (state >> 29)
        };
        v.push(f64::from_bits(bits));
    }
    v
}

fn same(x: Double, y: f64) -> bool {
    x.bits == y.to_bits() || (f(x).is_nan() && y.is_nan())
}

fn agree(x: f64, y: f64) {
    assert!(same(d(x).add_to(d(y)), x + y), "{:e} + {:e}", x, y);
    assert!(same(d(x).subtract(d(y)), x - y), "{:e} - {:e}", x, y);
    assert!(same(d(x).multiply(d(y)), x * y), "{:e} * {:e}", x, y);
    assert!(same(d(x).divide(d(y)), x / y), "{:e} / {:e}", x, y);
    assert_eq!(d(x).le(d(y)), x <= y, "{:e} <= {:e}", x, y);
}

#[test]
fn operations_at_the_corners() {
    let v = corners();
    for x in &v {
        for y in &v {
            agree(*x, *y);
        }
    }
}

#[test]
fn operations_on_scattered_patterns() {
    let v = scattered(1500);
    for x in &v {
        for y in v.iter().take(200) {
            agree(*x, *y);
        }
    }
}

#[test]
fn sums_of_distant_numbers() {
    for gap in 0..160 {
        let small = 2f64.powi(-gap);
        for x in [1.0, 1.25, 1.0 + f64::EPSILON, 2.0 - f64::EPSILON] {
            for y in [1.0, 1.5, 1.0 + f64::EPSILON, 2.0 - f64::EPSILON] {
                agree(x, y * small);
                agree(x, -y * small);
                agree(y * small, -x);
            }
        }
    }
}

#[test]
fn ties_go_to_even() {
    // halfway between two neighbours
    let x = 9007199254740992.0;
    assert_eq!(f(d(x).add_to(d(1.0))), x);
    assert_eq!(f(d(x + 2.0).add_to(d(1.0))), x + 4.0);
}

#[test]
fn overflow_and_underflow() {
    assert_eq!(f(d(f64::MAX).add_to(d(f64::MAX))), f64::INFINITY);
    assert_eq!(f(d(1e-300).multiply(d(1e-300))), 0.0);
    assert_eq!(d(-5e-324).divide(d(2.0)).bits, (-0.0f64).to_bits());
    assert_eq!(f(d(1.0).divide(d(-0.0))), f64::NEG_INFINITY);
}

#[test]
fn whole_bytes() {
    for x in corners() {
        assert_eq!(d(x).to_byte(), x as u8, "{:e}", x);
    }
    for x in scattered(20000) {
        assert_eq!(d(x).to_byte(), x as u8, "{:e}", x);
    }
    for i in 0..=2600 {
        let x = i as f64 / 10.0;
        assert_eq!(d(x).to_byte(), x as u8);
        assert_eq!(d(-x).to_byte(), 0);
    }
    assert_eq!(d(255.0).to_byte(), 255);
    assert_eq!(d(254.99).to_byte(), 254);
}

#[test]
fn finite_numbers() {
    for x in corners().into_iter().chain(scattered(5000)) {
        assert_eq!(d(x).is_finite(), x.is_finite(), "{:e}", x);
    }
}

#[test]
fn negation() {
    for x in corners() {
        assert!(same(d(x).negate(), -x));
    }
    assert_eq!(d(0.0).negate().bits, (-0.0f64).to_bits());
}

#[test]
fn named_patterns() {
    assert_eq!(f64::from_bits(ONE_HALF), 0.5);
    assert_eq!(f64::from_bits(SEVENTY_FIVE), 75.0);
    assert_eq!(f64::from_bits(FULL_SCALE), 255.0);
    assert_eq!(f64::from_bits(TWO), 2.0);
    assert_eq!(f64::from_bits(RANGE_LOW), -45.0);
    assert_eq!(f64::from_bits(RANGE_HIGH), -20.0);
    assert_eq!(f64::from_bits(SCALE_LOW), -100.0);
    assert_eq!(f64::from_bits(SCALE_HIGH), -10.0);
    assert_eq!(f64::from_bits(UNMEASURED), f64::NEG_INFINITY);
}
