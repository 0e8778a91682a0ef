use similario::double::Double;
use similario::single::Single;

fn double(value: f64) -> Double {
    Double { bits: value.to_bits() }
}

fn single(value: f32) -> Single {
    Single { bits: value.to_bits() }
}

/// Whether two numbers have the same bits, or neither is a number.
fn same_double(found: Double, expected: f64) -> bool {
    found.bits == expected.to_bits() || (f64::from_bits(found.bits).is_nan() && expected.is_nan())
}

fn same_single(found: Single, expected: f32) -> bool {
    found.bits == expected.to_bits() || (f32::from_bits(found.bits).is_nan() && expected.is_nan())
}

fn doubles() -> Vec<f64> {
    let mut numbers = vec![
        0.0, -0.0, 1.0, -1.0, 0.1, 3.0, 1e300, -1e300, 1e-300, 5e-324, f64::MAX, f64::MIN, f64::MIN_POSITIVE,
        f64::INFINITY, f64::NEG_INFINITY, f64::NAN, 9_007_199_254_740_993.0, 0.5, 1.5, 2.5,
    ];
    let mut state: u64 = 21;
    for _ in 0..20 {
        state = state.wrapping_mul(6_364_136_223_846_793_005).wrapping_add(1_442_695_040_888_963_407);
        numbers.push(f64::from_bits(state));
        numbers.push((state >> 40) as f64 / 1000.0);
    }
    numbers
}

fn singles() -> Vec<f32> {
    let mut numbers = vec![
        0.0, -0.0, 1.0, -1.0, 0.1, 3.0, 1e38, -1e38, 1e-38, 1e-45, f32::MAX, f32::MIN, f32::MIN_POSITIVE,
        f32::INFINITY, f32::NEG_INFINITY, f32::NAN, 16_777_217.0, 0.5, 1.5, 2.5,
    ];
    let mut state: u64 = 22;
    for _ in 0..20 {
        state = state.wrapping_mul(6_364_136_223_846_793_005).wrapping_add(1_442_695_040_888_963_407);
        numbers.push(f32::from_bits((state >> 32) as u32));
        numbers.push((state >> 50) as f32 / 1000.0);
    }
    numbers
}

#[test]
fn doubles_are_calculated_with() {
    for x in doubles() {
        for y in doubles() {
            let (a, b) = (double(x), double(y));
            assert!(same_double(a.plus(b), x + y), "{x} + {y}");
            assert!(same_double(a.minus(b), x - y), "{x} - {y}");
            assert!(same_double(a.times(b), x * y), "{x} * {y}");
            assert!(same_double(a.over(b), x / y), "{x} / {y}");
            assert_eq!(a.test_less(b), x < y, "{x} < {y}");
            assert_eq!(a.test_at_most(b), x <= y, "{x} <= {y}");
            // Of two zeros either may be the larger one.
            assert!(x == y || same_double(a.maximum(b), x.max(y)), "max({x}, {y})");
            assert!(x == y || same_double(a.minimum(b), x.min(y)), "min({x}, {y})");
        }
    }
}

#[test]
fn singles_are_calculated_with() {
    for x in singles() {
        for y in singles() {
            let (a, b) = (single(x), single(y));
            assert!(same_single(a.plus(b), x + y), "{x} + {y}");
            assert!(same_single(a.minus(b), x - y), "{x} - {y}");
            assert!(same_single(a.times(b), x * y), "{x} * {y}");
            assert!(same_single(a.over(b), x / y), "{x} / {y}");
            assert_eq!(a.test_less(b), x < y, "{x} < {y}");
            assert_eq!(a.test_at_most(b), x <= y, "{x} <= {y}");
            assert!(x == y || same_single(a.maximum(b), x.max(y)), "max({x}, {y})");
        }
    }
}

#[test]
fn numbers_are_converted() {
    for x in doubles() {
        assert!(same_single(double(x).narrow(), x as f32), "{x}");
        assert!(same_double(double(x).magnitude(), x.abs()), "{x}");
        assert_eq!(double(x).truncate(), x as u64, "{x}");
        assert_eq!(double(x).test_nan(), x.is_nan());
        assert_eq!(double(x).test_finite(), x.is_finite());
        assert_eq!(double(x).is_zero(), x == 0.0);
        assert_eq!(double(x).show(), format!("{x:.1}"));
    }
    for x in singles() {
        assert!(same_double(single(x).widen(), f64::from(x)), "{x}");
    }
    for n in [0, 1, 1000, (1 << 24) + 1, (1 << 53) + 1, (1 << 53) + 3, u64::MAX, u64::MAX >> 9] {
        assert_eq!(Double::count(n), double(n as f64), "{n}");
        assert_eq!(Single::count(n), single(n as f32), "{n}");
    }
    for n in [0, 1, -1, i32::MAX, i32::MIN, -15] {
        assert_eq!(Double::integer(n), double(f64::from(n)), "{n}");
    }
}

#[test]
fn seconds_are_counted_in_billionths() {
    for x in [0.0, 0.1, 1.5, 2.000_000_000_5, 1e-9, 4e-10, 5e-10, 6e-10, 1234.567_890_123_4, 1e15] {
        assert_eq!(double(x).nanos(), std::time::Duration::from_secs_f64(x).as_nanos(), "{x}");
    }
}
