use system_ocr::float::double::Double;
use system_ocr::float::model::Precision;

fn double(value: f64) -> Double {
    Double::from_bits(value.to_bits())
}

fn single(value: f32) -> Double {
    double(f64::from(value))
}

/// Bit patterns around the places where a format changes its behaviour.
fn edge_values() -> Vec<f64> {
    let mut values = vec![
        0.0,
        1.0,
        2.0,
        0.1,
        0.2,
        0.3,
        0.5,
        1.0 / 3.0,
        10.0,
        99.5,
        100.0,
        1e16,
        9007199254740991.0,
        9007199254740992.0,
        9007199254740993.0,
        1e300,
        1e-300,
        f64::MAX,
        f64::MIN_POSITIVE,
        f64::EPSILON,
        f64::EPSILON / 2.0,
        f64::from_bits(1),
        f64::from_bits(2),
        f64::from_bits(3),
        f64::from_bits(0x000f_ffff_ffff_ffff),
        f64::from_bits(0x0010_0000_0000_0001),
        f64::from_bits(0x3fef_ffff_ffff_ffff),
        f64::from_bits(0x3ff0_0000_0000_0001),
        f64::from_bits(0x7fe0_0000_0000_0000),
        f64::from(f32::MAX),
        f64::from(f32::MIN_POSITIVE),
        f64::from(f32::from_bits(1)),
        f64::INFINITY,
        f64::NAN,
    ];
    let negatives: Vec<f64> = values.iter().map(|value| -value).collect();
    values.extend(negatives);
    values
}

struct Generator(u64);

impl Generator {
    fn next(&mut self) -> u64 {
        self.0 ^= self.0 << 13;
        self.0 ^= self.0 >> 7;
        self.0 ^= self.0 << 17;
        self.0
    }
}

fn assert_number(actual: Double, expected: f64, what: &str, a: f64, b: f64) {
    if expected.is_nan() {
        assert!(actual.is_nan(), "{what} of {a:e} and {b:e}");
    } else {
        assert_eq!(actual.to_bits(), expected.to_bits(), "{what} of {a:e} and {b:e}");
    }
}

fn check_pair(a: f64, b: f64) {
    let (x, y) = (double(a), double(b));
    assert_number(x.plus(y, Precision::Double), a + b, "sum", a, b);
    assert_number(x.minus(y, Precision::Double), a - b, "difference", a, b);
    assert_number(x.times(y, Precision::Double), a * b, "product", a, b);
    assert_number(x.over(y, Precision::Double), a / b, "quotient", a, b);
    assert_eq!(x.less(y), a < b, "{a:e} < {b:e}");
    assert_eq!(x.at_most(y), a <= b, "{a:e} <= {b:e}");
    assert_eq!(x == y, a == b, "{a:e} == {b:e}");
    let smaller = f64::from_bits(x.smaller(y).to_bits());
    let larger = f64::from_bits(x.larger(y).to_bits());
    assert!(smaller == a.min(b) || (a.is_nan() && b.is_nan() && smaller.is_nan()));
    assert!(larger == a.max(b) || (a.is_nan() && b.is_nan() && larger.is_nan()));
}

fn check_single_pair(a: f32, b: f32) {
    let (x, y) = (single(a), single(b));
    let (p, q) = (f64::from(a), f64::from(b));
    assert_number(x.plus(y, Precision::Single), f64::from(a + b), "sum", p, q);
    assert_number(x.over(y, Precision::Single), f64::from(a / b), "quotient", p, q);
    assert_number(x.times(y, Precision::Single), f64::from(a * b), "product", p, q);
}

#[test]
fn arithmetic_agrees_with_the_hardware_on_edge_values() {
    let values = edge_values();
    for a in &values {
        for b in &values {
            check_pair(*a, *b);
            check_single_pair(*a as f32, *b as f32);
        }
    }
}

#[test]
fn arithmetic_agrees_with_the_hardware_on_random_bits() {
    let mut generator = Generator(0x9e37_79b9_7f4a_7c15);
    for _ in 0..40_000 {
        let a = generator.next();
        let b = generator.next();
        check_pair(f64::from_bits(a), f64::from_bits(b));
        check_single_pair(f32::from_bits(a as u32), f32::from_bits(b as u32));
    }
}

#[test]
fn arithmetic_agrees_with_the_hardware_on_close_exponents() {
    let mut generator = Generator(0x2545_f491_4f6c_dd1d);
    for _ in 0..40_000 {
        let a = generator.next();
        let gap = generator.next() % 140;
        let exponent = 0x300 + generator.next() % 0x100;
        let sign = (generator.next() % 2) << 63;
        let first = (a & 0x000f_ffff_ffff_ffff) | (exponent << 52);
        let second = (generator.next() & 0x000f_ffff_ffff_ffff) | ((exponent - gap) << 52) | sign;
        check_pair(f64::from_bits(first), f64::from_bits(second));
        check_pair(f64::from_bits(second), f64::from_bits(first));
    }
}

#[test]
fn arithmetic_agrees_with_the_hardware_near_the_ends() {
    let mut generator = Generator(0x1234_5678_9abc_def1);
    for _ in 0..20_000 {
        let tiny = f64::from_bits(generator.next() & 0x003f_ffff_ffff_ffff);
        let other = f64::from_bits(generator.next() & 0x003f_ffff_ffff_ffff);
        check_pair(tiny, other);
        check_pair(tiny, -other);
        check_pair(tiny, f64::from_bits(0x3fd0_0000_0000_0000 | (generator.next() >> 10)));
        let huge = f64::from_bits(0x7fc0_0000_0000_0000 | (generator.next() >> 12));
        check_pair(huge, f64::from_bits(0x7fe0_0000_0000_0000 | (generator.next() >> 12)));
    }
}

#[test]
fn rounding_goes_to_the_even_neighbour() {
    let one = double(1.0);
    let half_step = double(f64::EPSILON / 2.0);
    assert_eq!(one.plus(half_step, Precision::Double), one);
    let odd = double(1.0 + f64::EPSILON);
    assert_eq!(odd.plus(half_step, Precision::Double), double(1.0 + 2.0 * f64::EPSILON));
}

#[test]
fn sums_past_the_largest_number_are_infinite() {
    let largest = double(f64::MAX);
    assert!(largest.plus(largest, Precision::Double).is_infinite());
    let largest_single = single(f32::MAX);
    assert!(largest_single.plus(largest_single, Precision::Single).is_infinite());
    assert!(largest_single.plus(largest_single, Precision::Double).is_finite());
}

#[test]
fn the_two_zeros_are_equal_and_nan_equals_nothing() {
    assert_eq!(double(0.0), double(-0.0));
    assert_ne!(double(0.0).to_bits(), double(-0.0).to_bits());
    assert!(double(f64::NAN) != double(f64::NAN));
    assert_eq!(double(0.0).negated().to_bits(), (-0.0f64).to_bits());
}

#[test]
fn counts_round_to_the_format() {
    for count in [0u64, 1, 2, 3, 10, 16_777_215, 16_777_216, 16_777_217, 16_777_219, u64::MAX] {
        assert_number(
            Double::from_count(count, Precision::Single),
            f64::from(count as f32),
            "count",
            0.0,
            0.0,
        );
        assert_number(
            Double::from_count(count, Precision::Double),
            count as f64,
            "count",
            0.0,
            0.0,
        );
    }
}

#[test]
fn constants_are_what_they_say() {
    assert_eq!(Double::zero().to_bits(), 0.0f64.to_bits());
    assert_eq!(Double::one().to_bits(), 1.0f64.to_bits());
    assert_eq!(Double::two().to_bits(), 2.0f64.to_bits());
    assert_eq!(Double::infinity(false).to_bits(), f64::INFINITY.to_bits());
    assert_eq!(Double::infinity(true).to_bits(), f64::NEG_INFINITY.to_bits());
}
