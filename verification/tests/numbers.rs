use opencv_ui_cli::descent::{four_places, next_threshold, FLOOR_BITS, HIGH_TRUST_BITS, MEDIUM_TRUST_BITS};
use opencv_ui_cli::double::{Double, HUNDRED_BITS, LARGEST_BITS, NAN_BITS, ONE_BITS, TEN_THOUSAND_BITS};
use opencv_ui_cli::text::{append_hex, append_number, append_signed, append_two_places};

fn d(x: f64) -> Double {
    Double { bits: x.to_bits() }
}

fn f(x: Double) -> f64 {
    f64::from_bits(x.bits)
}

fn same(x: Double, y: f64) -> bool {
    if y.is_nan() {
        x.is_nan()
    } else {
        x.bits == y.to_bits()
    }
}

/// Bit patterns from a fixed sequence that looks random.
struct Patterns {
    state: u64,
}

impl Patterns {
    fn next(&mut self) -> u64 {
        self.state = self.state.wrapping_mul(6364136223846793005).wrapping_add(1442695040888963407);
        let x = self.state ^ (self.state >> 33);
        x.wrapping_mul(0xff51afd7ed558ccd) ^ (x >> 29)
    }
}

fn special_values() -> Vec<f64> {
    vec![
        0.0,
        -0.0,
        1.0,
        -1.0,
        0.5,
        1.5,
        2.5,
        -2.5,
        0.1,
        0.2,
        0.3,
        0.95,
        0.05,
        100.0,
        255.0,
        255.9,
        256.0,
        1e-9,
        -1e-9,
        1e300,
        -1e300,
        1e-300,
        5e-324,
        -5e-324,
        2.2250738585072014e-308,
        2.225073858507201e-308,
        9007199254740991.0,
        9007199254740992.0,
        9007199254740993.0,
        4503599627370496.5,
        4503599627370495.5,
        0.49999999999999994,
        2147483647.0,
        2147483648.0,
        -2147483648.0,
        -2147483649.0,
        f64::MAX,
        f64::MIN,
        f64::INFINITY,
        f64::NEG_INFINITY,
        f64::NAN,
    ]
}

fn check_pair(x: f64, y: f64) {
    assert!(same(d(x).plus(d(y)), x + y), "{} + {}", x, y);
    assert!(same(d(x).minus(d(y)), x - y), "{} - {}", x, y);
    assert!(same(d(x).times(d(y)), x * y), "{} * {}", x, y);
    assert!(same(d(x).divided_by(d(y)), x / y), "{} / {}", x, y);
    assert_eq!(d(x).less(d(y)), x < y, "{} < {}", x, y);
    assert_eq!(d(x).at_least(d(y)), x >= y, "{} >= {}", x, y);
    assert_eq!(d(x).above(d(y)), x > y, "{} > {}", x, y);
}

fn check_one(x: f64) {
    assert!(same(d(x).negated(), -x));
    assert!(same(d(x).round(), x.round()), "round {}", x);
    assert_eq!(d(x).to_u8(), x as u8, "{} as u8", x);
    assert_eq!(d(x).to_i32(), x as i32, "{} as i32", x);
    assert_eq!(d(x).is_nan(), x.is_nan());
    assert_eq!(d(x).is_finite(), x.is_finite());
    let mut text = String::from("<");
    append_two_places(&mut text, d(x));
    assert_eq!(text, format!("<{:.2}", x));
}

#[test]
fn constants_are_their_literals() {
    assert_eq!(f(Double { bits: ONE_BITS }), 1.0);
    assert_eq!(f(Double { bits: HUNDRED_BITS }), 100.0);
    assert_eq!(f(Double { bits: TEN_THOUSAND_BITS }), 10000.0);
    assert_eq!(f(Double { bits: LARGEST_BITS }), f64::MAX);
    assert!(f(Double { bits: NAN_BITS }).is_nan());
    assert_eq!(f(Double { bits: HIGH_TRUST_BITS }), 0.90);
    assert_eq!(f(Double { bits: MEDIUM_TRUST_BITS }), 0.75);
    assert_eq!(f(Double { bits: FLOOR_BITS }), -1e-9);
}

#[test]
fn special_values_compute_as_the_machine_does() {
    let values = special_values();
    for x in &values {
        check_one(*x);
        for y in &values {
            check_pair(*x, *y);
        }
    }
}

#[test]
fn random_patterns_compute_as_the_machine_does() {
    let mut patterns = Patterns { state: 1 };
    for _ in 0..20000 {
        let x = f64::from_bits(patterns.next());
        let y = f64::from_bits(patterns.next());
        check_pair(x, y);
        check_one(x);
    }
}

#[test]
fn close_exponents_compute_as_the_machine_does() {
    let mut patterns = Patterns { state: 7 };
    for _ in 0..20000 {
        let a = patterns.next();
        let b = patterns.next();
        let exponent = 1023 - 40 + a % 80;
        let other = exponent - 30 + b % 60;
        let x = f64::from_bits((a & 0x800f_ffff_ffff_ffff) | (exponent << 52));
        let y = f64::from_bits((b & 0x800f_ffff_ffff_ffff) | (other << 52));
        check_pair(x, y);
        check_one(x);
    }
}

#[test]
fn denormal_results_compute_as_the_machine_does() {
    let mut patterns = Patterns { state: 99 };
    for _ in 0..5000 {
        let a = patterns.next();
        let b = patterns.next();
        let x = f64::from_bits((a & 0x800f_ffff_ffff_ffff) | ((a % 60) << 52));
        let y = f64::from_bits((b & 0x800f_ffff_ffff_ffff) | ((990 + b % 60) << 52));
        check_pair(x, y);
        check_pair(y, x);
    }
}

#[test]
fn whole_numbers_convert_as_the_machine_does() {
    let mut patterns = Patterns { state: 3 };
    for _ in 0..5000 {
        let v = patterns.next();
        assert_eq!(f(Double::from_u64(v)), v as f64);
        assert_eq!(f(Double::from_u64(v >> 20)), (v >> 20) as f64);
        assert_eq!(f(Double::from_i32(v as i32)), (v as i32) as f64);
    }
    assert_eq!(f(Double::from_u64(u64::MAX)), u64::MAX as f64);
    assert_eq!(f(Double::from_u64(0)), 0.0);
    assert_eq!(f(Double::from_i32(i32::MIN)), i32::MIN as f64);
    assert_eq!(f(Double::from_i32(i32::MAX)), i32::MAX as f64);
}

#[test]
fn single_precision_widens_as_the_machine_does() {
    let mut patterns = Patterns { state: 5 };
    for _ in 0..20000 {
        let bits = patterns.next() as u32;
        assert!(same(Double::from_single(bits), f32::from_bits(bits) as f64));
    }
    for x in [0.0f32, -0.0, 1.0, 0.1, 1e-45, f32::MAX, f32::MIN, f32::INFINITY, f32::NEG_INFINITY, f32::NAN] {
        assert!(same(Double::from_single(x.to_bits()), x as f64));
    }
}

#[test]
fn scores_are_cut_to_four_places() {
    assert_eq!(f(four_places(d(0.987654321))), 0.9877);
    assert_eq!(f(four_places(d(0.99995))), 1.0);
    assert_eq!(f(four_places(d(1.0))), 1.0);
    assert_eq!(f(four_places(d(0.90004))), 0.9);
    let mut patterns = Patterns { state: 11 };
    for _ in 0..2000 {
        let x = (patterns.next() >> 11) as f64 / 9007199254740992.0;
        assert_eq!(f(four_places(d(x))), (x * 10000.0).round() / 10000.0);
    }
}

#[test]
fn thresholds_step_down_to_zero() {
    let mut t = d(0.95);
    let mut tried: Vec<f64> = Vec::new();
    while t.at_least(Double { bits: FLOOR_BITS }) {
        tried.push(f(t));
        t = next_threshold(t, d(0.05));
    }
    let expected: Vec<f64> = vec![
        0.95, 0.9, 0.85, 0.8, 0.75, 0.7, 0.65, 0.6, 0.55, 0.5, 0.45, 0.4, 0.35, 0.3, 0.25, 0.2, 0.15, 0.1, 0.05, 0.0,
    ];
    assert_eq!(tried, expected);
}

#[test]
fn a_step_of_a_hundredth_always_lowers_the_threshold() {
    for k in 0..1001 {
        let t = k as f64 / 1000.0;
        let next = f(next_threshold(d(t), d(0.01)));
        assert!(next <= t - 0.004, "{} {}", t, next);
    }
}

#[test]
fn a_step_above_half_a_hundredth_lowers_the_threshold() {
    for k in 0..1001 {
        let t = k as f64 / 1000.0;
        assert!(f(next_threshold(d(t), d(0.0051))) < t);
    }
}

#[test]
fn a_step_below_two_places_lowers_the_threshold_too() {
    assert_eq!(f(next_threshold(d(0.95), d(0.004))), 0.95 - 0.004);
    assert_eq!(f(next_threshold(d(0.95 - 0.004), d(0.004))), 0.94);
    assert_eq!(f(next_threshold(d(0.5), d(0.005))), 0.5 - 0.005);
    for k in 0..1001 {
        let t = k as f64 / 1000.0;
        for step in [0.004, 0.001, 1e-9, 1e-15] {
            assert!(f(next_threshold(d(t), d(step))) < t, "{} {}", t, step);
        }
    }
}

#[test]
fn only_a_step_that_changes_nothing_leaves_the_threshold() {
    assert_eq!(f(next_threshold(d(0.5), d(1e-20))), 0.5);
    assert_eq!(f(next_threshold(d(0.5), d(0.0))), 0.5);
    assert!(f(next_threshold(d(f64::INFINITY), d(0.1))).is_infinite());
}

#[test]
fn the_order_is_that_of_values() {
    assert!(d(-0.5).less(d(-0.25)));
    assert!(d(-5e-324).less(d(5e-324)));
    assert!(d(0.0).at_least(d(-0.0)));
    assert!(d(-0.0).at_least(d(0.0)));
    assert!(!d(f64::NAN).less(d(1.0)));
    assert!(!d(f64::NAN).at_least(d(1.0)));
}

#[test]
fn sums_commute_and_have_a_neutral_element() {
    for x in special_values() {
        for y in special_values() {
            if !x.is_nan() && !y.is_nan() {
                assert!(same(d(x).plus(d(y)), y + x));
            }
        }
        if x.is_finite() && x >= 0.0 && x.is_sign_positive() {
            assert_eq!(d(x).plus(d(0.0)), d(x));
            assert_eq!(d(x).times(d(1.0)), d(x));
            assert_eq!(d(x).divided_by(d(1.0)), d(x));
        }
    }
}

#[test]
fn rounding_keeps_order_and_picks_the_nearest() {
    // 2^53 + 1 lies half way between two numbers and goes to the even one.
    assert_eq!(f(Double::from_u64(9007199254740993)), 9007199254740992.0);
    assert_eq!(f(Double::from_u64(9007199254740995)), 9007199254740996.0);
    let mut before = Double::from_u64(9007199254740990);
    for v in 9007199254740991u64..9007199254741050 {
        let next = Double::from_u64(v);
        assert!(next.at_least(before));
        before = next;
    }
}

#[test]
fn numbers_are_written_in_decimal() {
    let mut text = String::new();
    append_number(&mut text, 0);
    append_number(&mut text, 907);
    append_number(&mut text, u64::MAX);
    assert_eq!(text, "090718446744073709551615");
    assert_eq!("18446744073709551615".parse::<u64>().ok(), Some(u64::MAX));
    let mut signed = String::new();
    append_signed(&mut signed, -12);
    append_signed(&mut signed, 0);
    append_signed(&mut signed, i32::MIN);
    assert_eq!(signed, "-120-2147483648");
}

#[test]
fn bytes_are_written_in_hexadecimal() {
    let mut text = String::new();
    for b in [0u8, 9, 10, 15, 16, 53, 171, 255] {
        append_hex(&mut text, b);
    }
    assert_eq!(text, "00090a0f1035abff");
}

#[test]
fn two_places_go_to_the_nearest_hundredth() {
    let mut text = String::new();
    append_two_places(&mut text, d(0.125));
    text.push(' ');
    append_two_places(&mut text, d(0.375));
    text.push(' ');
    append_two_places(&mut text, d(0.9949));
    text.push(' ');
    append_two_places(&mut text, d(-0.001));
    text.push(' ');
    append_two_places(&mut text, d(f64::NAN));
    text.push(' ');
    append_two_places(&mut text, d(f64::NEG_INFINITY));
    assert_eq!(text, "0.12 0.38 0.99 -0.00 NaN -inf");
}
