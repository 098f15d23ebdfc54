use sysmon_core::arith::{integer, whole};
use sysmon_core::digits::{decimal_text, hex_text, parse_unsigned};
use sysmon_core::figures::fixed;
use sysmon_core::num::{num, Num};
use sysmon_core::reading::parse_number;

fn n(x: f64) -> Num {
    num(x.to_bits())
}

fn f(x: Num) -> f64 {
    f64::from_bits(x.bits)
}

fn chars(text: &str) -> Vec<char> {
    text.chars().collect()
}

/// Values of every size, with awkward digits.
fn samples() -> Vec<f64> {
    let mut out = vec![
        0.0, -0.0, 1.0, -1.0, 0.1, 0.3, 2.5, 3.5, 0.05, 23.44, 23.45, 7.006, -1.25, 100.0, 1024.0, 1048576.0,
        273.15, 1e15, 1e16, 4503599627370497.5, 9007199254740993.0, 1e22, 1e23, 1e100, 1e300, f64::MAX,
        f64::MIN_POSITIVE, 5e-324, 1e-310, 2.2250738585072011e-308, 1.7976931348623157e308, 123456.789,
        0.30000000000000004, 1.0 / 3.0, 2.0 / 3.0, f64::EPSILON, 1.0 + f64::EPSILON, f64::INFINITY, f64::NEG_INFINITY,
        f64::NAN,
    ];
    // A small linear congruential generator over the bit patterns.
    let mut state: u64 = 0x9e37_79b9_7f4a_7c15;
    for _ in 0..400 {
        state = state.wrapping_mul(6364136223846793005).wrapping_add(1442695040888963407);
        out.push(f64::from_bits(state));
        // And some of everyday size.
        out.push((state >> 40) as f64 / 1000.0);
    }
    out
}

fn same(a: f64, b: f64) -> bool {
    (a.is_nan() && b.is_nan()) || a.to_bits() == b.to_bits()
}

#[test]
fn comparisons_are_those_of_the_machine() {
    let all = samples();
    for a in all.iter().take(200) {
        for b in all.iter().take(200) {
            assert_eq!(n(*a).lt(n(*b)), a < b);
            assert_eq!(n(*a).le(n(*b)), a <= b);
            assert_eq!(n(*a).gt(n(*b)), a > b);
            assert_eq!(n(*a).ge(n(*b)), a >= b);
            let larger = f(n(*a).max(n(*b)));
            assert!(larger == a.max(*b) || (larger.is_nan() && a.max(*b).is_nan()));
        }
        assert_eq!(n(*a).is_nan(), a.is_nan());
        assert_eq!(n(*a).is_finite(), a.is_finite());
    }
}

#[test]
fn arithmetic_is_that_of_the_machine() {
    let all = samples();
    for (i, a) in all.iter().enumerate() {
        for b in all.iter().skip(i % 7).step_by(7) {
            assert!(same(f(n(*a).plus(n(*b))), a + b), "{} + {}", a, b);
            assert!(same(f(n(*a).minus(n(*b))), a - b), "{} - {}", a, b);
            assert!(same(f(n(*a).times(n(*b))), a * b), "{} * {}", a, b);
            assert!(same(f(n(*a).over(n(*b))), a / b), "{} / {}", a, b);
        }
        assert!(same(f(n(*a).round()), a.round()), "round {}", a);
        assert_eq!(n(*a).to_whole(i64::MIN, i64::MAX), *a as i64);
        assert_eq!(n(*a).to_whole(i32::MIN as i64, i32::MAX as i64), *a as i32 as i64);
        assert_eq!(n(*a).to_whole(0, u32::MAX as i64), *a as u32 as i64);
    }
}

#[test]
fn screen_arithmetic_is_that_of_binary32() {
    let mut all = samples();
    for k in -152i32..=-120 {
        for by in [1.0, 1.5, -1.25, 1.0 + f64::EPSILON, 1.9999999] {
            all.push(by * 2f64.powi(k));
        }
    }
    all.extend([f32::MAX as f64, 3.4028235677973366e38, 3.4028235677973362e38, 1e39, -1e39, 0.1, 16777217.0, 16777219.0]);
    for a in &all {
        assert!(same(f(n(*a).to_single()), *a as f32 as f64), "{}", a);
    }
    let singles: Vec<f32> = all.iter().map(|a| *a as f32).collect();
    for (i, a) in singles.iter().enumerate() {
        for b in singles.iter().skip(i % 5).step_by(5) {
            let (x, y) = (n(*a as f64), n(*b as f64));
            assert!(same(f(x.plus32(y)), (a + b) as f64), "{} + {}", a, b);
            assert!(same(f(x.minus32(y)), (a - b) as f64), "{} - {}", a, b);
            assert!(same(f(x.times32(y)), (a * b) as f64), "{} * {}", a, b);
            assert!(same(f(x.over32(y)), (a / b) as f64), "{} / {}", a, b);
        }
    }
}

#[test]
fn the_smallest_screen_numbers_are_multiples_of_one_step() {
    let step = 2f64.powi(-149);
    for (a, expected) in [(0.5, 0.0), (0.5000001, 1.0), (1.0, 1.0), (1.5, 2.0), (2.5, 2.0), (2.6, 3.0), (8388607.5, 8388608.0)] {
        assert_eq!(f(n(a * step).to_single()), expected * step);
        assert_eq!(f(n(-a * step).to_single()), -expected * step);
        assert_eq!(n(expected * step).to_single(), n(expected * step));
    }
    assert_eq!(n(f64::from_bits(1)).to_single(), n(0.0));
}

#[test]
fn clamping_holds_within_the_range() {
    assert_eq!(f(n(5000.0).clamp(n(1.0), n(100.0))), 100.0);
    assert_eq!(f(n(-5.0).clamp(n(1.0), n(100.0))), 1.0);
    assert_eq!(f(n(42.5).clamp(n(1.0), n(100.0))), 42.5);
    assert!(n(f64::NAN).clamp(n(1.0), n(100.0)).is_nan());
}

#[test]
fn whole_numbers_become_the_nearest_reading() {
    for v in [0u64, 1, 2, 10, 1023, 1 << 52, (1 << 53) + 1, u64::MAX, u64::MAX - 1024, 0x8000_0000_0000_0400] {
        assert_eq!(f(whole(v)), v as f64);
    }
    for v in [0i64, -1, 7, -10, i64::MIN, i64::MAX, -123456789] {
        assert_eq!(f(integer(v)), v as f64);
    }
}

#[test]
fn fixed_places_are_those_of_the_formatter() {
    for a in samples() {
        assert_eq!(fixed(n(a), 0), format!("{:.0}", a));
        assert_eq!(fixed(n(a), 1), format!("{:.1}", a));
        assert_eq!(fixed(n(a), 2), format!("{:.2}", a));
    }
}

#[test]
fn fixed_places_round_halves_to_even() {
    assert_eq!(fixed(n(0.25), 1), "0.2");
    assert_eq!(fixed(n(0.75), 1), "0.8");
    assert_eq!(fixed(n(2.5), 0), "2");
    assert_eq!(fixed(n(-0.04), 1), "-0.0");
    assert_eq!(fixed(n(f64::NAN), 1), "NaN");
    assert_eq!(fixed(n(f64::NEG_INFINITY), 2), "-inf");
    assert_eq!(fixed(n(1e23), 0), "99999999999999991611392");
}

#[test]
fn numbers_are_read_as_the_parser_reads_them() {
    for a in samples() {
        for text in [format!("{}", a), format!("{:e}", a), format!("{:.3}", a)] {
            let expected = text.parse::<f64>().ok();
            let got = parse_number(&chars(&text)).map(f);
            assert!(
                match (expected, got) {
                    (Some(x), Some(y)) => same(x, y),
                    (None, None) => true,
                    _ => false,
                },
                "{}",
                text
            );
        }
    }
    for text in [
        "", " ", "+", "-", ".", "1.", ".5", "+.5e3", "1e", "1e+", "1e5", "1E-5", "0x10", "1_000", "inf", "-Infinity", "infinit",
        "nan", "NaN", "+inf", "1 ", " 1", "12a", "--1", "1..2", "1.5.2", "e5", "00012.50", "1e400", "-1e400", "1e-400",
        "9007199254740993", "9007199254740992.5", "179769313486231580793728971405303415079934132710037826936173778980444968292764750946649017977587207096330286416692887910946555547851940402630657488671505820681908902000708383676273854845817711531764475730270069855571366959622842914819860834936475292719074168444365510704342711559699508093042880",
        "0.000000000000000000000000000000000000000000000000000000000000000000000000000000000000001",
    ] {
        let expected = text.parse::<f64>().ok();
        let got = parse_number(&chars(text)).map(f);
        assert!(
            match (expected, got) {
                (Some(x), Some(y)) => same(x, y),
                (None, None) => true,
                _ => false,
            },
            "{:?}",
            text
        );
    }
}

#[test]
fn unsigned_numbers_are_read_up_to_32_bits() {
    for text in ["0", "6", "+6", "-6", "", "+", "4294967295", "4294967296", "00000000000012", "1a", " 1", "99999999999999999999"] {
        assert_eq!(parse_unsigned(&chars(text)), text.parse::<u32>().ok(), "{:?}", text);
    }
}

#[test]
fn decimal_digits_are_read_back() {
    for v in [0u32, 9, 10, 230, 4294967295] {
        let text = decimal_text(v as u64);
        assert_eq!(text, v.to_string());
        assert_eq!(parse_unsigned(&chars(&text)), Some(v));
    }
    assert_eq!(decimal_text(u64::MAX), u64::MAX.to_string());
}

#[test]
fn hexadecimal_digits_are_filled_up() {
    assert_eq!(hex_text(0x9, 3), "009");
    assert_eq!(hex_text(0xc0a, 3), "C0A");
    assert_eq!(hex_text(0xc0a, 4), "0C0A");
    assert_eq!(hex_text(0x12345, 3), "12345");
}
