use cageq::decimal::{digits_of_i32, digits_of_u64, format_fixed, parse, parse_u32, parse_u64};
use cageq::double::Double;
use cageq::text::sort_strings;
use cageq::{apo_backend, cascade, control, double, host, slots};

fn d(x: f64) -> Double {
    Double { bits: x.to_bits() }
}

fn chars(s: &str) -> Vec<char> {
    s.chars().collect()
}

fn samples() -> Vec<f64> {
    let mut v = vec![
        0.0, -0.0, 1.0, -1.0, 0.1, 0.5, 1.5, 2.5, 0.00005, 0.00015, 1e-4, 1e22, 1e23, 5e-324,
        f64::MIN_POSITIVE, f64::MAX, f64::MIN, 1.7976931348623157e308, 2.2250738585072011e-308,
        123456.789, 105.0, -2.4, 0.7, 48_000.0, 999.9995, 1e15, 9007199254740993.0,
        f64::INFINITY, f64::NEG_INFINITY, f64::NAN,
    ];
    let mut seed: u64 = 88172645463325252;
    for _ in 0..200 {
        seed ^= seed << 13;
        seed ^= seed >> 7;
        seed ^= seed << 17;
        v.push(f64::from_bits(seed));
        v.push((seed >> 20) as f64 / 1e6);
    }
    v
}

#[test]
fn writing_agrees_with_the_standard_library() {
    for x in samples() {
        for p in [1usize, 2, 4] {
            let have: String = format_fixed(d(x), p as u64).iter().collect();
            assert_eq!(have, format!("{x:.p$}"), "{x:e}");
        }
    }
    let have: String = format_fixed(d(2.5), 0).iter().collect();
    assert_eq!(have, format!("{:.0}", 2.5));
    let have: String = format_fixed(d(0.6), 0).iter().collect();
    assert_eq!(have, format!("{:.0}", 0.6));
}

#[test]
fn reading_agrees_with_the_standard_library() {
    let mut texts: Vec<String> = samples().iter().map(|x| format!("{x}")).collect();
    texts.extend(samples().iter().map(|x| format!("{x:e}")));
    for t in [
        "", "+", "-", ".", "1.", ".5", "1e", "1e+", "1e5", "1E-5", "+1.5", "--1", "1..2", "1e5.0",
        "inf", "-INF", "infinity", "+Infinity", "nan", "-NaN", "infin", "0x10", "1_000", " 1", "1 ",
        "1e400", "-1e400", "1e-400", "0e999999999999999999999", "1e-999999999999999999999",
        "1e999999999999999999999", "00000000000000000000000001", "0.1e1", "123456789012345678901234567890",
        "0.000000000000000000000000000000000000000000000000001", "2.4703282292062327e-324",
        "2.4703282292062328e-324", "9007199254740992.5", "9007199254740993", "1.7976931348623158e308",
        "1.7976931348623159e308", "٣",
    ] {
        texts.push(t.to_string());
    }
    for t in texts {
        let have = parse(&chars(&t));
        match t.parse::<f64>() {
            Ok(x) if x.is_nan() => assert!(have.unwrap().is_nan(), "{t:?}"),
            Ok(x) => assert_eq!(have, Some(d(x)), "{t:?}"),
            Err(_) => assert_eq!(have, None, "{t:?}"),
        }
    }
}

#[test]
fn integers_are_read_and_written() {
    for n in [0u64, 1, 9, 10, 12345, u64::MAX] {
        let t: String = digits_of_u64(n).iter().collect();
        assert_eq!(t, format!("{n}"));
        assert_eq!(parse_u64(&chars(&t)), Some(n));
    }
    for n in [0i32, -1, 42, i32::MAX, i32::MIN] {
        let t: String = digits_of_i32(n).iter().collect();
        assert_eq!(t, format!("{n}"));
    }
    assert_eq!(parse_u32(&chars("4294967295")), Some(u32::MAX));
    assert_eq!(parse_u32(&chars("4294967296")), None);
    assert_eq!(parse_u32(&chars("")), None);
    assert_eq!(parse_u64(&chars("12a")), None);
}

#[test]
fn comparisons_and_halving_agree_with_the_machine() {
    let v = samples();
    for (i, &x) in v.iter().enumerate() {
        for &y in v.iter().skip(i % 7).step_by(7) {
            assert_eq!(d(x).lt(d(y)), x < y, "{x:e} {y:e}");
            assert_eq!(d(x).le(d(y)), x <= y, "{x:e} {y:e}");
        }
        assert_eq!(d(x).is_finite(), x.is_finite());
        assert_eq!(d(x).is_nan(), x.is_nan());
        if !x.is_nan() {
            assert_eq!(d(x).negate(), d(-x));
            assert_eq!(d(x).half(), d(x / 2.0), "{x:e}");
        }
    }
}

#[test]
fn thousandths_agree_with_the_machine() {
    for x in samples() {
        assert_eq!(d(x).milli(), (x * 1000.0).round() as i64, "{x:e}");
    }
    for n in [0i64, 1, -1, 999, 1001, i64::MAX, i64::MIN, 1 << 60, 123_456_789_012] {
        assert_eq!(Double::from_milli(n), d(n as f64 / 1000.0), "{n}");
    }
}

#[test]
fn products_and_counts_agree_with_the_machine() {
    for x in samples() {
        for p in [0.008f64, 0.01, 0.15, 0.3, 0.45] {
            let want = x * p;
            let have = d(x).times(p.to_bits());
            if x.is_nan() {
                assert!(have.is_nan());
            } else {
                assert_eq!(have, d(want), "{x:e} {p}");
            }
            assert_eq!(have.count(), want.round().max(1.0) as u32, "{x:e} {p}");
        }
    }
}

#[test]
fn the_patterns_are_the_numbers_they_stand_for() {
    let pairs: [(u64, f64); 14] = [
        (cascade::RAMP_SECONDS, 8.0 / 1000.0),
        (cascade::RAMP_MAX_SECONDS, 300.0 / 1000.0),
        (cascade::GESTURE_GAP_SECONDS, 150.0 / 1000.0),
        (cascade::DRY_FADE_SECONDS, 10.0 / 1000.0),
        (cascade::NYQUIST_PART, 0.45),
        (apo_backend::SAFE_PREAMP_DB, -120.0),
        (apo_backend::SAFE_PREAMP_LIMIT_DB, -119.9),
        (control::MIN_PREAMP_DB, -120.0),
        (control::MAX_PREAMP_DB, 12.0),
        (double::ONE, 1.0),
        (host::DEFAULT_BASE_PREGAIN_DB, -9.0),
        (host::MIN_BASE_PREGAIN_DB, -40.0),
        (slots::MAX_REUSE_FC_RATIO, 2.0),
        (slots::MAX_REUSE_Q_RATIO, 4.0),
    ];
    for (bits, x) in pairs {
        assert_eq!(f64::from_bits(bits), x);
    }
}

#[test]
fn strings_are_sorted_by_their_bytes() {
    let v: Vec<String> = ["b", "a", "é", "Z", "", "aa", "a"].iter().map(|s| s.to_string()).collect();
    let mut want = v.clone();
    want.sort();
    assert_eq!(sort_strings(v), want);
}
