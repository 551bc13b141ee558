use fps_camera::utils::{can_parse_f32, can_parse_u32};

fn u32_ok(s: &str) -> bool {
    can_parse_u32(&s.to_string())
}

fn f32_ok(s: &str) -> bool {
    can_parse_f32(&s.to_string())
}

#[test]
fn u32_accepts_plain_digits() {
    assert!(u32_ok("0"));
    assert!(u32_ok("42"));
    assert!(u32_ok("007"));
    assert!(u32_ok("+7"));
}

#[test]
fn u32_accepts_largest_value() {
    assert!(u32_ok("4294967295"));
    assert!(!u32_ok("4294967296"));
    assert!(!u32_ok("99999999999999999999"));
}

#[test]
fn u32_rejects_malformed_text() {
    assert!(!u32_ok(""));
    assert!(!u32_ok("+"));
    assert!(!u32_ok("-1"));
    assert!(!u32_ok("-0"));
    assert!(!u32_ok(" 1"));
    assert!(!u32_ok("1 "));
    assert!(!u32_ok("1_000"));
    assert!(!u32_ok("12a"));
    assert!(!u32_ok("++1"));
    assert!(!u32_ok("1.0"));
}

#[test]
fn f32_accepts_numbers() {
    assert!(f32_ok("3.14"));
    assert!(f32_ok("-2"));
    assert!(f32_ok("+0"));
    assert!(f32_ok("1."));
    assert!(f32_ok(".5"));
    assert!(f32_ok("1e10"));
    assert!(f32_ok("1.5E-3"));
    assert!(f32_ok("-.5e+2"));
    assert!(f32_ok("1e99999"));
}

#[test]
fn f32_accepts_special_words() {
    assert!(f32_ok("inf"));
    assert!(f32_ok("-Infinity"));
    assert!(f32_ok("+INF"));
    assert!(f32_ok("NaN"));
    assert!(f32_ok("nan"));
}

#[test]
fn f32_rejects_malformed_text() {
    assert!(!f32_ok(""));
    assert!(!f32_ok("."));
    assert!(!f32_ok("+"));
    assert!(!f32_ok("e5"));
    assert!(!f32_ok("1e"));
    assert!(!f32_ok("1e+"));
    assert!(!f32_ok("1.2.3"));
    assert!(!f32_ok(" 1"));
    assert!(!f32_ok("1 "));
    assert!(!f32_ok("+-1"));
    assert!(!f32_ok("infin"));
    assert!(!f32_ok("nana"));
    assert!(!f32_ok("1,5"));
}

const SAMPLES: [&str; 40] = [
    "", "0", "1", "+1", "-1", "+", "-", ".", "1.", ".1", "1.1", "1e1", "1E1", "1e+1", "1e-1",
    "e1", "1e", "1e+", "inf", "INF", "-inf", "infinity", "InFiNiTy", "nan", "-NaN", "nan1",
    "4294967295", "4294967296", "00000000004294967295", " 7", "7 ", "1_0", "0x10", "1.2e3.4",
    "..1", "1..", "--1", "١", "+.5", "-.",
];

#[test]
fn u32_agrees_with_std_parser() {
    for s in SAMPLES.iter() {
        assert_eq!(u32_ok(s), s.parse::<u32>().is_ok(), "{:?}", s);
    }
}

#[test]
fn f32_agrees_with_std_parser() {
    for s in SAMPLES.iter() {
        assert_eq!(f32_ok(s), s.parse::<f32>().is_ok(), "{:?}", s);
    }
}
