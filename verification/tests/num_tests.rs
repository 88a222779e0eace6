use ksm::num::{is_float_chars, parse_i64};

fn chars(s: &str) -> Vec<char> {
    s.chars().collect()
}

#[test]
fn parse_i64_exact_values() {
    assert_eq!(parse_i64(&chars("0")), Some(0));
    assert_eq!(parse_i64(&chars("42")), Some(42));
    assert_eq!(parse_i64(&chars("+42")), Some(42));
    assert_eq!(parse_i64(&chars("-42")), Some(-42));
    assert_eq!(parse_i64(&chars("007")), Some(7));
    assert_eq!(parse_i64(&chars("9223372036854775807")), Some(i64::MAX));
    assert_eq!(parse_i64(&chars("-9223372036854775808")), Some(i64::MIN));
}

#[test]
fn parse_i64_rejections() {
    assert_eq!(parse_i64(&chars("")), None);
    assert_eq!(parse_i64(&chars("+")), None);
    assert_eq!(parse_i64(&chars("-")), None);
    assert_eq!(parse_i64(&chars(" 1")), None);
    assert_eq!(parse_i64(&chars("1 ")), None);
    assert_eq!(parse_i64(&chars("1.5")), None);
    assert_eq!(parse_i64(&chars("1_000")), None);
    assert_eq!(parse_i64(&chars("9223372036854775808")), None);
    assert_eq!(parse_i64(&chars("-9223372036854775809")), None);
    assert_eq!(parse_i64(&chars("99999999999999999999999")), None);
}

#[test]
fn parse_i64_agrees_with_std() {
    let cases = [
        "0", "-0", "+0", "12", "-12", "007", "9223372036854775807", "9223372036854775808",
        "-9223372036854775808", "-9223372036854775809", "", "+", "-", "+-1", "--1", "1a",
        "a1", " 1", "1 ", "1.0",
    ];
    for c in cases {
        assert_eq!(
            parse_i64(&chars(c)),
            c.parse::<i64>().ok(),
            "disagreement on {:?}",
            c
        );
    }
}

#[test]
fn float_recognizer_agrees_with_std() {
    let cases = [
        "3.14", "-3.14", "2.5E10", "2.5e10", "2.5E-10", "5.", ".5", "0.5", "inf", "-inf",
        "+infinity", "NaN", "nan", "INF", "Infinity", "1.e5", ".e5", "1e5", "1e+5", "1e-5",
        "1e", "1e+", "e5", ".", "+", "-", "", "1.2.3", " 1", "1 ", "0x1", "1_000", "1,5",
        "--1", "++1", "+-1", "1e5e5", "infx", "nana", "infinit", "1.5e", "0", "-0", ".0",
        "0.", "1e308", "1e309", "1e-400",
    ];
    for c in cases {
        assert_eq!(
            is_float_chars(&chars(c)),
            c.parse::<f64>().is_ok(),
            "disagreement on {:?}",
            c
        );
    }
}
