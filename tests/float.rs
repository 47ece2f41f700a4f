use toml_core::error::{ErrorKind, ParseError};
use toml_core::number::float;
use toml_core::text::to_chars;
use toml_core::value::Float;

fn to_f64(f: &Float) -> f64 {
    match f {
        Float::Finite { negative, digits, exponent } => {
            let text = format!("{}{}e{}", if *negative { "-" } else { "" }, digits, exponent);
            text.parse::<f64>().unwrap()
        }
        Float::Infinite { negative } => {
            if *negative {
                f64::NEG_INFINITY
            } else {
                f64::INFINITY
            }
        }
        Float::NaN => f64::NAN,
    }
}

fn parse_float(text: &str) -> Result<Option<(Float, usize)>, ParseError> {
    float(&to_chars(text), 0)
}

fn whole(text: &str) -> f64 {
    match parse_float(text) {
        Ok(Some((f, e))) => {
            assert_eq!(e, text.chars().count(), "not all of {:?} was read", text);
            to_f64(&f)
        }
        other => panic!("{:?} gave {:?}", text, other),
    }
}

fn exact(text: &str) -> (bool, String, i64) {
    match parse_float(text) {
        Ok(Some((Float::Finite { negative, digits, exponent }, e))) => {
            assert_eq!(e, text.chars().count());
            (negative, digits, exponent)
        }
        other => panic!("{:?} gave {:?}", text, other),
    }
}

#[test]
fn parser_test_underscored_float() {
    assert_eq!(exact("1123.0"), (false, "11230".to_string(), -1));
    assert_eq!(parse_float(".1123").unwrap().is_none(), true);
    assert_eq!(exact("11_23.0"), (false, "11230".to_string(), -1));
}

#[test]
fn float_test_underscored_float() {
    assert_eq!(whole("224_617.445_991_228"), 224617.445991228);
    assert_eq!(exact("11_23.0"), (false, "11230".to_string(), -1));
}

#[test]
fn parser_test_exponential_float() {
    assert_eq!(whole("5e+22"), 5e+22);
    assert_eq!(whole("1e06"), 1e06);
    assert_eq!(whole("-2E-2"), -2E-2);
}

#[test]
fn float_test_exponential_float() {
    assert_eq!(whole("5e+22"), 5e+22);
    assert_eq!(whole("1e06"), 1e06);
    assert_eq!(whole("-2E-2"), -2E-2);
}

#[test]
fn parser_test_expo_frac_float() {
    assert_eq!(whole("6.626e-34"), 6.626e-34);
}

#[test]
fn float_test_expo_frac_float() {
    assert_eq!(whole("6.626e-34"), 6.626e-34);
}

#[test]
fn test_float() {
    assert_eq!(whole("+1.0"), 1.0);
    assert_eq!(whole("3.1415"), 3.1415);
    assert_eq!(whole("-0.01"), -0.01);
    assert_eq!(whole("+0.0"), 0.0);
    assert_eq!(whole("-0.0"), -0.0);
    assert!(whole("nan").is_nan(), "nan testing went wrong.");
    assert!(whole("+nan").is_nan(), "nan testing went wrong.");
    assert!(whole("-nan").is_nan(), "nan testing went wrong.");
    assert_eq!(whole("inf"), f64::INFINITY);
    assert_eq!(whole("+inf"), f64::INFINITY);
    assert_eq!(whole("-inf"), f64::NEG_INFINITY);
    assert_eq!(whole("224_617.445_991_228"), 224617.445991228);
}

#[test]
fn test_plus_signed_float() {
    assert_eq!(whole("+1.0"), 1.0);
}

#[test]
fn test_unsigned_float() {
    assert_eq!(whole("3.1415"), 3.1415);
}

#[test]
fn test_minus_signed_float() {
    assert_eq!(whole("-0.01"), -0.01);
}

#[test]
fn test_plus_signed_zero_float() {
    assert_eq!(whole("+0.0"), 0.0);
}

#[test]
fn test_minus_signed_zero_float() {
    assert_eq!(whole("-0.0"), -0.0);
    assert!(whole("-0.0").is_sign_negative());
}

#[test]
fn test_unsigned_nan_float() {
    match parse_float("nan") {
        Ok(Some((f, 3))) => assert!(to_f64(&f).is_nan() && f.is_nan()),
        _ => panic!("nan testing went wrong."),
    }
}

#[test]
fn test_plus_signed_nan_float() {
    match parse_float("+nan") {
        Ok(Some((f, 4))) => assert!(to_f64(&f).is_nan() && f.is_nan()),
        _ => panic!("nan testing went wrong."),
    }
}

#[test]
fn test_minus_signed_nan_float() {
    match parse_float("-nan") {
        Ok(Some((f, 4))) => assert!(to_f64(&f).is_nan() && f.is_nan()),
        _ => panic!("nan testing went wrong."),
    }
}

#[test]
fn test_unsigned_inf_float() {
    assert_eq!(whole("inf"), f64::INFINITY);
}

#[test]
fn test_plus_signed_inf_float() {
    assert_eq!(whole("+inf"), f64::INFINITY);
}

#[test]
fn test_minus_signed_inf_float() {
    assert_eq!(whole("-inf"), f64::NEG_INFINITY);
}

#[test]
fn float_keeps_digits_and_exponent_exactly() {
    assert_eq!(exact("-224_617.445_991_228"), (true, "224617445991228".to_string(), -9));
    assert_eq!(exact("6.626e-34"), (false, "6626".to_string(), -37));
    assert_eq!(exact("5e+22"), (false, "5".to_string(), 22));
}

#[test]
fn float_rejects_bare_point_forms() {
    assert!(parse_float(".7").unwrap().is_none());
    assert!(parse_float("7.").unwrap().is_none());
    assert!(parse_float("3.e+20").unwrap().is_none());
    assert!(parse_float("42").unwrap().is_none());
}

#[test]
fn float_exponent_overflow_is_a_range_error() {
    assert_eq!(
        parse_float("1e99999999999999999999").err(),
        Some(ParseError::new(ErrorKind::NumberOutOfRange, 0))
    );
}
