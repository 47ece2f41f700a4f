use toml_core::error::{ErrorKind, ParseError};
use toml_core::number::{digit_run, integer, run_digits};
use toml_core::text::to_chars;

fn parse_int(text: &str) -> Result<Option<(i64, usize)>, ParseError> {
    integer(&to_chars(text), 0)
}

fn whole(text: &str) -> i64 {
    match parse_int(text) {
        Ok(Some((v, e))) => {
            assert_eq!(e, text.chars().count(), "not all of {:?} was read", text);
            v
        }
        other => panic!("{:?} gave {:?}", text, other),
    }
}

fn grouped(text: &str, radix: u32) -> String {
    let s = to_chars(text);
    let e = digit_run(&s, 0, radix);
    assert_eq!(e, s.len());
    run_digits(&s, 0, e)
}

#[test]
fn test_underscored_number() {
    assert_eq!(grouped("1_2_3_4", 10), "1234");
    assert_eq!(grouped("dead_beef", 16), "deadbeef");
    assert_eq!(grouped("0_1234567", 8), "01234567");
    assert_eq!(grouped("10_10_00010", 2), "101000010");
}

#[test]
fn test_underscored_decimal_number() {
    assert_eq!(grouped("1_2_3_4", 10), "1234");
}

#[test]
fn test_underscored_hex_number() {
    assert_eq!(grouped("dead_beef", 16), "deadbeef");
}

#[test]
fn test_underscored_zero_leading_decimal_number() {
    assert_eq!(grouped("0_1234567", 8), "01234567");
}

#[test]
fn test_underscored_binary_number() {
    assert_eq!(grouped("10_10_00010", 2), "101000010");
}

#[test]
fn test_integer() {
    assert_eq!(whole("+99"), 99);
    assert_eq!(whole("42"), 42);
    assert_eq!(whole("0"), 0);
    assert_eq!(whole("+0"), 0);
    assert_eq!(whole("-0"), 0);
    assert_eq!(whole("-7"), -7);
    assert_eq!(whole("0xDEADBEEF"), 0xDEADBEEF);
    assert_eq!(whole("0xdeadbeef"), 0xDEADBEEF);
    assert_eq!(whole("0o01234567"), 0o01234567);
    assert_eq!(whole("0o755"), 0o755);
    assert_eq!(whole("0b11010110"), 0b11010110);
    assert_eq!(whole("1_000"), 1000);
    assert_eq!(whole("5_349_221"), 5349221);
    assert_eq!(whole("53_49_221"), 5349221);
    assert_eq!(whole("1_2_3_4_5"), 12345);
    assert_eq!(whole("0xdead_beef"), 0xDEADBEEF);
    assert_eq!(whole("+0xdead_beef"), 0xDEADBEEF);
    assert_eq!(whole("+0o755"), 0o755);
    assert_eq!(whole("0o0755"), 0o755);
    assert_eq!(whole("+0x0dead_beef"), 0xDEADBEEF);
}

#[test]
fn test_signed_positive_integer() {
    assert_eq!(whole("+99"), 99);
}

#[test]
fn test_unsigned_positive_integer() {
    assert_eq!(whole("42"), 42);
}

#[test]
fn test_zero_integer() {
    assert_eq!(whole("0"), 0);
}

#[test]
fn test_plus_signed_zero_integer() {
    assert_eq!(whole("+0"), 0);
}

#[test]
fn test_minus_signed_zero_integer() {
    assert_eq!(whole("-0"), 0);
}

#[test]
fn test_negative_integer() {
    assert_eq!(whole("-7"), -7);
}

#[test]
fn test_uppercase_hex_integer() {
    assert_eq!(whole("0xDEADBEEF"), 0xDEADBEEF);
}

#[test]
fn test_lowercase_hex_integer() {
    assert_eq!(whole("0xdeadbeef"), 0xDEADBEEF);
}

#[test]
fn test_zero_leading_octal_integer1() {
    assert_eq!(whole("0o01234567"), 0o01234567);
}

#[test]
fn test_zero_leading_octal_integer2() {
    assert_eq!(whole("0o0755"), 0o755);
}

#[test]
fn test_octal_integer() {
    assert_eq!(whole("0o755"), 0o755);
}

#[test]
fn test_binary_integer() {
    assert_eq!(whole("0b11010110"), 0b11010110);
}

#[test]
fn test_underscored_decimal_integer1() {
    assert_eq!(whole("5_349_221"), 5349221);
}

#[test]
fn test_underscored_decimal_integer2() {
    assert_eq!(whole("53_49_221"), 5349221);
}

#[test]
fn test_underscored_decimal_integer3() {
    assert_eq!(whole("1_2_3_4_5"), 12345);
}

#[test]
fn test_underscored_hex_integer() {
    assert_eq!(whole("0xdead_beef"), 0xDEADBEEF);
}

#[test]
fn test_plus_signed_underscored_hex_integer() {
    assert_eq!(whole("+0xdead_beef"), 0xDEADBEEF);
}

#[test]
fn test_plus_signed_zero_leading_underscored_hex_integer() {
    assert_eq!(whole("+0x0dead_beef"), 0xDEADBEEF);
}

#[test]
fn test_plus_signed_octal_integer() {
    assert_eq!(whole("+0o755"), 0o755);
}

#[test]
fn integer_literal_forms_give_their_values() {
    assert_eq!(whole("1_000"), 1000);
    assert_eq!(whole("0xdead_beef"), 3735928559);
    assert_eq!(whole("0o755"), 493);
    assert_eq!(whole("0b1010"), 10);
    assert_eq!(whole("-1_0"), -10);
}

#[test]
fn integer_extremes_fit() {
    assert_eq!(whole("9223372036854775807"), i64::MAX);
    assert_eq!(whole("-9223372036854775808"), i64::MIN);
    assert_eq!(whole("0x7fff_ffff_ffff_ffff"), i64::MAX);
}

#[test]
fn integer_overflow_is_a_range_error() {
    assert_eq!(parse_int("9223372036854775808"), Err(ParseError::new(ErrorKind::NumberOutOfRange, 0)));
    assert_eq!(parse_int("-9223372036854775809"), Err(ParseError::new(ErrorKind::NumberOutOfRange, 0)));
    assert_eq!(parse_int("0x8000000000000000"), Err(ParseError::new(ErrorKind::NumberOutOfRange, 0)));
}

#[test]
fn integer_underscores_only_between_digits() {
    assert_eq!(parse_int("1__2"), Ok(Some((1, 1))));
    assert_eq!(parse_int("12_"), Ok(Some((12, 2))));
    assert_eq!(parse_int("_1"), Ok(None));
}

#[test]
fn integer_prefixes_take_no_minus() {
    assert_eq!(parse_int("-0x10"), Ok(Some((0, 2))));
    assert_eq!(parse_int("0xg"), Ok(Some((0, 1))));
}

#[test]
fn integer_declines_other_text() {
    assert_eq!(parse_int("abc"), Ok(None));
    assert_eq!(parse_int(""), Ok(None));
    assert_eq!(parse_int("+"), Ok(None));
}

#[test]
fn decimal_rendering_reads_back() {
    for n in [0i64, 7, -7, 1000, i64::MAX, i64::MIN, 3735928559] {
        assert_eq!(parse_int(&n.to_string()), Ok(Some((n, n.to_string().len()))));
    }
}
