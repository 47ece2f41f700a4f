use toml_core::datetime::{local_date, local_datetime, local_time, offset_datetime};
use toml_core::error::{ErrorKind, ParseError};
use toml_core::number::boolean;
use toml_core::parser::{key_val_pair, table_header, value, Statement, MAX_DEPTH};
use toml_core::string::string;
use toml_core::text::to_chars;
use toml_core::value::{Float, KeyValue, Value};

fn float_text(f: &Float) -> String {
    match f {
        Float::Finite { negative, digits, exponent } => {
            let text = format!("{}{}e{}", if *negative { "-" } else { "" }, digits, exponent);
            format!("{:?}", text.parse::<f64>().unwrap())
        }
        Float::Infinite { negative } => (if *negative { "-inf" } else { "inf" }).to_string(),
        Float::NaN => "nan".to_string(),
    }
}

fn show(v: &Value) -> String {
    match v {
        Value::Str(s) => format!("{:?}", s),
        Value::Integer(n) => format!("{}", n),
        Value::Float(f) => float_text(f),
        Value::Boolean(b) => format!("{}", b),
        Value::OffsetDateTime(d) => format!("{:?}", d),
        Value::LocalDateTime(d) => format!("{:?}", d),
        Value::LocalDate(d) => format!("{:?}", d),
        Value::LocalTime(d) => format!("{:?}", d),
        Value::Array(items) => {
            let parts: Vec<String> = items.iter().map(show).collect();
            format!("[{}]", parts.join(", "))
        }
        Value::InlineTable(kvs) => {
            let parts: Vec<String> = kvs.iter().map(show_pair).collect();
            format!("{{{}}}", parts.join(", "))
        }
    }
}

fn show_pair(kv: &KeyValue) -> String {
    format!("{} = {}", kv.key.join("."), show(&kv.value))
}

fn parse_value(text: &str) -> Result<Option<(Value, usize)>, ParseError> {
    value(&to_chars(text), 0, MAX_DEPTH)
}

fn whole(text: &str) -> String {
    match parse_value(text) {
        Ok(Some((v, e))) => {
            assert_eq!(e, text.chars().count(), "not all of {:?} was read", text);
            show(&v)
        }
        other => panic!("{:?} gave {:?}", text, other),
    }
}

fn parse_string(text: &str) -> Result<Option<(String, usize)>, ParseError> {
    string(&to_chars(text), 0)
}

#[test]
fn test_no_whitespace_array_value() {
    assert_eq!(whole("[1,2,3]"), "[1, 2, 3]");
}

#[test]
fn test_whitespaced_integer_array() {
    assert_eq!(whole("[ 1, 2, 3 ]"), "[1, 2, 3]");
}

#[test]
fn test_integer_array() {
    assert_eq!(whole("[ 1, 2, 3 ]"), "[1, 2, 3]");
}

#[test]
fn test_float_array() {
    assert_eq!(whole("[ 0.1, 0.2, 0.5]"), "[0.1, 0.2, 0.5]");
}

#[test]
fn test_mixed_integer_float_array() {
    assert_eq!(whole("[ 0.1, 0.2, 0.5, 1, 2, 5 ]"), "[0.1, 0.2, 0.5, 1, 2, 5]");
}

#[test]
fn test_nested_integer_array() {
    assert_eq!(whole("[ [ 1, 2 ], [3, 4, 5] ]"), "[[1, 2], [3, 4, 5]]");
}

#[test]
fn test_no_whitespace_string_array() {
    assert_eq!(whole(r#"["red","yellow","green"]"#), r#"["red", "yellow", "green"]"#);
}

#[test]
fn test_basic_string_array() {
    assert_eq!(whole(r#"[ "red", "yellow", "green" ]"#), r#"["red", "yellow", "green"]"#);
}

#[test]
fn test_nested_mixed_array() {
    assert_eq!(whole(r#"[ [ 1, 2 ], ["a", "b", "c"] ]"#), r#"[[1, 2], ["a", "b", "c"]]"#);
}

#[test]
fn test_single_string_array() {
    assert_eq!(whole(r#"["derive"]"#), r#"["derive"]"#);
}

#[test]
fn array_edge_cases() {
    assert_eq!(whole("[]"), "[]");
    assert_eq!(whole("[1, 2,]"), "[1, 2]");
    assert_eq!(whole("[\n  1, # one\n  2\n]"), "[1, 2]");
    assert_eq!(parse_value("[1, 2").err(), Some(ParseError::new(ErrorKind::UnterminatedArray, 5)));
    assert_eq!(parse_value("[1 2]").err(), Some(ParseError::new(ErrorKind::UnterminatedArray, 3)));
    assert_eq!(parse_value("[,]").err(), Some(ParseError::new(ErrorKind::ExpectedValue, 1)));
}

#[test]
fn nesting_too_deep_is_an_error() {
    let deep = format!("{}{}", "[".repeat(MAX_DEPTH + 1), "]".repeat(MAX_DEPTH + 1));
    assert_eq!(parse_value(&deep).err(), Some(ParseError::new(ErrorKind::NestingTooDeep, MAX_DEPTH)));
    let ok = format!("{}{}", "[".repeat(MAX_DEPTH), "]".repeat(MAX_DEPTH));
    assert!(matches!(parse_value(&ok), Ok(Some(_))));
}

#[test]
fn test_true() {
    assert_eq!(boolean(&to_chars("true"), 0), Some((true, 4)));
}

#[test]
fn test_false() {
    assert_eq!(boolean(&to_chars("false"), 0), Some((false, 5)));
}

#[test]
fn boolean_needs_the_exact_literal() {
    assert_eq!(boolean(&to_chars("True"), 0), None);
    assert_eq!(boolean(&to_chars("fals"), 0), None);
}

#[test]
fn test_inline_table1() {
    assert_eq!(
        whole(r#"{ version = "1.0", features = ["derive"] }"#),
        r#"{version = "1.0", features = ["derive"]}"#
    );
}

#[test]
fn inline_table_edge_cases() {
    assert_eq!(whole("{}"), "{}");
    assert_eq!(whole("{ a.b = 1, 'c' = true }"), "{a.b = 1, c = true}");
    assert_eq!(parse_value("{ a = 1, a = 2 }").err(), Some(ParseError::new(ErrorKind::DuplicateKey, 0)));
    assert_eq!(parse_value("{ a = 1, }").err(), Some(ParseError::new(ErrorKind::UnterminatedInlineTable, 7)));
    assert_eq!(parse_value("{ a = 1,\n b = 2 }").err(), Some(ParseError::new(ErrorKind::InvalidKey, 8)));
    assert_eq!(parse_value("{ a 1 }").err(), Some(ParseError::new(ErrorKind::ExpectedEquals, 4)));
}

#[test]
fn nested_containers() {
    assert_eq!(whole("[[1,2],[3,4,5]]"), "[[1, 2], [3, 4, 5]]");
    assert_eq!(whole("{ a = 1, b = [1,2] }"), "{a = 1, b = [1, 2]}");
}

#[test]
fn test_key_val_pair() {
    let pair = |text: &str| match key_val_pair(&to_chars(text), 0) {
        Ok(Some((kv, e))) => {
            assert_eq!(e, text.chars().count());
            show_pair(&kv)
        }
        other => panic!("{:?} gave {:?}", text, other),
    };
    assert_eq!(pair("key = true"), "key = true");
    assert_eq!(pair("key = false"), "key = false");
    assert_eq!(pair("key = 12"), "key = 12");
    assert_eq!(pair("key = 12.2"), "key = 12.2");
}

#[test]
fn key_val_pair_strips_trailing_comment() {
    let s = to_chars("key = \"value\" # trailing comment\nnext = 1");
    match key_val_pair(&s, 0) {
        Ok(Some((kv, e))) => {
            assert_eq!(show_pair(&kv), "key = \"value\"");
            assert_eq!(e, 33);
        }
        other => panic!("{:?}", other),
    }
}

#[test]
fn key_val_pair_errors() {
    let kv = |text: &str| key_val_pair(&to_chars(text), 0).map(|r| r.map(|(kv, e)| (show_pair(&kv), e)));
    assert_eq!(kv("key 1"), Err(ParseError::new(ErrorKind::ExpectedEquals, 4)));
    assert_eq!(kv("key = "), Err(ParseError::new(ErrorKind::ExpectedValue, 6)));
    assert_eq!(kv("key = 1 2"), Err(ParseError::new(ErrorKind::ExpectedNewline, 8)));
    assert_eq!(kv("key = 9223372036854775808"), Err(ParseError::new(ErrorKind::NumberOutOfRange, 6)));
    assert_eq!(kv("= 1"), Ok(None));
    assert_eq!(kv("a.\"b c\" . d = 1"), Ok(Some(("a.b c.d = 1".to_string(), 15))));
}

#[test]
fn test_table_header() {
    match table_header(&to_chars("[table]\n"), 0) {
        Ok((Statement::Table(k), 8)) => assert_eq!(k, vec!["table".to_string()]),
        other => panic!("{:?}", other),
    }
}

#[test]
fn array_table_header() {
    match table_header(&to_chars("[[ fruit . variety ]] # c"), 0) {
        Ok((Statement::ArrayTable(k), 25)) => assert_eq!(k, vec!["fruit".to_string(), "variety".to_string()]),
        other => panic!("{:?}", other),
    }
    match table_header(&to_chars("[a"), 0) {
        Err(e) => assert_eq!(e, ParseError::new(ErrorKind::MalformedHeader, 2)),
        other => panic!("{:?}", other),
    }
}

#[test]
fn strings_in_four_forms() {
    assert_eq!(parse_string(r#""a\tb\u00e9\U0001F600""#), Ok(Some(("a\tbé😀".to_string(), 22))));
    assert_eq!(parse_string(r#"'C:\path'"#), Ok(Some((r"C:\path".to_string(), 9))));
    assert_eq!(parse_string("\"\"\"\nline1\nline2\"\"\""), Ok(Some(("line1\nline2".to_string(), 18))));
    assert_eq!(parse_string("'''\nraw \\n'''"), Ok(Some(("raw \\n".to_string(), 13))));
    assert_eq!(parse_string("\"\"\"a \\\n   b\"\"\""), Ok(Some(("a b".to_string(), 14))));
    assert_eq!(parse_string("\"\"\"two \"\" quotes\"\"\"\""), Ok(Some(("two \"\" quotes\"".to_string(), 20))));
    assert_eq!(parse_string("\"\""), Ok(Some((String::new(), 2))));
    assert_eq!(parse_string("x"), Ok(None));
}

#[test]
fn string_errors() {
    assert_eq!(parse_string("\"abc"), Err(ParseError::new(ErrorKind::UnterminatedString, 0)));
    assert_eq!(parse_string("\"ab\nc\""), Err(ParseError::new(ErrorKind::UnterminatedString, 0)));
    assert_eq!(parse_string("'''abc"), Err(ParseError::new(ErrorKind::UnterminatedString, 0)));
    assert_eq!(parse_string(r#""a\qb""#), Err(ParseError::new(ErrorKind::InvalidEscape, 2)));
    assert_eq!(parse_string(r#""\uD800""#), Err(ParseError::new(ErrorKind::InvalidEscape, 1)));
}

#[test]
fn parser_test_offset_datetime() {
    let d = offset_datetime("1979-05-27T07:32:00Z").unwrap();
    assert_eq!((d.date.year, d.date.month, d.date.day), (1979, 5, 27));
    assert_eq!((d.time.hour, d.time.minute, d.time.second, d.offset_seconds), (7, 32, 0, 0));
    let d = offset_datetime("1979-05-27T00:32:00-07:00").unwrap();
    assert_eq!(d.offset_seconds, -7 * 3600);
    let d = offset_datetime("1979-05-27T00:32:00.999999-07:00").unwrap();
    assert_eq!(d.time.nanosecond, 999_999_000);
    println!("{:?}", offset_datetime("1979-05-27 07:32:00Z"));
}

#[test]
fn datetime_test_offset_datetime() {
    assert!(offset_datetime("1979-05-27T07:32:00Z").is_some());
    assert!(offset_datetime("1979-05-27T00:32:00-07:00").is_some());
    assert!(offset_datetime("1979-05-27T00:32:00.999999-07:00").is_some());
    let d = local_date("1979-05-27").unwrap();
    assert_eq!((d.year, d.month, d.day), (1979, 5, 27));
    let t = local_time("07:32:00").unwrap();
    assert_eq!((t.hour, t.minute, t.second, t.nanosecond), (7, 32, 0, 0));
    let t = local_time("00:32:00.999999").unwrap();
    assert_eq!(t.nanosecond, 999_999_000);
    let dt = local_datetime("1979-05-27T07:32:00").unwrap();
    assert_eq!((dt.date.day, dt.time.hour), (27, 7));
    assert!(local_date("1979-02-30").is_none());
}

#[test]
fn datetime_values_in_priority_order() {
    assert!(matches!(parse_value("1979-05-27T07:32:00Z"), Ok(Some((Value::OffsetDateTime(_), 20)))));
    assert!(matches!(parse_value("1979-05-27T07:32:00"), Ok(Some((Value::LocalDateTime(_), 19)))));
    assert!(matches!(parse_value("1979-05-27"), Ok(Some((Value::LocalDate(_), 10)))));
    assert!(matches!(parse_value("07:32:00"), Ok(Some((Value::LocalTime(_), 8)))));
    assert!(matches!(parse_value("1979"), Ok(Some((Value::Integer(1979), 4)))));
}
