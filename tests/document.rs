use toml_core::document::{parse, Document, Item, Table, TableKind};
use toml_core::error::{ErrorKind, ParseError};
use toml_core::parser::{statements, Line, Statement};
use toml_core::text::to_chars;
use toml_core::value::Value;

fn doc(text: &str) -> Document {
    match parse(text) {
        Ok(d) => d,
        Err(e) => panic!("{:?} gave {:?}", text, e),
    }
}

fn err(text: &str) -> ParseError {
    match parse(text) {
        Ok(d) => panic!("{:?} parsed to {:?}", text, d),
        Err(e) => e,
    }
}

fn table<'a>(d: &'a Document, key: &str) -> &'a Table {
    d.get(key).and_then(|i| i.as_table()).unwrap_or_else(|| panic!("no table at {}", key))
}

fn value<'a>(d: &'a Document, key: &str) -> &'a Value {
    d.get(key).and_then(|i| i.as_value()).unwrap_or_else(|| panic!("no value at {}", key))
}

#[test]
fn duplicate_key_is_an_error() {
    assert_eq!(err("a = 1\na = 2"), ParseError::new(ErrorKind::DuplicateKey, 6));
}

#[test]
fn duplicate_table_is_an_error() {
    assert_eq!(err("[x]\n[x]"), ParseError::new(ErrorKind::DuplicateTable, 4));
}

#[test]
fn value_turned_table_is_a_type_conflict() {
    assert_eq!(err("a = 1\n[a]"), ParseError::new(ErrorKind::NotATable, 6));
    assert_eq!(err("a.b = 1\na.b.c = 2"), ParseError::new(ErrorKind::NotATable, 8));
}

#[test]
fn dotted_keys_make_implicit_tables() {
    let d = doc("a.b.c = 1");
    assert_eq!(table(&d, "a").kind, TableKind::Implicit);
    assert_eq!(table(&d, "a.b").kind, TableKind::Implicit);
    assert_eq!(value(&d, "a.b.c").as_integer(), Some(&1));
}

#[test]
fn header_completes_an_implicit_table_once() {
    let d = doc("a.b.c = 1\n[a.b]\nd = 2");
    assert_eq!(table(&d, "a.b").kind, TableKind::Explicit);
    assert_eq!(table(&d, "a").kind, TableKind::Implicit);
    assert_eq!(value(&d, "a.b.d").as_integer(), Some(&2));
    assert_eq!(err("a.b.c = 1\n[a.b]\n[a.b]"), ParseError::new(ErrorKind::DuplicateTable, 16));
}

#[test]
fn parent_header_after_child_header_is_no_duplicate() {
    let d = doc("[a.b]\nx = 1\n[a]\ny = 2");
    assert_eq!(table(&d, "a").kind, TableKind::Explicit);
    assert_eq!(value(&d, "a.b.x").as_integer(), Some(&1));
    assert_eq!(value(&d, "a.y").as_integer(), Some(&2));
}

#[test]
fn array_of_tables_accumulates_in_order() {
    let d = doc("[[fruit]]\nname=\"apple\"\n[[fruit]]\nname=\"banana\"");
    let fruit = d.get("fruit").and_then(|i| i.as_array_of_tables()).unwrap();
    assert_eq!(fruit.len(), 2);
    let name = |t: &Table| t.get("name").and_then(|i| i.as_value()).and_then(|v| v.as_str()).cloned();
    assert_eq!(name(&fruit[0]), Some("apple".to_string()));
    assert_eq!(name(&fruit[1]), Some("banana".to_string()));
}

#[test]
fn array_of_tables_entries_take_nested_tables() {
    let d = doc("[[fruit]]\nname = 1\n[fruit.variety]\nv = 1\n[[fruit]]\nname = 2\n[fruit.variety]\nv = 2");
    let fruit = d.get("fruit").and_then(|i| i.as_array_of_tables()).unwrap();
    assert_eq!(fruit.len(), 2);
    for (n, t) in fruit.iter().enumerate() {
        let variety = t.get("variety").and_then(|i| i.as_table()).unwrap();
        let v = variety.get("v").and_then(|i| i.as_value()).and_then(|v| v.as_integer());
        assert_eq!(v, Some(&(n as i64 + 1)));
    }
}

#[test]
fn table_and_array_of_tables_do_not_mix() {
    assert_eq!(err("[fruit]\n[[fruit]]"), ParseError::new(ErrorKind::TableArrayConflict, 8));
    assert_eq!(err("[[fruit]]\n[fruit]"), ParseError::new(ErrorKind::TableArrayConflict, 10));
    assert_eq!(err("fruit.x = 1\n[[fruit]]"), ParseError::new(ErrorKind::TableArrayConflict, 12));
    assert_eq!(err("[[t.arr]]\n[t]\narr.x = 1"), ParseError::new(ErrorKind::TableArrayConflict, 14));
}

#[test]
fn nested_containers_in_a_document() {
    let d = doc("nested = [[1,2],[3,4,5]]\nt = { a = 1, b = [1,2] }");
    let nested = value(&d, "nested").as_array().unwrap();
    assert_eq!(nested.len(), 2);
    let ints = |v: &Value| -> Vec<i64> {
        v.as_array().unwrap().iter().map(|x| *x.as_integer().unwrap()).collect()
    };
    assert_eq!(ints(&nested[0]), vec![1, 2]);
    assert_eq!(ints(&nested[1]), vec![3, 4, 5]);
    let t = value(&d, "t").as_inline_table().unwrap();
    assert_eq!(t.len(), 2);
    assert_eq!(t[0].key, vec!["a".to_string()]);
    assert_eq!(t[0].value.as_integer(), Some(&1));
    assert_eq!(t[1].key, vec!["b".to_string()]);
    assert_eq!(ints(&t[1].value), vec![1, 2]);
}

#[test]
fn trailing_comment_is_stripped() {
    let d = doc("key = \"value\" # trailing comment\n");
    assert_eq!(value(&d, "key").as_str(), Some(&"value".to_string()));
    assert_eq!(d.root.keys(), vec!["key".to_string()]);
    assert!(!format!("{:?}", d).contains("trailing"));
}

#[test]
fn pairs_go_to_the_current_table_in_order() {
    let d = doc("# config\ntitle = 'x'\n\n[server]\nport = 8080\nhost = \"h\"\n[client]\nid = 1\n");
    assert_eq!(d.root.keys(), vec!["title".to_string(), "server".to_string(), "client".to_string()]);
    assert_eq!(table(&d, "server").keys(), vec!["port".to_string(), "host".to_string()]);
    assert_eq!(value(&d, "server.port").as_integer(), Some(&8080));
    assert_eq!(value(&d, "client.id").as_integer(), Some(&1));
    assert_eq!(d.root.kind, TableKind::Root);
}

#[test]
fn lookup_misses() {
    let d = doc("a = 1\n[b]\nc = 2");
    assert!(d.get("x").is_none());
    assert!(d.get("a.c").is_none());
    assert!(d.get("b.c.d").is_none());
    assert!(d.get("b. ").is_none());
    assert!(matches!(d.get("b"), Some(Item::Table(_))));
}

#[test]
fn empty_document() {
    let d = doc("");
    assert!(d.root.entries.is_empty());
    let d = doc("\n# only a comment\n\n");
    assert!(d.root.entries.is_empty());
}

#[test]
fn syntax_errors_carry_their_offset() {
    assert_eq!(err("a = "), ParseError::new(ErrorKind::ExpectedValue, 4));
    assert_eq!(err("a = 1\n= 2"), ParseError::new(ErrorKind::InvalidKey, 6));
    assert_eq!(err("[a"), ParseError::new(ErrorKind::MalformedHeader, 2));
    assert_eq!(err("[a] b"), ParseError::new(ErrorKind::ExpectedNewline, 4));
    assert_eq!(err("s = \"abc"), ParseError::new(ErrorKind::UnterminatedString, 4));
    assert_eq!(err("n = 99999999999999999999"), ParseError::new(ErrorKind::NumberOutOfRange, 4));
}

#[test]
fn dates_in_a_document() {
    let d = doc("dob = 1979-05-27T07:32:00-08:00\nday = 1979-05-27\nat = 07:32:00");
    assert_eq!(value(&d, "dob").as_offset_datetime().unwrap().offset_seconds, -8 * 3600);
    assert_eq!(value(&d, "day").as_local_date().unwrap().month, 5);
    assert_eq!(value(&d, "at").as_local_time().unwrap().minute, 32);
}

fn lines(text: &str) -> Vec<Line> {
    statements(&to_chars(text)).unwrap()
}

fn pair_text(line: &Line) -> String {
    match &line.statement {
        Statement::Pair(kv) => format!("{} = {:?}", kv.key.join("."), kv.value),
        other => panic!("not a pair: {:?}", other),
    }
}

#[test]
fn test_table_body() {
    let ls = lines("key1 = false\n\nkey2 = 123\n");
    assert_eq!(ls.len(), 2);
    assert_eq!(pair_text(&ls[0]), "key1 = Boolean(false)");
    assert_eq!(pair_text(&ls[1]), "key2 = Integer(123)");
}

#[test]
fn test_empty_table() {
    let ls = lines("[table-1]\n");
    assert_eq!(ls.len(), 1);
    assert!(matches!(&ls[0].statement, Statement::Table(k) if *k == vec!["table-1".to_string()]));
    let d = doc("[table-1]\n");
    assert!(table(&d, "table-1").entries.is_empty());
}

#[test]
fn test_single_table() {
    let d = doc("[table-1]\nkey1 = 1.23\n");
    match value(&d, "table-1.key1") {
        Value::Float(toml_core::value::Float::Finite { negative, digits, exponent }) => {
            assert_eq!((*negative, digits.as_str(), *exponent), (false, "123", -2));
        }
        other => panic!("{:?}", other),
    }
}

#[test]
fn test_single_table_key_last_line() {
    let d = doc("[table]\nkey = 123");
    assert_eq!(value(&d, "table.key").as_integer(), Some(&123));
}

#[test]
fn test_single_string_key_val_table() {
    let d = doc("[table-1]\nkey1 = \"this is a string\"\n");
    assert_eq!(value(&d, "table-1.key1").as_str(), Some(&"this is a string".to_string()));
}
