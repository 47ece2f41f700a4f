use toml_core::text::{comment, line_col, newline, sp, string_of, to_chars, whitespace};

#[test]
fn parser_test_whitespace() {
    let s = to_chars(" \tSomeText");
    let e = whitespace(&s, 0);
    assert_eq!(string_of(&s, e, s.len()), "SomeText");
    assert_eq!(string_of(&s, 0, e), " \t");
    let s = to_chars("Test");
    let e = whitespace(&s, 0);
    assert_eq!(string_of(&s, e, s.len()), "Test");
    assert_eq!(e, 0);
}

#[test]
fn whitespace_test_whitespace() {
    let s = to_chars(" \tSomeText");
    assert_eq!(whitespace(&s, 0), 2);
    let s = to_chars("Test");
    assert_eq!(whitespace(&s, 0), 0);
}

#[test]
fn test_newline() {
    let s = to_chars("\nTest");
    assert_eq!(newline(&s, 0), 1);
    let s = to_chars("\r\nTest");
    assert_eq!(newline(&s, 0), 2);
    let s = to_chars("\rTest");
    assert_eq!(newline(&s, 0), 0);
}

#[test]
fn parser_test_comment() {
    let s = to_chars("# This is a full-line comment\n");
    let e = comment(&s, 0);
    assert_eq!(string_of(&s, 1, e), " This is a full-line comment");
    assert_eq!(e + newline(&s, e), s.len());
}

#[test]
fn comment_test_comment() {
    let s = to_chars("# This is a full-line comment\n");
    let e = comment(&s, 0);
    assert_eq!(string_of(&s, 1, e), " This is a full-line comment");
    assert_eq!(newline(&s, e), 1);
}

#[test]
fn comment_at_end_of_text() {
    let s = to_chars("# last line");
    assert_eq!(comment(&s, 0), s.len());
}

#[test]
fn sp_skips_blank_lines_and_comments() {
    let s = to_chars("  \n# note\r\n\t x");
    assert_eq!(sp(&s, 0), s.len() - 1);
}

#[test]
fn to_chars_keeps_non_ascii() {
    let s = to_chars("é√");
    assert_eq!(s, vec!['é', '√']);
}

#[test]
fn line_col_counts_from_one() {
    let s = to_chars("a = 1\nbb = 2\n");
    assert_eq!(line_col(&s, 0), (1, 1));
    assert_eq!(line_col(&s, 4), (1, 5));
    assert_eq!(line_col(&s, 6), (2, 1));
    assert_eq!(line_col(&s, 9), (2, 4));
    assert_eq!(line_col(&s, 13), (3, 1));
}
