use vstd::prelude::*;
use crate::error::{ErrorKind, ParseError};
use crate::number::{all_digits, at3, digit, digits_value, has3, is_digit, run_value};
use crate::text::{newline, newline_len, push_char, skip_ws, whitespace};

verus! {

/// The Unicode code of a character.
pub open spec fn code_of(c: char) -> int {
    c as int
}

/// The character whose code is `v`, where `v` is a Unicode scalar value.
pub open spec fn code_char(v: int) -> Option<char> {
    if 0 <= v <= 0x10FFFF && !(0xD800 <= v <= 0xDFFF) {
        Some(choose|c: char| #[trigger] code_of(c) == v)
    } else {
        None
    }
}

/// The character that a one-letter escape `\c` stands for.
pub open spec fn simple_escape(c: char) -> Option<char> {
    if c == 'b' {
        Some('\x08')
    } else if c == 't' {
        Some('\t')
    } else if c == 'n' {
        Some('\n')
    } else if c == 'f' {
        Some('\x0C')
    } else if c == 'r' {
        Some('\r')
    } else if c == '"' {
        Some('"')
    } else if c == '\\' {
        Some('\\')
    } else {
        None
    }
}

/// The character that the `count` hexadecimal digits at `a` name, if they are all there and name
/// a Unicode scalar value.
pub open spec fn hex_escape(s: Seq<char>, a: int, count: int) -> Option<char> {
    if 0 <= a && a + count <= s.len() && all_digits(s, a, a + count, 16) && forall|k: int|
        a <= k < a + count ==> #[trigger] s[k] != '_' {
        code_char(digits_value(s, a, a + count, 16))
    } else {
        None
    }
}

/// The first position at or after `i` that is not a space, a tab, `\r` or `\n`.
pub open spec fn skip_space_nl(s: Seq<char>, i: int) -> int
    decreases s.len() - i,
{
    if 0 <= i < s.len() && (s[i] == ' ' || s[i] == '\t' || s[i] == '\n' || s[i] == '\r') {
        skip_space_nl(s, i + 1)
    } else {
        i
    }
}

/// `c` put before the content of a successful string body.
pub open spec fn prepend(c: Seq<char>, r: Result<(Seq<char>, int), ParseError>) -> Result<
    (Seq<char>, int),
    ParseError,
> {
    match r {
        Ok((t, e)) => Ok((c + t, e)),
        Err(x) => Err(x),
    }
}

/// The body of a string from `p` to its closing delimiter: the content and the position after
/// the delimiter. `quote` is the delimiter character, tripled where `multiline`; `escapes` says
/// whether backslash escapes are read (basic strings) or kept (literal strings). An unclosed
/// string is an error at `start`, its opening delimiter.
pub open spec fn str_body(s: Seq<char>, p: int, quote: char, escapes: bool, multiline: bool, start: int) -> Result<
    (Seq<char>, int),
    ParseError,
>
    decreases s.len() - p,
{
    if !(0 <= p < s.len()) {
        Err(ParseError { kind: ErrorKind::UnterminatedString, offset: start as usize })
    } else if !multiline && s[p] == quote {
        Ok((Seq::empty(), p + 1))
    } else if multiline && has3(s, p, quote, quote, quote) && !(p + 3 < s.len() && s[p + 3] == quote) {
        Ok((Seq::empty(), p + 3))
    } else if !multiline && (s[p] == '\n' || newline_len(s, p) > 0) {
        Err(ParseError { kind: ErrorKind::UnterminatedString, offset: start as usize })
    } else if escapes && s[p] == '\\' {
        if multiline && newline_len(s, skip_ws(s, p + 1)) > 0 {
            if p < skip_space_nl(s, skip_ws(s, p + 1)) <= s.len() {
                str_body(s, skip_space_nl(s, skip_ws(s, p + 1)), quote, escapes, multiline, start)
            } else {
                Err(ParseError { kind: ErrorKind::InvalidEscape, offset: p as usize })
            }
        } else if p + 1 < s.len() && simple_escape(s[p + 1]) is Some {
            prepend(
                seq![simple_escape(s[p + 1])->Some_0],
                str_body(s, p + 2, quote, escapes, multiline, start),
            )
        } else if p + 1 < s.len() && s[p + 1] == 'u' && hex_escape(s, p + 2, 4) is Some {
            prepend(
                seq![hex_escape(s, p + 2, 4)->Some_0],
                str_body(s, p + 6, quote, escapes, multiline, start),
            )
        } else if p + 1 < s.len() && s[p + 1] == 'U' && hex_escape(s, p + 2, 8) is Some {
            prepend(
                seq![hex_escape(s, p + 2, 8)->Some_0],
                str_body(s, p + 10, quote, escapes, multiline, start),
            )
        } else {
            Err(ParseError { kind: ErrorKind::InvalidEscape, offset: p as usize })
        }
    } else {
        prepend(seq![s[p]], str_body(s, p + 1, quote, escapes, multiline, start))
    }
}

/// The string literal at `i`, in any of its four forms: `"""…"""`, `"…"`, `'''…'''`, `'…'`.
/// A newline right after a tripled opening delimiter is not part of the content.
pub open spec fn spec_string(s: Seq<char>, i: int) -> Result<Option<(Seq<char>, usize)>, ParseError> {
    let r = if has3(s, i, '"', '"', '"') {
        Some(str_body(s, i + 3 + newline_len(s, i + 3), '"', true, true, i))
    } else if 0 <= i < s.len() && s[i] == '"' {
        Some(str_body(s, i + 1, '"', true, false, i))
    } else if has3(s, i, '\'', '\'', '\'') {
        Some(str_body(s, i + 3 + newline_len(s, i + 3), '\'', false, true, i))
    } else if 0 <= i < s.len() && s[i] == '\'' {
        Some(str_body(s, i + 1, '\'', false, false, i))
    } else {
        None
    };
    match r {
        None => Ok(None),
        Some(Ok((t, e))) => Ok(Some((t, e as usize))),
        Some(Err(x)) => Err(x),
    }
}

proof fn lemma_prepend_push(acc: Seq<char>, c: char, r: Result<(Seq<char>, int), ParseError>)
    ensures
        prepend(acc, prepend(seq![c], r)) == prepend(acc.push(c), r),
{
    match r {
        Ok((t, e)) => {
            assert(acc + (seq![c] + t) =~= acc.push(c) + t);
        },
        Err(_) => {},
    }
}

proof fn lemma_prepend_empty(acc: Seq<char>, e: int)
    ensures
        prepend(acc, Ok((Seq::<char>::empty(), e))) == Ok::<(Seq<char>, int), ParseError>((acc, e)),
{
    assert(acc + Seq::<char>::empty() =~= acc);
}

/// Relies on char::from_u32: the character with the given code, where the code is a Unicode
/// scalar value.
#[verifier::external_body]
fn char_from_code(v: u32) -> (r: Option<char>)
    ensures
        r is Some <==> (v <= 0x10FFFF && !(0xD800 <= v <= 0xDFFF)),
        r matches Some(c) ==> c as int == v as int,
{
    char::from_u32(v)
}

/// The character named by the `count` hexadecimal digits at `a`.
fn hex_char(s: &Vec<char>, a: usize, count: usize) -> (r: Option<char>)
    requires
        a <= s@.len(),
        count == 4 || count == 8,
    ensures
        r == hex_escape(s@, a as int, count as int),
{
    let n = s.len();
    if n - a < count {
        return None;
    }
    let mut k = a;
    while k < a + count
        invariant
            a <= k <= a + count <= n,
            n == s@.len(),
            forall|j: int| a <= j < k ==> is_digit(#[trigger] s@[j], 16) && s@[j] != '_',
        decreases a + count - k,
    {
        if digit(s[k]) >= 16 {
            return None;
        }
        k = k + 1;
    }
    assert(all_digits(s@, a as int, (a + count) as int, 16));
    match run_value(s, a, a + count, 16, 0x10FFFF) {
        None => None,
        Some(v) => {
            let r = char_from_code(v as u32);
            proof {
                let w = digits_value(s@, a as int, (a + count) as int, 16);
                if let Some(c) = r {
                    assert(code_of(c) == w);
                    let d = choose|d: char| #[trigger] code_of(d) == w;
                    assert(code_of(d) == w);
                    assert(c == d);
                }
            }
            r
        },
    }
}

/// Skips spaces, tabs, `\r` and `\n` from `i`.
fn space_nl(s: &Vec<char>, i: usize) -> (j: usize)
    requires
        i <= s@.len(),
    ensures
        j == skip_space_nl(s@, i as int),
        i <= j <= s@.len(),
{
    let mut j = i;
    while j < s.len() && (s[j] == ' ' || s[j] == '\t' || s[j] == '\n' || s[j] == '\r')
        invariant
            i <= j <= s@.len(),
            skip_space_nl(s@, j as int) == skip_space_nl(s@, i as int),
        decreases s@.len() - j,
    {
        j = j + 1;
    }
    j
}

/// The one-letter escape `\c`.
fn escape_char(c: char) -> (r: Option<char>)
    ensures
        r == simple_escape(c),
{
    if c == 'b' {
        Some('\x08')
    } else if c == 't' {
        Some('\t')
    } else if c == 'n' {
        Some('\n')
    } else if c == 'f' {
        Some('\x0C')
    } else if c == 'r' {
        Some('\r')
    } else if c == '"' {
        Some('"')
    } else if c == '\\' {
        Some('\\')
    } else {
        None
    }
}

/// Reads a string body from `p` up to and including its closing delimiter.
pub(crate) fn string_body(s: &Vec<char>, p: usize, quote: char, escapes: bool, multiline: bool, start: usize) -> (r: Result<(String, usize), ParseError>)
    requires
        p <= s@.len(),
    ensures
        match (r, str_body(s@, p as int, quote, escapes, multiline, start as int)) {
            (Ok((t, e)), Ok((u, f))) => t@ == u && e == f && p < e <= s@.len(),
            (Err(x), Err(y)) => x == y,
            _ => false,
        },
{
    let n = s.len();
    let mut acc = String::new();
    let mut j = p;
    loop
        invariant
            p <= j <= n,
            n == s@.len(),
            str_body(s@, p as int, quote, escapes, multiline, start as int) == prepend(
                acc@,
                str_body(s@, j as int, quote, escapes, multiline, start as int),
            ),
        decreases n - j,
    {
        if j >= n {
            return Err(ParseError::new(ErrorKind::UnterminatedString, start));
        }
        let c = s[j];
        if !multiline && c == quote {
            proof {
                lemma_prepend_empty(acc@, j + 1);
            }
            return Ok((acc, j + 1));
        }
        if multiline && at3(s, j, quote, quote, quote) && !(n - j > 3 && s[j + 3] == quote) {
            proof {
                lemma_prepend_empty(acc@, j + 3);
            }
            return Ok((acc, j + 3));
        }
        if !multiline && (c == '\n' || newline(s, j) > 0) {
            return Err(ParseError::new(ErrorKind::UnterminatedString, start));
        }
        if escapes && c == '\\' {
            let k = whitespace(s, j + 1);
            if multiline && newline(s, k) > 0 {
                let m = space_nl(s, k);
                j = m;
            } else if j + 1 < n && escape_char(s[j + 1]).is_some() {
                let e = escape_char(s[j + 1]).unwrap();
                proof {
                    lemma_prepend_push(acc@, e, str_body(s@, j + 2, quote, escapes, multiline, start as int));
                }
                push_char(&mut acc, e);
                j = j + 2;
            } else if j + 1 < n && s[j + 1] == 'u' && hex_char(s, j + 2, 4).is_some() {
                let e = hex_char(s, j + 2, 4).unwrap();
                proof {
                    lemma_prepend_push(acc@, e, str_body(s@, j + 6, quote, escapes, multiline, start as int));
                }
                push_char(&mut acc, e);
                j = j + 6;
            } else if j + 1 < n && s[j + 1] == 'U' && hex_char(s, j + 2, 8).is_some() {
                let e = hex_char(s, j + 2, 8).unwrap();
                proof {
                    lemma_prepend_push(acc@, e, str_body(s@, j + 10, quote, escapes, multiline, start as int));
                }
                push_char(&mut acc, e);
                j = j + 10;
            } else {
                return Err(ParseError::new(ErrorKind::InvalidEscape, j));
            }
        } else {
            proof {
                lemma_prepend_push(acc@, c, str_body(s@, j + 1, quote, escapes, multiline, start as int));
            }
            push_char(&mut acc, c);
            j = j + 1;
        }
    }
}

/// Parses the string literal at `i`, in any of its four forms.
pub fn string(s: &Vec<char>, i: usize) -> (r: Result<Option<(String, usize)>, ParseError>)
    requires
        i <= s@.len(),
    ensures
        match (r, spec_string(s@, i as int)) {
            (Ok(Some((t, e))), Ok(Some((u, f)))) => t@ == u && e == f && i < e <= s@.len(),
            (Ok(None), Ok(None)) => true,
            (Err(x), Err(y)) => x == y,
            _ => false,
        },
{
    let n = s.len();
    let b = if at3(s, i, '"', '"', '"') {
        Some(string_body(s, i + 3 + newline(s, i + 3), '"', true, true, i))
    } else if i < n && s[i] == '"' {
        Some(string_body(s, i + 1, '"', true, false, i))
    } else if at3(s, i, '\'', '\'', '\'') {
        Some(string_body(s, i + 3 + newline(s, i + 3), '\'', false, true, i))
    } else if i < n && s[i] == '\'' {
        Some(string_body(s, i + 1, '\'', false, false, i))
    } else {
        None
    };
    match b {
        None => Ok(None),
        Some(Ok((t, e))) => Ok(Some((t, e))),
        Some(Err(x)) => Err(x),
    }
}

} // verus!
