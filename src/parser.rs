use vstd::prelude::*;
use crate::datetime::{datetime, spec_datetime};
use crate::error::{ErrorKind, ParseError};
use crate::number::{boolean, float, integer, spec_boolean, spec_float, spec_integer};
use crate::string::{spec_string, str_body, string, string_body};
use crate::text::{comment, comment_end, newline, newline_len, skip_blank, skip_ws, sp, string_of, whitespace};
use crate::value::{
    key_model, lemma_array_model, lemma_inline_table_model, pairs_model, value_model, values_model,
    KeyValue, Value, ValueModel,
};

verus! {

/// How deeply arrays and inline tables may nest inside one value.
pub const MAX_DEPTH: usize = 64;

/// Letters, digits, `_` and `-`: the characters of a bare key.
pub open spec fn is_bare_char(c: char) -> bool {
    ('a' <= c && c <= 'z') || ('A' <= c && c <= 'Z') || ('0' <= c && c <= '9') || c == '_' || c
        == '-'
}

/// The end of the run of bare-key characters from `i`.
pub open spec fn bare_end(s: Seq<char>, i: int) -> int
    decreases s.len() - i,
{
    if 0 <= i < s.len() && is_bare_char(s[i]) {
        bare_end(s, i + 1)
    } else {
        i
    }
}

/// The key segment at `i`: a non-empty run of bare-key characters, or a one-line basic or
/// literal string.
pub open spec fn spec_segment(s: Seq<char>, i: int) -> Result<Option<(Seq<char>, int)>, ParseError> {
    if 0 <= i < s.len() && s[i] == '"' {
        match str_body(s, i + 1, '"', true, false, i) {
            Ok((t, e)) => Ok(Some((t, e))),
            Err(x) => Err(x),
        }
    } else if 0 <= i < s.len() && s[i] == '\'' {
        match str_body(s, i + 1, '\'', false, false, i) {
            Ok((t, e)) => Ok(Some((t, e))),
            Err(x) => Err(x),
        }
    } else if 0 <= i < s.len() && is_bare_char(s[i]) {
        Ok(Some((s.subrange(i, bare_end(s, i)), bare_end(s, i))))
    } else {
        Ok(None)
    }
}

/// The key at `i`: one or more segments joined by `.`, with spaces or tabs allowed around
/// each dot. `Ok(None)` where no segment starts at `i`.
pub open spec fn spec_key(s: Seq<char>, i: int) -> Result<Option<(Seq<Seq<char>>, int)>, ParseError>
    decreases s.len() - i,
{
    match spec_segment(s, i) {
        Err(x) => Err(x),
        Ok(None) => Ok(None),
        Ok(Some((seg, e))) => {
            let j = skip_ws(s, e);
            if 0 <= j < s.len() && s[j] == '.' {
                let k = skip_ws(s, j + 1);
                if i < k <= s.len() {
                    match spec_key(s, k) {
                        Ok(Some((rest, f))) => Ok(Some((seq![seg] + rest, f))),
                        Ok(None) => Err(ParseError { kind: ErrorKind::InvalidKey, offset: k as usize }),
                        Err(x) => Err(x),
                    }
                } else {
                    Err(ParseError { kind: ErrorKind::InvalidKey, offset: k as usize })
                }
            } else {
                Ok(Some((seq![seg], e)))
            }
        },
    }
}

/// `acc` put before the list of a successful result.
pub open spec fn prepend_list<T>(acc: Seq<T>, r: Result<(Seq<T>, int), ParseError>) -> Result<
    (Seq<T>, int),
    ParseError,
> {
    match r {
        Ok((t, e)) => Ok((acc + t, e)),
        Err(x) => Err(x),
    }
}

/// Whether two entries of `pairs` have the same key.
pub open spec fn has_duplicate_key(pairs: Seq<(Seq<Seq<char>>, ValueModel)>) -> bool {
    exists|a: int, b: int| 0 <= a < b < pairs.len() && #[trigger] pairs[a].0 == #[trigger] pairs[b].0
}

/// The value at `i`, the alternatives tried in a fixed order: date-time, float, integer,
/// boolean, string, array, inline table. `Ok(None)` where none starts at `i`. Arrays and inline
/// tables may nest `depth` levels deep.
pub open spec fn spec_value(s: Seq<char>, i: int, depth: nat) -> Result<Option<(ValueModel, int)>, ParseError>
    decreases depth, 0int, 0int,
{
    match spec_datetime(s, i) {
        Some((m, e)) => Ok(Some((m, e as int))),
        None => match spec_float(s, i) {
            Err(x) => Err(x),
            Ok(Some((f, e))) => Ok(Some((ValueModel::Float(f), e as int))),
            Ok(None) => match spec_integer(s, i) {
                Err(x) => Err(x),
                Ok(Some((n, e))) => Ok(Some((ValueModel::Integer(n as int), e as int))),
                Ok(None) => match spec_boolean(s, i) {
                    Some((b, e)) => Ok(Some((ValueModel::Boolean(b), e as int))),
                    None => match spec_string(s, i) {
                        Err(x) => Err(x),
                        Ok(Some((t, e))) => Ok(Some((ValueModel::Str(t), e as int))),
                        Ok(None) => if 0 <= i < s.len() && (s[i] == '[' || s[i] == '{') {
                            if depth == 0 {
                                Err(ParseError { kind: ErrorKind::NestingTooDeep, offset: i as usize })
                            } else if s[i] == '[' {
                                spec_array(s, i, (depth - 1) as nat)
                            } else {
                                spec_inline_table(s, i, (depth - 1) as nat)
                            }
                        } else {
                            Ok(None)
                        },
                    },
                },
            },
        },
    }
}

/// The array whose `[` stands at `i`: elements separated by commas, an optional trailing comma,
/// with whitespace, line endings and comments allowed around elements.
pub open spec fn spec_array(s: Seq<char>, i: int, depth: nat) -> Result<Option<(ValueModel, int)>, ParseError>
    decreases depth, 2int, 0int,
{
    let p = skip_blank(s, i + 1);
    if 0 <= p < s.len() && s[p] == ']' {
        Ok(Some((ValueModel::Array(Seq::empty()), p + 1)))
    } else {
        match spec_items(s, p, depth) {
            Ok((items, e)) => Ok(Some((ValueModel::Array(items), e))),
            Err(x) => Err(x),
        }
    }
}

/// The elements of an array from the one at `p` up to and including the closing `]`.
pub open spec fn spec_items(s: Seq<char>, p: int, depth: nat) -> Result<(Seq<ValueModel>, int), ParseError>
    decreases depth, 1int, s.len() - p,
{
    match spec_value(s, p, depth) {
        Err(x) => Err(x),
        Ok(None) => Err(ParseError { kind: ErrorKind::ExpectedValue, offset: p as usize }),
        Ok(Some((v, e))) => {
            let q = skip_blank(s, e);
            if 0 <= q < s.len() && s[q] == ']' {
                Ok((seq![v], q + 1))
            } else if 0 <= q < s.len() && s[q] == ',' {
                let r = skip_blank(s, q + 1);
                if 0 <= r < s.len() && s[r] == ']' {
                    Ok((seq![v], r + 1))
                } else if p < r <= s.len() {
                    prepend_list(seq![v], spec_items(s, r, depth))
                } else {
                    Err(ParseError { kind: ErrorKind::UnterminatedArray, offset: r as usize })
                }
            } else {
                Err(ParseError { kind: ErrorKind::UnterminatedArray, offset: q as usize })
            }
        },
    }
}

/// The inline table whose `{` stands at `i`: `key = value` pairs separated by commas, on one
/// line, with no trailing comma, and no key given twice.
pub open spec fn spec_inline_table(s: Seq<char>, i: int, depth: nat) -> Result<Option<(ValueModel, int)>, ParseError>
    decreases depth, 2int, 0int,
{
    let p = skip_ws(s, i + 1);
    if 0 <= p < s.len() && s[p] == '}' {
        Ok(Some((ValueModel::InlineTable(Seq::empty()), p + 1)))
    } else {
        match spec_pairs(s, p, depth) {
            Ok((pairs, e)) => if has_duplicate_key(pairs) {
                Err(ParseError { kind: ErrorKind::DuplicateKey, offset: i as usize })
            } else {
                Ok(Some((ValueModel::InlineTable(pairs), e)))
            },
            Err(x) => Err(x),
        }
    }
}

/// The pairs of an inline table from the one at `p` up to and including the closing `}`.
pub open spec fn spec_pairs(s: Seq<char>, p: int, depth: nat) -> Result<(Seq<(Seq<Seq<char>>, ValueModel)>, int), ParseError>
    decreases depth, 1int, s.len() - p,
{
    match spec_key(s, p) {
        Err(x) => Err(x),
        Ok(None) => Err(ParseError { kind: ErrorKind::InvalidKey, offset: p as usize }),
        Ok(Some((k, e))) => {
            let q = skip_ws(s, e);
            if !(0 <= q < s.len() && s[q] == '=') {
                Err(ParseError { kind: ErrorKind::ExpectedEquals, offset: q as usize })
            } else {
                let r = skip_ws(s, q + 1);
                match spec_value(s, r, depth) {
                    Err(x) => Err(x),
                    Ok(None) => Err(ParseError { kind: ErrorKind::ExpectedValue, offset: r as usize }),
                    Ok(Some((v, f))) => {
                        let t = skip_ws(s, f);
                        if 0 <= t < s.len() && s[t] == '}' {
                            Ok((seq![(k, v)], t + 1))
                        } else if 0 <= t < s.len() && s[t] == ',' {
                            let u = skip_ws(s, t + 1);
                            if 0 <= u < s.len() && s[u] == '}' {
                                Err(ParseError { kind: ErrorKind::UnterminatedInlineTable, offset: t as usize })
                            } else if p < u <= s.len() {
                                prepend_list(seq![(k, v)], spec_pairs(s, u, depth))
                            } else {
                                Err(ParseError { kind: ErrorKind::UnterminatedInlineTable, offset: u as usize })
                            }
                        } else {
                            Err(ParseError { kind: ErrorKind::UnterminatedInlineTable, offset: t as usize })
                        }
                    },
                }
            }
        },
    }
}

/// Whether an executable value result agrees with a modelled one.
pub open spec fn value_result_is(
    r: Result<Option<(Value, usize)>, ParseError>,
    m: Result<Option<(ValueModel, int)>, ParseError>,
) -> bool {
    match (r, m) {
        (Ok(Some((v, e))), Ok(Some((w, f)))) => value_model(v) == w && e == f,
        (Ok(None), Ok(None)) => true,
        (Err(x), Err(y)) => x == y,
        _ => false,
    }
}

proof fn lemma_prepend_push<T>(acc: Seq<T>, x: T, r: Result<(Seq<T>, int), ParseError>)
    ensures
        prepend_list(acc, prepend_list(seq![x], r)) == prepend_list(acc.push(x), r),
{
    match r {
        Ok((t, e)) => {
            assert(acc + (seq![x] + t) =~= acc.push(x) + t);
        },
        Err(_) => {},
    }
}

proof fn lemma_prepend_last<T>(acc: Seq<T>, x: T, e: int)
    ensures
        prepend_list(acc, Ok((seq![x], e))) == Ok::<(Seq<T>, int), ParseError>((acc.push(x), e)),
{
    assert(acc + seq![x] =~= acc.push(x));
}

proof fn lemma_bare_end(s: Seq<char>, i: int)
    requires
        0 <= i <= s.len(),
    ensures
        i <= bare_end(s, i) <= s.len(),
    decreases s.len() - i,
{
    if i < s.len() && is_bare_char(s[i]) {
        lemma_bare_end(s, i + 1);
    }
}

fn bare_char(c: char) -> (r: bool)
    ensures
        r == is_bare_char(c),
{
    ('a' <= c && c <= 'z') || ('A' <= c && c <= 'Z') || ('0' <= c && c <= '9') || c == '_' || c == '-'
}

/// Parses the key segment at `i`.
fn segment(s: &Vec<char>, i: usize) -> (r: Result<Option<(String, usize)>, ParseError>)
    requires
        i <= s@.len(),
    ensures
        match (r, spec_segment(s@, i as int)) {
            (Ok(Some((t, e))), Ok(Some((u, f)))) => t@ == u && e == f && i < e <= s@.len(),
            (Ok(None), Ok(None)) => true,
            (Err(x), Err(y)) => x == y,
            _ => false,
        },
{
    let n = s.len();
    if i < n && (s[i] == '"' || s[i] == '\'') {
        let b = if s[i] == '"' {
            string_body(s, i + 1, '"', true, false, i)
        } else {
            string_body(s, i + 1, '\'', false, false, i)
        };
        match b {
            Ok((t, e)) => Ok(Some((t, e))),
            Err(x) => Err(x),
        }
    } else if i < n && bare_char(s[i]) {
        proof {
            lemma_bare_end(s@, i as int);
        }
        let mut e = i;
        while e < n && bare_char(s[e])
            invariant
                i <= e <= n,
                n == s@.len(),
                bare_end(s@, e as int) == bare_end(s@, i as int),
            decreases n - e,
        {
            e = e + 1;
        }
        Ok(Some((string_of(s, i, e), e)))
    } else {
        Ok(None)
    }
}

/// Parses the key at `i` into its segments.
pub fn key(s: &Vec<char>, i: usize) -> (r: Result<Option<(Vec<String>, usize)>, ParseError>)
    requires
        i <= s@.len(),
    ensures
        match (r, spec_key(s@, i as int)) {
            (Ok(Some((k, e))), Ok(Some((m, f)))) => key_model(k@) == m && e == f && i < e <= s@.len(),
            (Ok(None), Ok(None)) => true,
            (Err(x), Err(y)) => x == y,
            _ => false,
        },
    decreases s@.len() - i,
{
    let n = s.len();
    match segment(s, i) {
        Err(x) => Err(x),
        Ok(None) => Ok(None),
        Ok(Some((seg, e))) => {
            let j = whitespace(s, e);
            if j < n && s[j] == '.' {
                let k = whitespace(s, j + 1);
                match key(s, k) {
                    Ok(Some((rest, f))) => {
                        let ghost old_rest = rest@;
                        let mut rest = rest;
                        rest.insert(0, seg);
                        proof {
                            assert(key_model(rest@) =~= seq![seg@] + key_model(old_rest));
                        }
                        Ok(Some((rest, f)))
                    },
                    Ok(None) => Err(ParseError::new(ErrorKind::InvalidKey, k)),
                    Err(x) => Err(x),
                }
            } else {
                let mut v: Vec<String> = Vec::new();
                v.push(seg);
                proof {
                    assert(key_model(v@) =~= seq![seg@]);
                }
                Ok(Some((v, e)))
            }
        },
    }
}

/// Whether two keys have the same segments.
pub fn same_key(a: &Vec<String>, b: &Vec<String>) -> (r: bool)
    ensures
        r == (key_model(a@) == key_model(b@)),
{
    if a.len() != b.len() {
        assert(key_model(a@).len() != key_model(b@).len());
        return false;
    }
    let mut k: usize = 0;
    while k < a.len()
        invariant
            a@.len() == b@.len(),
            k <= a@.len(),
            forall|j: int| 0 <= j < k ==> #[trigger] a@[j]@ == b@[j]@,
        decreases a@.len() - k,
    {
        if a[k] != b[k] {
            assert(key_model(a@)[k as int] != key_model(b@)[k as int]);
            return false;
        }
        k = k + 1;
    }
    assert(key_model(a@) =~= key_model(b@));
    true
}

/// Whether two of the pairs have the same key.
pub fn duplicate_key(kvs: &Vec<KeyValue>) -> (r: bool)
    ensures
        r == has_duplicate_key(pairs_model(kvs@)),
{
    let ghost pm = pairs_model(kvs@);
    let n = kvs.len();
    let mut a: usize = 0;
    while a < n
        invariant
            n == kvs@.len(),
            pm == pairs_model(kvs@),
            a <= n,
            forall|x: int, y: int| 0 <= x < a && x < y < n ==> #[trigger] pm[x].0 != #[trigger] pm[y].0,
        decreases n - a,
    {
        let mut b: usize = a + 1;
        while b < n
            invariant
                n == kvs@.len(),
                pm == pairs_model(kvs@),
                a < n,
                a < b <= n,
                forall|x: int, y: int| 0 <= x < a && x < y < n ==> #[trigger] pm[x].0 != #[trigger] pm[y].0,
                forall|y: int| a < y < b ==> pm[a as int].0 != #[trigger] pm[y].0,
            decreases n - b,
        {
            if same_key(&kvs[a].key, &kvs[b].key) {
                assert(pm[a as int].0 == pm[b as int].0);
                return true;
            }
            b = b + 1;
        }
        a = a + 1;
    }
    assert(!has_duplicate_key(pm)) by {
        if has_duplicate_key(pm) {
            let (x, y) = choose|x: int, y: int| 0 <= x < y < pm.len() && #[trigger] pm[x].0 == #[trigger] pm[y].0;
            assert(pm[x].0 != pm[y].0);
        }
    }
    false
}

proof fn lemma_values_push(items: Seq<Value>, v: Value)
    ensures
        values_model(items.push(v)) == values_model(items).push(value_model(v)),
{
    assert(values_model(items.push(v)) =~= values_model(items).push(value_model(v)));
}

proof fn lemma_pairs_push(kvs: Seq<KeyValue>, kv: KeyValue)
    ensures
        pairs_model(kvs.push(kv)) == pairs_model(kvs).push((key_model(kv.key@), value_model(kv.value))),
{
    assert(pairs_model(kvs.push(kv)) =~= pairs_model(kvs).push((key_model(kv.key@), value_model(kv.value))));
}

/// Parses the value at `i`; arrays and inline tables may nest `depth` levels deep.
pub fn value(s: &Vec<char>, i: usize, depth: usize) -> (r: Result<Option<(Value, usize)>, ParseError>)
    requires
        i <= s@.len(),
    ensures
        value_result_is(r, spec_value(s@, i as int, depth as nat)),
        r matches Ok(Some((_, e))) ==> i < e <= s@.len(),
    decreases depth, 0int,
{
    let n = s.len();
    if let Some((v, e)) = datetime(s, i) {
        return Ok(Some((v, e)));
    }
    match float(s, i) {
        Err(x) => {
            return Err(x);
        },
        Ok(Some((f, e))) => {
            return Ok(Some((Value::Float(f), e)));
        },
        Ok(None) => {},
    }
    match integer(s, i) {
        Err(x) => {
            return Err(x);
        },
        Ok(Some((v, e))) => {
            return Ok(Some((Value::Integer(v), e)));
        },
        Ok(None) => {},
    }
    if let Some((b, e)) = boolean(s, i) {
        return Ok(Some((Value::Boolean(b), e)));
    }
    match string(s, i) {
        Err(x) => {
            return Err(x);
        },
        Ok(Some((t, e))) => {
            return Ok(Some((Value::Str(t), e)));
        },
        Ok(None) => {},
    }
    if i < n && (s[i] == '[' || s[i] == '{') {
        if depth == 0 {
            Err(ParseError::new(ErrorKind::NestingTooDeep, i))
        } else if s[i] == '[' {
            array(s, i, depth - 1)
        } else {
            inline_table(s, i, depth - 1)
        }
    } else {
        Ok(None)
    }
}

/// Parses the array whose `[` stands at `i`.
pub fn array(s: &Vec<char>, i: usize, depth: usize) -> (r: Result<Option<(Value, usize)>, ParseError>)
    requires
        i < s@.len(),
    ensures
        value_result_is(r, spec_array(s@, i as int, depth as nat)),
        r matches Ok(Some((_, e))) ==> i < e <= s@.len(),
    decreases depth, 1int,
{
    let n = s.len();
    let p0 = sp(s, i + 1);
    if p0 < n && s[p0] == ']' {
        let items: Vec<Value> = Vec::new();
        proof {
            lemma_array_model(items);
            assert(values_model(items@) =~= Seq::<ValueModel>::empty());
        }
        return Ok(Some((Value::Array(items), p0 + 1)));
    }
    let mut items: Vec<Value> = Vec::new();
    let mut p = p0;
    proof {
        assert(values_model(items@) =~= Seq::<ValueModel>::empty());
        assert(prepend_list(Seq::<ValueModel>::empty(), spec_items(s@, p0 as int, depth as nat))
            =~= spec_items(s@, p0 as int, depth as nat)) by {
            match spec_items(s@, p0 as int, depth as nat) {
                Ok((t, e)) => {
                    assert(Seq::<ValueModel>::empty() + t =~= t);
                },
                Err(_) => {},
            }
        }
    }
    loop
        invariant
            i < p0 <= p <= n,
            n == s@.len(),
            spec_array(s@, i as int, depth as nat) == match spec_items(s@, p0 as int, depth as nat) {
                Ok((items, e)) => Ok(Some((ValueModel::Array(items), e))),
                Err(x) => Err(x),
            },
            spec_items(s@, p0 as int, depth as nat) == prepend_list(
                values_model(items@),
                spec_items(s@, p as int, depth as nat),
            ),
        decreases n - p,
    {
        match value(s, p, depth) {
            Err(x) => {
                return Err(x);
            },
            Ok(None) => {
                return Err(ParseError::new(ErrorKind::ExpectedValue, p));
            },
            Ok(Some((v, e))) => {
                let q = sp(s, e);
                let mut close: usize = 0;
                if q < n && s[q] == ']' {
                    close = q + 1;
                } else if q < n && s[q] == ',' {
                    let r = sp(s, q + 1);
                    if r < n && s[r] == ']' {
                        close = r + 1;
                    } else {
                        proof {
                            lemma_prepend_push(values_model(items@), value_model(v), spec_items(s@, r as int, depth as nat));
                            lemma_values_push(items@, v);
                        }
                        items.push(v);
                        p = r;
                        continue;
                    }
                } else {
                    return Err(ParseError::new(ErrorKind::UnterminatedArray, q));
                }
                proof {
                    lemma_prepend_last(values_model(items@), value_model(v), close as int);
                    lemma_values_push(items@, v);
                }
                items.push(v);
                proof {
                    lemma_array_model(items);
                }
                return Ok(Some((Value::Array(items), close)));
            },
        }
    }
}

/// Parses the inline table whose `{` stands at `i`.
pub fn inline_table(s: &Vec<char>, i: usize, depth: usize) -> (r: Result<Option<(Value, usize)>, ParseError>)
    requires
        i < s@.len(),
    ensures
        value_result_is(r, spec_inline_table(s@, i as int, depth as nat)),
        r matches Ok(Some((_, e))) ==> i < e <= s@.len(),
    decreases depth, 1int,
{
    let n = s.len();
    let p0 = whitespace(s, i + 1);
    if p0 < n && s[p0] == '}' {
        let kvs: Vec<KeyValue> = Vec::new();
        proof {
            lemma_inline_table_model(kvs);
            assert(pairs_model(kvs@) =~= Seq::<(Seq<Seq<char>>, ValueModel)>::empty());
        }
        return Ok(Some((Value::InlineTable(kvs), p0 + 1)));
    }
    let mut kvs: Vec<KeyValue> = Vec::new();
    let mut p = p0;
    proof {
        assert(pairs_model(kvs@) =~= Seq::<(Seq<Seq<char>>, ValueModel)>::empty());
        assert(prepend_list(Seq::<(Seq<Seq<char>>, ValueModel)>::empty(), spec_pairs(s@, p0 as int, depth as nat))
            =~= spec_pairs(s@, p0 as int, depth as nat)) by {
            match spec_pairs(s@, p0 as int, depth as nat) {
                Ok((t, e)) => {
                    assert(Seq::<(Seq<Seq<char>>, ValueModel)>::empty() + t =~= t);
                },
                Err(_) => {},
            }
        }
    }
    loop
        invariant
            i < p0 <= p <= n,
            n == s@.len(),
            spec_inline_table(s@, i as int, depth as nat) == match spec_pairs(s@, p0 as int, depth as nat) {
                Ok((pairs, e)) => if has_duplicate_key(pairs) {
                    Err(ParseError { kind: ErrorKind::DuplicateKey, offset: i as usize })
                } else {
                    Ok(Some((ValueModel::InlineTable(pairs), e)))
                },
                Err(x) => Err(x),
            },
            spec_pairs(s@, p0 as int, depth as nat) == prepend_list(
                pairs_model(kvs@),
                spec_pairs(s@, p as int, depth as nat),
            ),
        decreases n - p,
    {
        let (k, e) = match key(s, p) {
            Err(x) => {
                return Err(x);
            },
            Ok(None) => {
                return Err(ParseError::new(ErrorKind::InvalidKey, p));
            },
            Ok(Some(ke)) => ke,
        };
        let q = whitespace(s, e);
        if !(q < n && s[q] == '=') {
            return Err(ParseError::new(ErrorKind::ExpectedEquals, q));
        }
        let r = whitespace(s, q + 1);
        let (v, f) = match value(s, r, depth) {
            Err(x) => {
                return Err(x);
            },
            Ok(None) => {
                return Err(ParseError::new(ErrorKind::ExpectedValue, r));
            },
            Ok(Some(vf)) => vf,
        };
        let t = whitespace(s, f);
        let kv = KeyValue { key: k, value: v };
        if t < n && s[t] == '}' {
            proof {
                lemma_prepend_last(pairs_model(kvs@), (key_model(kv.key@), value_model(kv.value)), t + 1);
                lemma_pairs_push(kvs@, kv);
            }
            kvs.push(kv);
            if duplicate_key(&kvs) {
                return Err(ParseError::new(ErrorKind::DuplicateKey, i));
            }
            proof {
                lemma_inline_table_model(kvs);
            }
            return Ok(Some((Value::InlineTable(kvs), t + 1)));
        } else if t < n && s[t] == ',' {
            let u = whitespace(s, t + 1);
            if u < n && s[u] == '}' {
                return Err(ParseError::new(ErrorKind::UnterminatedInlineTable, t));
            }
            proof {
                lemma_prepend_push(pairs_model(kvs@), (key_model(kv.key@), value_model(kv.value)), spec_pairs(s@, u as int, depth as nat));
                lemma_pairs_push(kvs@, kv);
            }
            kvs.push(kv);
            p = u;
        } else {
            return Err(ParseError::new(ErrorKind::UnterminatedInlineTable, t));
        }
    }
}

/// What a line of a document declares: a table header, an array-of-tables header, or a pair.
#[derive(Debug)]
pub enum Statement {
    Table(Vec<String>),
    ArrayTable(Vec<String>),
    Pair(KeyValue),
}

/// The mathematical content of a [`Statement`].
pub enum StatementModel {
    Table(Seq<Seq<char>>),
    ArrayTable(Seq<Seq<char>>),
    Pair(Seq<Seq<char>>, ValueModel),
}

pub open spec fn statement_model(st: Statement) -> StatementModel {
    match st {
        Statement::Table(k) => StatementModel::Table(key_model(k@)),
        Statement::ArrayTable(k) => StatementModel::ArrayTable(key_model(k@)),
        Statement::Pair(kv) => StatementModel::Pair(key_model(kv.key@), value_model(kv.value)),
    }
}

/// A statement with the offset of the line where it starts.
#[derive(Debug)]
pub struct Line {
    pub statement: Statement,
    pub offset: usize,
}

pub open spec fn lines_model(ls: Seq<Line>) -> Seq<(StatementModel, int)> {
    ls.map_values(|l: Line| (statement_model(l.statement), l.offset as int))
}

/// Where the line that may end at `f` really ends: after optional spaces and a comment, the end
/// of the text or the position after a line ending. `None` where something else follows.
pub open spec fn spec_line_end(s: Seq<char>, f: int) -> Option<int> {
    let t = skip_ws(s, f);
    let u = if 0 <= t < s.len() && s[t] == '#' {
        comment_end(s, t + 1)
    } else {
        t
    };
    if u == s.len() {
        Some(u)
    } else if newline_len(s, u) > 0 {
        Some(u + newline_len(s, u))
    } else {
        None
    }
}

/// The pair at `i`: optional spaces, a key, `=`, a value, then the end of its line.
/// `Ok(None)` where no key starts after the spaces.
pub open spec fn spec_key_val_pair(s: Seq<char>, i: int) -> Result<Option<((Seq<Seq<char>>, ValueModel), int)>, ParseError> {
    let p = skip_ws(s, i);
    match spec_key(s, p) {
        Err(x) => Err(x),
        Ok(None) => Ok(None),
        Ok(Some((k, e))) => {
            let q = skip_ws(s, e);
            if !(0 <= q < s.len() && s[q] == '=') {
                Err(ParseError { kind: ErrorKind::ExpectedEquals, offset: q as usize })
            } else {
                let r = skip_ws(s, q + 1);
                match spec_value(s, r, MAX_DEPTH as nat) {
                    Err(x) => Err(x),
                    Ok(None) => Err(ParseError { kind: ErrorKind::ExpectedValue, offset: r as usize }),
                    Ok(Some((v, f))) => match spec_line_end(s, f) {
                        Some(n) => Ok(Some(((k, v), n))),
                        None => Err(ParseError { kind: ErrorKind::ExpectedNewline, offset: skip_ws(s, f) as usize }),
                    },
                }
            }
        },
    }
}

/// The header at `q`, where `[` stands: `[key]` or `[[key]]`, then the end of its line.
pub open spec fn spec_header(s: Seq<char>, q: int) -> Result<(StatementModel, int), ParseError> {
    let arr = q + 1 < s.len() && s[q + 1] == '[';
    let k0 = skip_ws(s, if arr { q + 2 } else { q + 1 });
    match spec_key(s, k0) {
        Err(x) => Err(x),
        Ok(None) => Err(ParseError { kind: ErrorKind::InvalidKey, offset: k0 as usize }),
        Ok(Some((k, e))) => {
            let c = skip_ws(s, e);
            let closed = 0 <= c < s.len() && s[c] == ']' && (!arr || (c + 1 < s.len() && s[c + 1] == ']'));
            if !closed {
                Err(ParseError { kind: ErrorKind::MalformedHeader, offset: c as usize })
            } else {
                let h = if arr { c + 2 } else { c + 1 };
                match spec_line_end(s, h) {
                    Some(n) => Ok((if arr { StatementModel::ArrayTable(k) } else { StatementModel::Table(k) }, n)),
                    None => Err(ParseError { kind: ErrorKind::ExpectedNewline, offset: skip_ws(s, h) as usize }),
                }
            }
        },
    }
}

/// The statements of the text from `p` on, each with the offset where it starts; blank lines
/// and comment lines skipped.
pub open spec fn spec_statements(s: Seq<char>, p: int) -> Result<Seq<(StatementModel, int)>, ParseError>
    decreases s.len() - p,
{
    let q = skip_blank(s, p);
    if !(0 <= q < s.len()) {
        Ok(Seq::empty())
    } else {
        let line: Result<(StatementModel, int), ParseError> = if s[q] == '[' {
            spec_header(s, q)
        } else {
            match spec_key_val_pair(s, q) {
                Err(x) => Err(x),
                Ok(None) => Err(ParseError { kind: ErrorKind::InvalidKey, offset: q as usize }),
                Ok(Some(((k, v), n))) => Ok((StatementModel::Pair(k, v), n)),
            }
        };
        match line {
            Err(x) => Err(x),
            Ok((st, n)) => if p < n <= s.len() {
                match spec_statements(s, n) {
                    Ok(rest) => Ok(seq![(st, q)] + rest),
                    Err(x) => Err(x),
                }
            } else {
                Ok(seq![(st, q)])
            },
        }
    }
}

/// Finds where the line that may end at `f` ends.
fn line_end(s: &Vec<char>, f: usize) -> (r: Option<usize>)
    requires
        f <= s@.len(),
    ensures
        r == match spec_line_end(s@, f as int) {
            Some(n) => Some(n as usize),
            None => None::<usize>,
        },
        r matches Some(n) ==> f <= n <= s@.len(),
{
    let n = s.len();
    let t = whitespace(s, f);
    let u = if t < n && s[t] == '#' {
        comment(s, t)
    } else {
        t
    };
    if u == n {
        Some(u)
    } else {
        let nl = newline(s, u);
        if nl > 0 {
            Some(u + nl)
        } else {
            None
        }
    }
}

/// Parses the pair at `i`, up to and including the end of its line.
pub fn key_val_pair(s: &Vec<char>, i: usize) -> (r: Result<Option<(KeyValue, usize)>, ParseError>)
    requires
        i <= s@.len(),
    ensures
        match (r, spec_key_val_pair(s@, i as int)) {
            (Ok(Some((kv, e))), Ok(Some(((k, v), f)))) => key_model(kv.key@) == k && value_model(kv.value) == v
                && e == f && i < e <= s@.len(),
            (Ok(None), Ok(None)) => true,
            (Err(x), Err(y)) => x == y,
            _ => false,
        },
{
    let n = s.len();
    let p = whitespace(s, i);
    let (k, e) = match key(s, p) {
        Err(x) => {
            return Err(x);
        },
        Ok(None) => {
            return Ok(None);
        },
        Ok(Some(ke)) => ke,
    };
    let q = whitespace(s, e);
    if !(q < n && s[q] == '=') {
        return Err(ParseError::new(ErrorKind::ExpectedEquals, q));
    }
    let r = whitespace(s, q + 1);
    let (v, f) = match value(s, r, MAX_DEPTH) {
        Err(x) => {
            return Err(x);
        },
        Ok(None) => {
            return Err(ParseError::new(ErrorKind::ExpectedValue, r));
        },
        Ok(Some(vf)) => vf,
    };
    match line_end(s, f) {
        Some(end) => Ok(Some((KeyValue { key: k, value: v }, end))),
        None => Err(ParseError::new(ErrorKind::ExpectedNewline, whitespace(s, f))),
    }
}

/// Parses the header whose `[` stands at `q`, up to and including the end of its line.
pub fn table_header(s: &Vec<char>, q: usize) -> (r: Result<(Statement, usize), ParseError>)
    requires
        q < s@.len(),
    ensures
        match (r, spec_header(s@, q as int)) {
            (Ok((st, e)), Ok((m, f))) => statement_model(st) == m && e == f && q < e <= s@.len(),
            (Err(x), Err(y)) => x == y,
            _ => false,
        },
{
    let n = s.len();
    let arr = q + 1 < n && s[q + 1] == '[';
    let k0 = whitespace(s, if arr { q + 2 } else { q + 1 });
    let (k, e) = match key(s, k0) {
        Err(x) => {
            return Err(x);
        },
        Ok(None) => {
            return Err(ParseError::new(ErrorKind::InvalidKey, k0));
        },
        Ok(Some(ke)) => ke,
    };
    let c = whitespace(s, e);
    let closed = c < n && s[c] == ']' && (!arr || (c + 1 < n && s[c + 1] == ']'));
    if !closed {
        return Err(ParseError::new(ErrorKind::MalformedHeader, c));
    }
    let h = if arr { c + 2 } else { c + 1 };
    match line_end(s, h) {
        Some(end) => Ok((if arr { Statement::ArrayTable(k) } else { Statement::Table(k) }, end)),
        None => Err(ParseError::new(ErrorKind::ExpectedNewline, whitespace(s, h))),
    }
}

/// Parses a whole document into its statements, in order.
pub fn statements(s: &Vec<char>) -> (r: Result<Vec<Line>, ParseError>)
    ensures
        match (r, spec_statements(s@, 0)) {
            (Ok(ls), Ok(m)) => lines_model(ls@) == m,
            (Err(x), Err(y)) => x == y,
            _ => false,
        },
{
    let n = s.len();
    let mut acc: Vec<Line> = Vec::new();
    let mut p: usize = 0;
    loop
        invariant
            p <= n,
            n == s@.len(),
            spec_statements(s@, 0) == match spec_statements(s@, p as int) {
                Ok(rest) => Ok(lines_model(acc@) + rest),
                Err(x) => Err(x),
            },
        decreases n - p,
    {
        let q = sp(s, p);
        if q >= n {
            assert(lines_model(acc@) + Seq::<(StatementModel, int)>::empty() =~= lines_model(acc@));
            return Ok(acc);
        }
        let (st, e) = if s[q] == '[' {
            match table_header(s, q) {
                Err(x) => {
                    return Err(x);
                },
                Ok(se) => se,
            }
        } else {
            match key_val_pair(s, q) {
                Err(x) => {
                    return Err(x);
                },
                Ok(None) => {
                    return Err(ParseError::new(ErrorKind::InvalidKey, q));
                },
                Ok(Some((kv, e))) => (Statement::Pair(kv), e),
            }
        };
        let ghost old_acc = acc@;
        let ghost m = (statement_model(st), q as int);
        acc.push(Line { statement: st, offset: q });
        proof {
            assert(lines_model(acc@) =~= lines_model(old_acc).push(m));
            match spec_statements(s@, e as int) {
                Ok(rest) => {
                    assert(lines_model(old_acc) + (seq![m] + rest) =~= lines_model(acc@) + rest);
                },
                Err(_) => {},
            }
        }
        p = e;
    }
}

} // verus!
