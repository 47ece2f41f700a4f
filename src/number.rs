use vstd::prelude::*;
use vstd::string::*;
use crate::error::{ErrorKind, ParseError};
use crate::text::push_char;
use crate::value::{Float, FloatModel};

verus! {

/// The value of a hexadecimal digit character; 16 for any other character.
pub open spec fn digit_value(c: char) -> int {
    if '0' <= c && c <= '9' {
        c as int - '0' as int
    } else if 'a' <= c && c <= 'f' {
        c as int - 'a' as int + 10
    } else if 'A' <= c && c <= 'F' {
        c as int - 'A' as int + 10
    } else {
        16
    }
}

pub open spec fn is_digit(c: char, radix: int) -> bool {
    digit_value(c) < radix
}

/// The end of the digit run whose first digit stands at `i`: digits of `radix`, each pair of
/// neighbours joined directly or by one underscore.
pub open spec fn run_end(s: Seq<char>, i: int, radix: int) -> int
    decreases s.len() - i,
{
    if 0 <= i && i + 1 < s.len() && is_digit(s[i + 1], radix) {
        run_end(s, i + 1, radix)
    } else if 0 <= i && i + 2 < s.len() && s[i + 1] == '_' && is_digit(s[i + 2], radix) {
        run_end(s, i + 2, radix)
    } else {
        i + 1
    }
}

/// The number that the digits of `s[a..b]` spell in `radix`, underscores ignored.
pub open spec fn digits_value(s: Seq<char>, a: int, b: int, radix: int) -> int
    decreases b - a,
{
    if b <= a {
        0
    } else if s[b - 1] == '_' {
        digits_value(s, a, b - 1, radix)
    } else {
        digits_value(s, a, b - 1, radix) * radix + digit_value(s[b - 1])
    }
}

/// The characters of `s[a..b]` without its underscores.
pub open spec fn digit_chars(s: Seq<char>, a: int, b: int) -> Seq<char>
    decreases b - a,
{
    if b <= a {
        Seq::empty()
    } else if s[b - 1] == '_' {
        digit_chars(s, a, b - 1)
    } else {
        digit_chars(s, a, b - 1).push(s[b - 1])
    }
}

/// Every character of `s[a..b]` is a digit of `radix` or an underscore.
pub open spec fn all_digits(s: Seq<char>, a: int, b: int, radix: int) -> bool {
    forall|k: int| a <= k < b ==> (is_digit(#[trigger] s[k], radix) || s[k] == '_')
}

pub proof fn lemma_run_end(s: Seq<char>, i: int, radix: int)
    requires
        0 <= i < s.len(),
        is_digit(s[i], radix),
    ensures
        i < run_end(s, i, radix) <= s.len(),
        all_digits(s, i, run_end(s, i, radix), radix),
    decreases s.len() - i,
{
    if i + 1 < s.len() && is_digit(s[i + 1], radix) {
        lemma_run_end(s, i + 1, radix);
    } else if i + 2 < s.len() && s[i + 1] == '_' && is_digit(s[i + 2], radix) {
        lemma_run_end(s, i + 2, radix);
    }
}

pub proof fn lemma_digits_value_mono(s: Seq<char>, a: int, p: int, b: int, radix: int)
    requires
        a <= p <= b,
        2 <= radix <= 16,
        all_digits(s, a, b, radix),
    ensures
        0 <= digits_value(s, a, p, radix) <= digits_value(s, a, b, radix),
    decreases b - a,
{
    if b > p {
        lemma_digits_value_mono(s, a, p, b - 1, radix);
        let v = digits_value(s, a, b - 1, radix);
        if s[b - 1] != '_' {
            assert(is_digit(s[b - 1], radix));
            assert(v * radix >= v) by (nonlinear_arith)
                requires
                    v >= 0,
                    radix >= 2,
            ;
        }
    } else if b > a {
        lemma_digits_value_mono(s, a, b - 1, b - 1, radix);
        let v = digits_value(s, a, b - 1, radix);
        if s[b - 1] != '_' {
            assert(is_digit(s[b - 1], radix));
            assert(v * radix >= 0) by (nonlinear_arith)
                requires
                    v >= 0,
                    radix >= 2,
            ;
        }
    }
}

/// Whether `s[i..i + 3]` is `a b c`.
pub open spec fn has3(s: Seq<char>, i: int, a: char, b: char, c: char) -> bool {
    0 <= i && i + 3 <= s.len() && s[i] == a && s[i + 1] == b && s[i + 2] == c
}

/// The radix that a `0b`, `0o` or `0x` prefix at `p` announces, where a digit of that radix
/// follows it; 0 otherwise.
pub open spec fn radix_prefix(s: Seq<char>, p: int) -> int {
    if 0 <= p && p + 2 < s.len() && s[p] == '0' {
        if s[p + 1] == 'b' && is_digit(s[p + 2], 2) {
            2
        } else if s[p + 1] == 'o' && is_digit(s[p + 2], 8) {
            8
        } else if s[p + 1] == 'x' && is_digit(s[p + 2], 16) {
            16
        } else {
            0
        }
    } else {
        0
    }
}

/// The integer literal at `i`: `Ok(Some((value, end)))`, `Ok(None)` where no integer starts
/// there, or a range error at `i` where the literal's value does not fit an `i64`.
/// Binary, octal and hexadecimal literals take an optional `+`; decimal ones `+` or `-`.
pub open spec fn spec_integer(s: Seq<char>, i: int) -> Result<Option<(i64, usize)>, ParseError> {
    let p = if 0 <= i < s.len() && s[i] == '+' {
        i + 1
    } else {
        i
    };
    let r = radix_prefix(s, p);
    if r != 0 {
        let e = run_end(s, p + 2, r);
        let v = digits_value(s, p + 2, e, r);
        if v <= i64::MAX {
            Ok(Some((v as i64, e as usize)))
        } else {
            Err(ParseError { kind: ErrorKind::NumberOutOfRange, offset: i as usize })
        }
    } else {
        let negative = 0 <= i < s.len() && s[i] == '-';
        let q = if 0 <= i < s.len() && (s[i] == '+' || s[i] == '-') {
            i + 1
        } else {
            i
        };
        if 0 <= q < s.len() && is_digit(s[q], 10) {
            let e = run_end(s, q, 10);
            let v = digits_value(s, q, e, 10);
            let n = if negative {
                -v
            } else {
                v
            };
            if i64::MIN <= n <= i64::MAX {
                Ok(Some((n as i64, e as usize)))
            } else {
                Err(ParseError { kind: ErrorKind::NumberOutOfRange, offset: i as usize })
            }
        } else {
            Ok(None)
        }
    }
}

/// The value of a hexadecimal digit character.
pub fn digit(c: char) -> (d: u32)
    ensures
        d == digit_value(c),
{
    if '0' <= c && c <= '9' {
        (c as u32) - ('0' as u32)
    } else if 'a' <= c && c <= 'f' {
        (c as u32) - ('a' as u32) + 10
    } else if 'A' <= c && c <= 'F' {
        (c as u32) - ('A' as u32) + 10
    } else {
        16
    }
}

/// The end of the underscore-grouped digit run that starts at `i`.
pub fn digit_run(s: &Vec<char>, i: usize, radix: u32) -> (e: usize)
    requires
        i < s@.len(),
        2 <= radix <= 16,
        is_digit(s@[i as int], radix as int),
    ensures
        e == run_end(s@, i as int, radix as int),
        i < e <= s@.len(),
        all_digits(s@, i as int, e as int, radix as int),
{
    proof {
        lemma_run_end(s@, i as int, radix as int);
    }
    let n = s.len();
    let mut j = i;
    loop
        invariant
            i <= j < n,
            n == s@.len(),
            2 <= radix <= 16,
            is_digit(s@[j as int], radix as int),
            run_end(s@, j as int, radix as int) == run_end(s@, i as int, radix as int),
            i < run_end(s@, i as int, radix as int) <= s@.len(),
            all_digits(s@, i as int, run_end(s@, i as int, radix as int), radix as int),
        decreases n - j,
    {
        if j + 1 < n && digit(s[j + 1]) < radix {
            j = j + 1;
        } else if j + 1 < n && s[j + 1] == '_' && n - j > 2 && digit(s[j + 2]) < radix {
            j = j + 2;
        } else {
            return j + 1;
        }
    }
}

/// The value of the digits of `s[a..b]` in `radix`, underscores ignored, where it is at most
/// `limit`; `None` where it is larger.
pub fn run_value(s: &Vec<char>, a: usize, b: usize, radix: u32, limit: u64) -> (r: Option<u64>)
    requires
        a <= b <= s@.len(),
        2 <= radix <= 16,
        all_digits(s@, a as int, b as int, radix as int),
    ensures
        r is Some <==> digits_value(s@, a as int, b as int, radix as int) <= limit,
        r matches Some(v) ==> v == digits_value(s@, a as int, b as int, radix as int),
{
    let mut acc: u64 = 0;
    let mut k = a;
    while k < b
        invariant
            a <= k <= b <= s@.len(),
            2 <= radix <= 16,
            all_digits(s@, a as int, b as int, radix as int),
            acc == digits_value(s@, a as int, k as int, radix as int),
            acc <= limit,
        decreases b - k,
    {
        let c = s[k];
        if c != '_' {
            let d = digit(c);
            assert(is_digit(s@[k as int], radix as int));
            assert((acc as u128) * (radix as u128) <= 0xFFFF_FFFF_FFFF_FFFFu128 * 16) by (nonlinear_arith)
                requires
                    acc <= 0xFFFF_FFFF_FFFF_FFFFu128,
                    radix <= 16,
            ;
            let next: u128 = (acc as u128) * (radix as u128) + (d as u128);
            if next > limit as u128 {
                proof {
                    lemma_digits_value_mono(s@, a as int, (k + 1) as int, b as int, radix as int);
                }
                return None;
            }
            acc = next as u64;
        }
        k = k + 1;
    }
    Some(acc)
}

/// The characters of `s[a..b]` without its underscores.
pub fn run_digits(s: &Vec<char>, a: usize, b: usize) -> (r: String)
    requires
        a <= b <= s@.len(),
    ensures
        r@ == digit_chars(s@, a as int, b as int),
{
    let mut r = String::new();
    let mut k = a;
    while k < b
        invariant
            a <= k <= b <= s@.len(),
            r@ == digit_chars(s@, a as int, k as int),
        decreases b - k,
    {
        if s[k] != '_' {
            push_char(&mut r, s[k]);
        }
        k = k + 1;
    }
    r
}

/// Parses the integer literal at `i`.
pub fn integer(s: &Vec<char>, i: usize) -> (r: Result<Option<(i64, usize)>, ParseError>)
    requires
        i <= s@.len(),
    ensures
        r == spec_integer(s@, i as int),
        r matches Ok(Some((_, e))) ==> i < e <= s@.len(),
{
    let n = s.len();
    let p = if i < n && s[i] == '+' {
        i + 1
    } else {
        i
    };
    let mut radix: u32 = 0;
    if p < n && n - p > 2 && s[p] == '0' {
        if s[p + 1] == 'b' && digit(s[p + 2]) < 2 {
            radix = 2;
        } else if s[p + 1] == 'o' && digit(s[p + 2]) < 8 {
            radix = 8;
        } else if s[p + 1] == 'x' && digit(s[p + 2]) < 16 {
            radix = 16;
        }
    }
    assert(radix == radix_prefix(s@, p as int));
    if radix != 0 {
        let e = digit_run(s, p + 2, radix);
        match run_value(s, p + 2, e, radix, i64::MAX as u64) {
            Some(v) => Ok(Some((v as i64, e))),
            None => Err(ParseError::new(ErrorKind::NumberOutOfRange, i)),
        }
    } else {
        let negative = i < n && s[i] == '-';
        let q = if i < n && (s[i] == '+' || s[i] == '-') {
            i + 1
        } else {
            i
        };
        if q < n && digit(s[q]) < 10 {
            let e = digit_run(s, q, 10);
            let limit: u64 = if negative {
                0x8000_0000_0000_0000
            } else {
                i64::MAX as u64
            };
            match run_value(s, q, e, 10, limit) {
                Some(v) => {
                    if negative {
                        if v == 0x8000_0000_0000_0000 {
                            Ok(Some((i64::MIN, e)))
                        } else {
                            Ok(Some((-(v as i64), e)))
                        }
                    } else {
                        Ok(Some((v as i64, e)))
                    }
                },
                None => Err(ParseError::new(ErrorKind::NumberOutOfRange, i)),
            }
        } else {
            Ok(None)
        }
    }
}

/// Where the exponent part `(e|E) [sign] digits` that may start at `e` has its first digit;
/// -1 where there is none.
pub open spec fn exponent_digits_at(s: Seq<char>, e: int) -> int {
    if 0 <= e < s.len() && (s[e] == 'e' || s[e] == 'E') {
        let q = if e + 1 < s.len() && (s[e + 1] == '+' || s[e + 1] == '-') {
            e + 2
        } else {
            e + 1
        };
        if q < s.len() && is_digit(s[q], 10) {
            q
        } else {
            -1
        }
    } else {
        -1
    }
}

/// The float literal at `i`: `inf` and `nan` with an optional sign, or a decimal literal
/// `[sign] digits "." digits`, `[sign] digits exponent` or `[sign] digits "." digits exponent`.
/// `Ok(None)` where none of these starts at `i` (a bare integer is none of them); a range error
/// at `i` where the exponent does not fit an `i64`.
pub open spec fn spec_float(s: Seq<char>, i: int) -> Result<Option<(FloatModel, usize)>, ParseError> {
    let signed = 0 <= i < s.len() && (s[i] == '+' || s[i] == '-');
    let negative = 0 <= i < s.len() && s[i] == '-';
    let p = if signed {
        i + 1
    } else {
        i
    };
    if has3(s, p, 'i', 'n', 'f') {
        Ok(Some((FloatModel::Infinite { negative }, (p + 3) as usize)))
    } else if has3(s, p, 'n', 'a', 'n') {
        Ok(Some((FloatModel::NaN, (p + 3) as usize)))
    } else if 0 <= p < s.len() && is_digit(s[p], 10) {
        let e1 = run_end(s, p, 10);
        let has_frac = e1 + 1 < s.len() && s[e1] == '.' && is_digit(s[e1 + 1], 10);
        let e2 = if has_frac {
            run_end(s, e1 + 1, 10)
        } else {
            e1
        };
        let q = exponent_digits_at(s, e2);
        let has_exp = q >= 0;
        if !has_frac && !has_exp {
            Ok(None)
        } else {
            let e3 = if has_exp {
                run_end(s, q, 10)
            } else {
                e2
            };
            let frac = if has_frac {
                digit_chars(s, e1 + 1, e2)
            } else {
                Seq::empty()
            };
            let mag = if has_exp {
                digits_value(s, q, e3, 10)
            } else {
                0
            };
            let exp_negative = has_exp && s[e2 + 1] == '-';
            let exponent = (if exp_negative {
                -mag
            } else {
                mag
            }) - frac.len();
            if mag <= i64::MAX && i64::MIN <= exponent <= i64::MAX {
                Ok(
                    Some(
                        (
                            FloatModel::Finite {
                                negative,
                                digits: digit_chars(s, p, e1) + frac,
                                exponent,
                            },
                            e3 as usize,
                        ),
                    ),
                )
            } else {
                Err(ParseError { kind: ErrorKind::NumberOutOfRange, offset: i as usize })
            }
        }
    } else {
        Ok(None)
    }
}

pub proof fn lemma_digit_chars_len(s: Seq<char>, a: int, b: int)
    ensures
        digit_chars(s, a, b).len() <= if b > a { b - a } else { 0 },
    decreases b - a,
{
    if b > a {
        lemma_digit_chars_len(s, a, b - 1);
    }
}

/// Whether `s[i..i + 3]` is `a b c`.
pub fn at3(s: &Vec<char>, i: usize, a: char, b: char, c: char) -> (r: bool)
    requires
        i <= s@.len(),
    ensures
        r == has3(s@, i as int, a, b, c),
{
    let n = s.len();
    i < n && n - i >= 3 && s[i] == a && s[i + 1] == b && s[i + 2] == c
}

/// Parses the float literal at `i`.
pub fn float(s: &Vec<char>, i: usize) -> (r: Result<Option<(Float, usize)>, ParseError>)
    requires
        i <= s@.len(),
    ensures
        match (r, spec_float(s@, i as int)) {
            (Ok(Some((f, e))), Ok(Some((m, e2)))) => f.model() == m && e == e2 && i < e <= s@.len(),
            (Ok(None), Ok(None)) => true,
            (Err(x), Err(y)) => x == y,
            _ => false,
        },
{
    let n = s.len();
    let signed = i < n && (s[i] == '+' || s[i] == '-');
    let negative = i < n && s[i] == '-';
    let p = if signed {
        i + 1
    } else {
        i
    };
    if at3(s, p, 'i', 'n', 'f') {
        Ok(Some((Float::Infinite { negative }, p + 3)))
    } else if at3(s, p, 'n', 'a', 'n') {
        Ok(Some((Float::NaN, p + 3)))
    } else if p < n && digit(s[p]) < 10 {
        let e1 = digit_run(s, p, 10);
        let has_frac = e1 < n && n - e1 > 1 && s[e1] == '.' && digit(s[e1 + 1]) < 10;
        let e2 = if has_frac {
            digit_run(s, e1 + 1, 10)
        } else {
            e1
        };
        let mut q: usize = 0;
        let mut has_exp = false;
        if e2 < n && (s[e2] == 'e' || s[e2] == 'E') {
            let q0 = if n - e2 > 1 && (s[e2 + 1] == '+' || s[e2 + 1] == '-') {
                e2 + 2
            } else {
                e2 + 1
            };
            if q0 < n && digit(s[q0]) < 10 {
                q = q0;
                has_exp = true;
            }
        }
        assert(has_exp == (exponent_digits_at(s@, e2 as int) >= 0));
        assert(has_exp ==> q == exponent_digits_at(s@, e2 as int));
        if !has_frac && !has_exp {
            return Ok(None);
        }
        let e3 = if has_exp {
            digit_run(s, q, 10)
        } else {
            e2
        };
        let mut digits = run_digits(s, p, e1);
        let mut frac_len: usize = 0;
        if has_frac {
            let frac = run_digits(s, e1 + 1, e2);
            proof {
                lemma_digit_chars_len(s@, e1 + 1, e2 as int);
            }
            frac_len = frac.unicode_len();
            digits.append(frac.as_str());
        }
        let mag = if has_exp {
            run_value(s, q, e3, 10, i64::MAX as u64)
        } else {
            Some(0u64)
        };
        match mag {
            None => Err(ParseError::new(ErrorKind::NumberOutOfRange, i)),
            Some(m) => {
                let exp_negative = has_exp && s[e2 + 1] == '-';
                let signed_mag: i128 = if exp_negative {
                    -(m as i128)
                } else {
                    m as i128
                };
                let exponent: i128 = signed_mag - frac_len as i128;
                if exponent < i64::MIN as i128 || exponent > i64::MAX as i128 {
                    Err(ParseError::new(ErrorKind::NumberOutOfRange, i))
                } else {
                    Ok(Some((Float::Finite { negative, digits, exponent: exponent as i64 }, e3)))
                }
            },
        }
    } else {
        Ok(None)
    }
}

/// The boolean literal at `i`, `true` or `false`, with its end.
pub open spec fn spec_boolean(s: Seq<char>, i: int) -> Option<(bool, usize)> {
    if has3(s, i, 't', 'r', 'u') && i + 3 < s.len() && s[i + 3] == 'e' {
        Some((true, (i + 4) as usize))
    } else if has3(s, i, 'f', 'a', 'l') && i + 4 < s.len() && s[i + 3] == 's' && s[i + 4] == 'e' {
        Some((false, (i + 5) as usize))
    } else {
        None
    }
}

/// Parses the boolean literal at `i`.
pub fn boolean(s: &Vec<char>, i: usize) -> (r: Option<(bool, usize)>)
    requires
        i <= s@.len(),
    ensures
        r == spec_boolean(s@, i as int),
        r matches Some((_, e)) ==> i < e <= s@.len(),
{
    let n = s.len();
    if at3(s, i, 't', 'r', 'u') && n - i > 3 && s[i + 3] == 'e' {
        Some((true, i + 4))
    } else if at3(s, i, 'f', 'a', 'l') && n - i > 4 && s[i + 3] == 's' && s[i + 4] == 'e' {
        Some((false, i + 5))
    } else {
        None
    }
}

/// The character of a decimal digit.
pub open spec fn decimal_char(d: nat) -> char {
    if d == 0 {
        '0'
    } else if d == 1 {
        '1'
    } else if d == 2 {
        '2'
    } else if d == 3 {
        '3'
    } else if d == 4 {
        '4'
    } else if d == 5 {
        '5'
    } else if d == 6 {
        '6'
    } else if d == 7 {
        '7'
    } else if d == 8 {
        '8'
    } else {
        '9'
    }
}

/// The decimal digits of `m`, most significant first, with no leading zeros.
pub open spec fn decimal_digits(m: nat) -> Seq<char>
    decreases m,
{
    if m < 10 {
        seq![decimal_char(m)]
    } else {
        decimal_digits(m / 10).push(decimal_char(m % 10))
    }
}

/// The canonical decimal rendering of `n`: a `-` for negative numbers, then its digits.
pub open spec fn decimal_text(n: int) -> Seq<char> {
    if n < 0 {
        seq!['-'] + decimal_digits((-n) as nat)
    } else {
        decimal_digits(n as nat)
    }
}

proof fn lemma_decimal_digits(s: Seq<char>, q: int, m: nat)
    requires
        0 <= q,
        q + decimal_digits(m).len() <= s.len(),
        s.subrange(q, q + decimal_digits(m).len()) == decimal_digits(m),
    ensures
        decimal_digits(m).len() >= 1,
        digits_value(s, q, q + decimal_digits(m).len(), 10) == m,
        forall|k: int| q <= k < q + decimal_digits(m).len() ==> is_digit(#[trigger] s[k], 10),
    decreases m,
{
    let d = decimal_digits(m);
    assert(forall|k: int| q <= k < q + d.len() ==> s[k] == d[k - q]) by {
        assert forall|k: int| q <= k < q + d.len() implies s[k] == d[k - q] by {
            assert(s.subrange(q, q + d.len())[k - q] == s[k]);
        }
    }
    if m < 10 {
        assert(digits_value(s, q, q, 10) == 0);
    } else {
        let d0 = decimal_digits(m / 10);
        assert(d == d0.push(decimal_char(m % 10)));
        assert(s.subrange(q, q + d0.len()) =~= d0) by {
            assert forall|k: int| 0 <= k < d0.len() implies s.subrange(q, q + d0.len())[k] == d0[k] by {
                assert(s[q + k] == d[k]);
            }
        }
        lemma_decimal_digits(s, q, m / 10);
        let b = q + d.len();
        assert(s[b - 1] == decimal_char(m % 10));
        assert(m == (m / 10) * 10 + m % 10);
    }
}

pub proof fn lemma_run_end_digits(s: Seq<char>, j: int)
    requires
        0 <= j < s.len(),
        forall|k: int| j <= k < s.len() ==> is_digit(#[trigger] s[k], 10),
    ensures
        run_end(s, j, 10) == s.len(),
    decreases s.len() - j,
{
    if j + 1 < s.len() {
        lemma_run_end_digits(s, j + 1);
    }
}

/// Integers read back from their canonical decimal rendering: reading `decimal_text(n)` gives
/// `n` and consumes the whole text, for every `i64`.
pub proof fn lemma_integer_decimal_round_trip(n: i64)
    ensures
        spec_integer(decimal_text(n as int), 0) == Ok::<Option<(i64, usize)>, ParseError>(
            Some((n, decimal_text(n as int).len() as usize)),
        ),
{
    let s = decimal_text(n as int);
    let m: nat = if n < 0 {
        (-n) as nat
    } else {
        n as nat
    };
    let q: int = if n < 0 {
        1
    } else {
        0
    };
    let d = decimal_digits(m);
    assert(s == if n < 0 { seq!['-'] + d } else { d });
    assert(s.subrange(q, q + d.len()) =~= d);
    lemma_decimal_digits(s, q, m);
    assert(s.len() == q + d.len());
    lemma_run_end_digits(s, q);
    assert(radix_prefix(s, 0) == 0) by {
        if s.len() > 2 && s[0] == '0' {
            assert(is_digit(s[1], 10));
        }
    }
    assert(is_digit(s[q], 10));
}

} // verus!
