use vstd::prelude::*;
use vstd::string::*;

verus! {

/// Space or tab: the whitespace allowed inside a line.
pub open spec fn is_ws(c: char) -> bool {
    c == ' ' || c == '\t'
}

/// The first position at or after `i` that is not a space or a tab.
pub open spec fn skip_ws(s: Seq<char>, i: int) -> int
    decreases s.len() - i,
{
    if 0 <= i < s.len() && is_ws(s[i]) {
        skip_ws(s, i + 1)
    } else {
        i
    }
}

/// The length of the line ending at `i`: 1 for `\n`, 2 for `\r\n`, 0 for none.
pub open spec fn newline_len(s: Seq<char>, i: int) -> int {
    if 0 <= i < s.len() && s[i] == '\n' {
        1
    } else if 0 <= i && i + 1 < s.len() && s[i] == '\r' && s[i + 1] == '\n' {
        2
    } else {
        0
    }
}

/// The end of a comment starting at `i`: the position of the line ending after it, or the end
/// of the text.
pub open spec fn comment_end(s: Seq<char>, i: int) -> int
    decreases s.len() - i,
{
    if 0 <= i < s.len() && s[i] != '\n' && newline_len(s, i) == 0 {
        comment_end(s, i + 1)
    } else {
        i
    }
}

/// The first position at or after `i` that is not whitespace, a line ending or part of a comment.
pub open spec fn skip_blank(s: Seq<char>, i: int) -> int
    decreases s.len() - i,
{
    if 0 <= i < s.len() {
        if is_ws(s[i]) {
            skip_blank(s, i + 1)
        } else if newline_len(s, i) > 0 {
            skip_blank(s, i + newline_len(s, i))
        } else if s[i] == '#' {
            if i < comment_end(s, i + 1) <= s.len() {
                skip_blank(s, comment_end(s, i + 1))
            } else {
                i
            }
        } else {
            i
        }
    } else {
        i
    }
}

/// The characters of `text`, in order.
pub fn to_chars(text: &str) -> (r: Vec<char>)
    ensures
        r@ == text@,
{
    broadcast use vstd::string::axiom_spec_iter;
    let mut r: Vec<char> = Vec::new();
    for c in it: text.chars()
        invariant
            it.seq() == text@,
            r@ == text@.subrange(0, it.index() as int),
    {
        r.push(c);
        assert(r@ =~= text@.subrange(0, it.index() + 1));
    }
    assert(r@ =~= text@);
    r
}

/// Relies on String::push: appends one character.
#[verifier::external_body]
pub(crate) fn push_char(s: &mut String, c: char)
    ensures
        final(s)@ == old(s)@.push(c),
{
    s.push(c);
}

/// The string made of `cs[from..to]`.
pub fn string_of(cs: &Vec<char>, from: usize, to: usize) -> (r: String)
    requires
        from <= to <= cs@.len(),
    ensures
        r@ == cs@.subrange(from as int, to as int),
{
    let mut r = String::new();
    let mut i: usize = from;
    while i < to
        invariant
            from <= i <= to <= cs@.len(),
            r@ == cs@.subrange(from as int, i as int),
        decreases to - i,
    {
        push_char(&mut r, cs[i]);
        i = i + 1;
        assert(r@ =~= cs@.subrange(from as int, i as int));
    }
    r
}

/// Skips spaces and tabs from `i`.
pub fn whitespace(s: &Vec<char>, i: usize) -> (j: usize)
    requires
        i <= s@.len(),
    ensures
        j == skip_ws(s@, i as int),
        i <= j <= s@.len(),
{
    let mut j = i;
    while j < s.len() && (s[j] == ' ' || s[j] == '\t')
        invariant
            i <= j <= s@.len(),
            skip_ws(s@, j as int) == skip_ws(s@, i as int),
        decreases s@.len() - j,
    {
        j = j + 1;
    }
    j
}

/// The length of the line ending at `i` (`\n` or `\r\n`), or 0 where there is none.
pub fn newline(s: &Vec<char>, i: usize) -> (n: usize)
    requires
        i <= s@.len(),
    ensures
        n == newline_len(s@, i as int),
{
    let n = s.len();
    if i < n && s[i] == '\n' {
        1
    } else if i < n && s[i] == '\r' && i + 1 < n && s[i + 1] == '\n' {
        2
    } else {
        0
    }
}

/// The end of a comment whose `#` stands at `i`: the position of the line ending that closes it,
/// or the end of the text. The comment's text is what lies between.
pub fn comment(s: &Vec<char>, i: usize) -> (j: usize)
    requires
        i < s@.len(),
        s@[i as int] == '#',
    ensures
        j == comment_end(s@, i + 1),
        i < j <= s@.len(),
{
    let n = s.len();
    let mut j = i + 1;
    while j < n && s[j] != '\n' && newline(s, j) == 0
        invariant
            i < j <= s@.len(),
            n == s@.len(),
            comment_end(s@, j as int) == comment_end(s@, i + 1),
        decreases s@.len() - j,
    {
        j = j + 1;
    }
    j
}

/// Skips whitespace, line endings and comments from `i`.
pub fn sp(s: &Vec<char>, i: usize) -> (j: usize)
    requires
        i <= s@.len(),
    ensures
        j == skip_blank(s@, i as int),
        i <= j <= s@.len(),
{
    let mut j = i;
    loop
        invariant
            i <= j <= s@.len(),
            skip_blank(s@, j as int) == skip_blank(s@, i as int),
        decreases s@.len() - j,
    {
        if j >= s.len() {
            return j;
        }
        let c = s[j];
        let nl = newline(s, j);
        if c == ' ' || c == '\t' {
            j = j + 1;
        } else if nl > 0 {
            j = j + nl;
        } else if c == '#' {
            j = comment(s, j);
        } else {
            return j;
        }
    }
}

/// The 1-based line and column of position `k`: one more than the `\n` before it, and one
/// more than its distance from the start of its line.
pub open spec fn line_col_of(s: Seq<char>, k: int) -> (int, int)
    decreases k,
{
    if k <= 0 {
        (1, 1)
    } else if s[k - 1] == '\n' {
        (line_col_of(s, k - 1).0 + 1, 1)
    } else {
        (line_col_of(s, k - 1).0, line_col_of(s, k - 1).1 + 1)
    }
}

proof fn lemma_line_col_bounds(s: Seq<char>, k: int)
    requires
        0 <= k,
    ensures
        1 <= line_col_of(s, k).0 <= k + 1,
        1 <= line_col_of(s, k).1 <= k + 1,
    decreases k,
{
    if k > 0 {
        lemma_line_col_bounds(s, k - 1);
    }
}

/// The line and column, both counted from 1, of the character offset `offset` in `s`.
pub fn line_col(s: &Vec<char>, offset: usize) -> (r: (usize, usize))
    requires
        offset <= s@.len() < usize::MAX,
    ensures
        r.0 as int == line_col_of(s@, offset as int).0,
        r.1 as int == line_col_of(s@, offset as int).1,
{
    let mut line: usize = 1;
    let mut col: usize = 1;
    let mut k: usize = 0;
    while k < offset
        invariant
            k <= offset <= s@.len() < usize::MAX,
            line as int == line_col_of(s@, k as int).0,
            col as int == line_col_of(s@, k as int).1,
        decreases offset - k,
    {
        proof {
            lemma_line_col_bounds(s@, k as int);
        }
        if s[k] == '\n' {
            line = line + 1;
            col = 1;
        } else {
            col = col + 1;
        }
        k = k + 1;
    }
    (line, col)
}

} // verus!
