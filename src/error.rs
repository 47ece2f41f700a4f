use vstd::prelude::*;

verus! {

/// What went wrong, in the three families of syntax, consistency and range errors.
#[derive(Clone, Copy, Debug, PartialEq, Eq, Structural)]
pub enum ErrorKind {
    /// A string opened and never closed on its line (or, multiline, before the end).
    UnterminatedString,
    /// A backslash escape that the basic string grammar does not know.
    InvalidEscape,
    /// An array whose elements are not followed by `,` or `]`.
    UnterminatedArray,
    /// An inline table whose pairs are not followed by `,` or `}`, or with a trailing comma.
    UnterminatedInlineTable,
    /// A position where a value must start, and none does.
    ExpectedValue,
    /// A key that does not start with a bare or quoted segment.
    InvalidKey,
    /// A key not followed by `=`.
    ExpectedEquals,
    /// Something other than a comment or a line end after a complete line.
    ExpectedNewline,
    /// A table header missing its closing bracket(s).
    MalformedHeader,
    /// A number literal that does not fit its 64-bit representation.
    NumberOutOfRange,
    /// Arrays and inline tables nested deeper than the parser allows.
    NestingTooDeep,
    /// A key assigned twice in one table.
    DuplicateKey,
    /// A `[header]` given twice for the same path.
    DuplicateTable,
    /// A path that runs through a value that is not a table.
    NotATable,
    /// A `[[header]]` on a plain table, or a `[header]` on an array of tables.
    TableArrayConflict,
}

/// The first fatal failure of a parse: its kind, and the character offset where it was found.
#[derive(Clone, Copy, Debug, PartialEq, Eq, Structural)]
pub struct ParseError {
    pub kind: ErrorKind,
    pub offset: usize,
}

impl ParseError {
    pub fn new(kind: ErrorKind, offset: usize) -> (r: ParseError)
        ensures
            r.kind == kind,
            r.offset == offset,
    {
        ParseError { kind, offset }
    }
}

} // verus!
