use std::ops::Range;
use vstd::prelude::*;

use crate::text::{decimal, push_decimal};

verus! {

/// What went wrong while parsing a `.tree` file.
#[derive(Debug, Clone, PartialEq, Eq)]
pub enum ParseErrorKind {
    /// A branch kind (`+` or `-`) was expected.
    BranchKindExpected,
    /// A root branch was indented.
    RootIndentLevel,
    /// A line was indented by fewer spaces than its branch requires.
    InconsistentIndentation { got: usize, expected: usize },
    /// A code block was opened with three backticks and never closed.
    UnterminatedCodeBlock,
}

/// A parse error together with the byte range of the input it points at.
#[derive(Debug, Clone, PartialEq, Eq)]
pub struct ParseError {
    pub kind: ParseErrorKind,
    pub range: Range<usize>,
}

/// The error of kind `kind` located at byte positions `start..end`.
pub open spec fn error_at(kind: ParseErrorKind, start: int, end: int) -> ParseError {
    ParseError { kind, range: Range { start: start as usize, end: end as usize } }
}

impl ParseErrorKind {
    /// Attaches a source range to this kind of error.
    pub fn at(self, range: Range<usize>) -> (error: ParseError)
        ensures
            error.kind == self,
            error.range == range,
    {
        ParseError { kind: self, range }
    }
}

/// The message of a kind of parse error.
pub open spec fn error_message(kind: ParseErrorKind) -> Seq<char> {
    match kind {
        ParseErrorKind::BranchKindExpected => "branch kind (`+` or `-`) expected"@,
        ParseErrorKind::RootIndentLevel => "root branches must not be indented"@,
        ParseErrorKind::InconsistentIndentation { got, expected } => "at least "@ + decimal(
            expected as nat,
        ) + " spaces of indentation were expected, but got "@ + decimal(got as nat),
        ParseErrorKind::UnterminatedCodeBlock => "unterminated code block"@,
    }
}

impl ParseErrorKind {
    /// The message of this kind of error.
    pub fn message(&self) -> (s: String)
        ensures
            s@ == error_message(*self),
    {
        match self {
            ParseErrorKind::BranchKindExpected => "branch kind (`+` or `-`) expected".to_owned(),
            ParseErrorKind::RootIndentLevel => "root branches must not be indented".to_owned(),
            ParseErrorKind::InconsistentIndentation { got, expected } => {
                let mut s = "at least ".to_owned();
                push_decimal(&mut s, *expected);
                s.push_str(" spaces of indentation were expected, but got ");
                push_decimal(&mut s, *got);
                s
            },
            ParseErrorKind::UnterminatedCodeBlock => "unterminated code block".to_owned(),
        }
    }
}

} // verus!
