use vstd::prelude::*;

use super::line::LineErrorKind;

verus! {

/// A rejected line, with enough context to report it: the line's number
/// (counting from zero), its text as far as it was recovered, and what was
/// wrong with it.
#[derive(Clone, Debug)]
pub struct ParseError {
    pub line_number: u32,
    pub line: String,
    pub kind: LineErrorKind,
}

/// Mathematical image of a `ParseError`.
pub struct ParseErrorV {
    pub line_number: int,
    pub line: Seq<char>,
    pub kind: LineErrorKind,
}

impl View for ParseError {
    type V = ParseErrorV;

    open spec fn view(&self) -> ParseErrorV {
        ParseErrorV { line_number: self.line_number as int, line: self.line@, kind: self.kind }
    }
}

} // verus!
