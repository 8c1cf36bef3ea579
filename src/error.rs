use crate::node::Span;
use vstd::prelude::*;

verus! {

/// What a diagnostic reports.
#[derive(Copy, Clone, Debug, PartialEq, Eq, Structural)]
pub enum DiagnosticKind {
    /// A character that starts no token, or a string without its closing quote.
    Lex,
    /// A container closed by the end of input or by an enclosing container's delimiter.
    MissingDelimiter,
    /// A token that cannot start an expression.
    UnexpectedToken,
    /// A prefix with nothing after it, or a table entry without its value.
    MissingExpression,
}

/// A message tied to a range of the source.
#[derive(Debug)]
pub struct Diagnostic {
    pub kind: DiagnosticKind,
    pub message: String,
    pub span: Span,
}

/// Why a text could not be formatted: every problem that was found, in order.
#[derive(Debug)]
pub enum Error {
    Lex(Vec<Diagnostic>),
    Parse(Vec<Diagnostic>),
}

impl Error {
    pub open spec fn spec_diagnostics(&self) -> Seq<Diagnostic> {
        match self {
            Error::Lex(d) => d@,
            Error::Parse(d) => d@,
        }
    }

    pub fn diagnostics(&self) -> (r: &Vec<Diagnostic>)
        ensures
            r@ == self.spec_diagnostics(),
    {
        match self {
            Error::Lex(d) => d,
            Error::Parse(d) => d,
        }
    }
}

} // verus!
