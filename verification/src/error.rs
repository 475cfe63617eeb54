//! What a failed production reports.

use vstd::prelude::*;

verus! {

/// The grammar element that was expected where recognition stopped.
#[derive(Debug, Clone, Copy, PartialEq, Eq, Structural)]
pub enum ErrorKind {
    /// A fixed token: a bracket, a brace, a quote, a colon or a literal.
    Tag,
    /// The quote that closes a string.
    TakeUntil,
    /// A number.
    Float,
}

/// Why a production did not match, and where.
#[derive(Debug, Clone, Copy, PartialEq, Eq)]
pub struct ParseError<'a> {
    /// The input suffix at which recognition stopped.
    pub input: &'a str,
    /// What was expected there.
    pub kind: ErrorKind,
}

/// The mathematical content of a [`ParseError`].
pub struct Mismatch {
    pub at: Seq<char>,
    pub kind: ErrorKind,
}

impl<'a> View for ParseError<'a> {
    type V = Mismatch;

    open spec fn view(&self) -> Mismatch {
        Mismatch { at: self.input@, kind: self.kind }
    }
}

} // verus!
