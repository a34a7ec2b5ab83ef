//! The parse failure value: the single offending token, and whether it
//! was rejected as an unexpected token or because the input nests too
//! deeply.

use crate::lex::Token;
use vstd::prelude::*;

verus! {

/// Why a parse failed.
#[derive(Debug, Clone, Copy, PartialEq, Eq, Structural)]
pub enum ParseErrorKind {
    /// A token (lexically malformed, or well formed but grammatically
    /// out of place) that no production can continue with.
    UnexpectedToken,
    /// An object or array opened beyond the nesting-depth guard.
    NestingTooDeep,
}

/// A parse failure: the offending token, with its byte span into the
/// input, and the kind of failure.
#[derive(Debug)]
pub struct ParseError {
    pub token: Token,
    pub kind: ParseErrorKind,
}

impl ParseError {
    /// The byte offset where the offending token starts.
    pub fn start(&self) -> (r: usize)
        ensures
            r == self.token.start,
    {
        self.token.start
    }

    /// The byte offset just after the offending token.
    pub fn end(&self) -> (r: usize)
        ensures
            r == self.token.end,
    {
        self.token.end
    }
}

} // verus!
