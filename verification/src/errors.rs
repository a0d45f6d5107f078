//! Diagnostics: a message attached to the span of source text it is about.

use vstd::prelude::*;

verus! {

/// A range of source text, by the offsets of its first character and of the
/// character after its last.
#[derive(Clone, Copy, Debug, PartialEq, Eq, Structural)]
pub struct Span {
    pub start: usize,
    pub end: usize,
}

impl Span {
    /// The span from `start` to `end`.
    pub fn new(start: usize, end: usize) -> (span: Span)
        ensures
            span == (Span { start, end }),
    {
        Span { start, end }
    }
}

/// A message of type `M` about the source text at `span`.
#[derive(Debug)]
pub struct Diagnostic<M> {
    pub message: M,
    pub span: Span,
}

impl<M> Diagnostic<M> {
    /// The diagnostic that says `message` of the text at `span`.
    pub fn new(message: M, span: Span) -> (diagnostic: Diagnostic<M>)
        ensures
            diagnostic == (Diagnostic { message, span }),
    {
        Diagnostic { message, span }
    }
}

} // verus!
