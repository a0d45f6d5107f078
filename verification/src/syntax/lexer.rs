//! The tokens of the language.

use crate::errors::Diagnostic;
use crate::errors::Span;
use vstd::prelude::*;

verus! {

/// Why a piece of source text is no token.
#[derive(Debug)]
pub enum LexicalError {
    /// The text starts no token.
    InvalidInput(String),
}

/// A token: a literal, a name, a keyword or a symbol.
#[derive(Debug, Clone, PartialEq, Eq)]
pub enum Token {
    /// Text that is no token.
    Error,
    Int(i32),
    Identifier(String),
    Input,
    Output,
    If,
    Else,
    While,
    Return,
    Var,
    Alloc,
    Null,
    Comma,
    Colon,
    Semicolon,
    Ampersand,
    Plus,
    Minus,
    Star,
    Slash,
    Greater,
    Equal,
    EqualEqual,
    OpeningRound,
    OpeningCurly,
    ClosingRound,
    ClosingCurly,
}

/// What a lexer hands on for one token: the token with the offsets of its
/// first character and of the character after its last; or, for text that
/// is no token, the diagnostic that names the text and its span.
pub fn located(token: Token, text: String, start: usize, end: usize) -> (item: Result<
    (usize, Token, usize),
    Diagnostic<LexicalError>,
>)
    ensures
        match item {
            Ok(found) => !(token is Error) && found == (start, token, end),
            Err(diagnostic) => token is Error && diagnostic == (Diagnostic {
                message: LexicalError::InvalidInput(text),
                span: Span { start, end },
            }),
        },
{
    match token {
        Token::Error => Err(Diagnostic::new(LexicalError::InvalidInput(text), Span::new(start, end))),
        _ => Ok((start, token, end)),
    }
}

} // verus!
