//! Syntax of the language: the tree that inference walks and the tokens that
//! source text is made of.

pub mod ast;
pub mod lexer;
