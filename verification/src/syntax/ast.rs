//! The syntax tree. Every node carries the span of source text it was read
//! from and an identity that tells it apart from every other node.

use crate::errors::Span;
use std::ops::Deref;
use vstd::prelude::*;

verus! {

/// A node together with its source span and its identity.
#[derive(Clone, Debug, Hash)]
pub struct Spanned<T> {
    pub start: usize,
    pub end: usize,
    pub id: u64,
    pub node: T,
}

impl<T> Deref for Spanned<T> {
    type Target = T;

    fn deref(&self) -> (r: &T)
        ensures
            *r == self.node,
    {
        &self.node
    }
}

/// An integer literal.
pub type AstInt = Spanned<i32>;

/// A name.
pub type AstString = Spanned<String>;

/// An expression.
pub type AstExp = Spanned<Exp>;

/// A field of a record literal.
pub type AstField = Spanned<Field>;

/// A statement.
pub type AstStm = Spanned<Stm>;

/// A function.
pub type AstFun = Spanned<Fun>;

/// A program.
pub type AstProg = Spanned<Prog>;

/// A program: its functions, in the order in which they are written.
#[derive(Debug, Hash)]
pub struct Prog {
    pub funs: Vec<AstFun>,
}

/// A function: its name, its parameters, its local variables, its
/// statements and the expression it returns.
#[derive(Debug, Hash)]
pub struct Fun {
    pub name: AstString,
    pub params: Vec<AstString>,
    pub vars: Vec<AstString>,
    pub stms: Vec<AstStm>,
    pub return_: AstExp,
}

/// A statement.
#[derive(Debug, Hash)]
pub enum Stm {
    /// `x = e`
    IdentifierAssign(AstString, AstExp),
    /// `*e1 = e2`, by the expression that is dereferenced and the value.
    PointerAssign(AstExp, AstExp),
    /// `x.f = e`
    FieldAssign(AstString, AstString, AstExp),
    /// `(*e1).f = e2`, by the expression that is dereferenced, the field and
    /// the value.
    DereferenceFieldAssign(AstExp, AstString, AstExp),
    /// `output e`
    Output(AstExp),
    /// `if (e) { .. } else { .. }`
    If(AstExp, Vec<AstStm>, Option<Vec<AstStm>>),
    /// `while (e) { .. }`
    While(AstExp, Vec<AstStm>),
}

/// An expression.
#[derive(Debug, Hash)]
pub enum Exp {
    /// An integer literal.
    Int(AstInt),
    /// A name.
    Identifier(AstString),
    /// `-e`
    Unary(UnOp, Box<AstExp>),
    /// `e1 + e2` and the like.
    Binary(Box<AstExp>, BinOp, Box<AstExp>),
    /// `input`
    Input,
    /// `e(e1, .., en)`, by the callee and the arguments.
    Call(Box<AstExp>, Vec<AstExp>),
    /// `alloc e`
    Alloc(Box<AstExp>),
    /// `&x`
    Pointer(AstString),
    /// `*e`
    Dereference(Box<AstExp>),
    /// `null`
    Null,
    /// `{f1: e1, .., fn: en}`
    Record(Vec<AstField>),
    /// `e.f`
    Field(Box<AstExp>, AstString),
}

/// A field of a record literal: its name and its value.
#[derive(Debug, Hash)]
pub struct Field {
    pub name: AstString,
    pub value: Box<AstExp>,
}

/// An operator with one operand.
#[derive(Debug, Hash)]
pub enum UnOp {
    Negative,
}

/// An operator with two operands.
#[derive(Debug, Hash)]
pub enum BinOp {
    Add,
    Subtract,
    Multiply,
    Divide,
    Greater,
    Equal,
}

/// Wrapping of a bare node into a [`Spanned`] one.
pub trait IntoSpanned: Sized {
    /// The node with the span from `start` to `end` and the identity `id`.
    fn into_spanned(self, start: usize, end: usize, id: u64) -> (s: Spanned<Self>)
        ensures
            s.start == start,
            s.end == end,
            s.id == id,
            s.node == self,
    {
        Spanned { start, end, id, node: self }
    }
}

impl<T: Sized> IntoSpanned for T {

}

/// The span of a node.
pub open spec fn span_of<T>(n: Spanned<T>) -> Span {
    Span { start: n.start, end: n.end }
}

impl<T> Spanned<T> {
    /// The span of the node.
    pub fn span(&self) -> (span: Span)
        ensures
            span == span_of(*self),
    {
        Span::new(self.start, self.end)
    }
}

} // verus!
