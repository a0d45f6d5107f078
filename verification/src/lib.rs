//! Type inference for a small imperative language with pointers, first-class
//! functions, heap allocation and records.
//!
//! Types are interned: a [`ty::Ty`] is a handle into the arena of a
//! [`context::TyCtxt`], which holds one structural description
//! ([`ty::TyKind`]) for each type. A union-find forest over the handles
//! ([`solvers::unionfind::UnionFindSolver`]) records which types are known
//! to be equal, and unifies types together with their sub-terms. One walk
//! over the syntax tree ([`infer::infer`]) gives every expression a type and
//! unifies the types that the constructs of the language force to be equal.
//!
//! Every function is specified over a mathematical model: an arena is the
//! sequence of its shapes, a solver is the sequence of the representatives,
//! and an inference is a state that each construct transforms. What is
//! proved beyond that: interning is canonical, unification keeps the classes
//! of a solver structurally coherent, and unless a mismatch is reported every
//! equality that the program forces holds in the solver that is returned.

pub mod context;
pub mod errors;
pub mod hash;
pub mod infer;
pub mod solvers;
pub mod subst;
pub mod syntax;
pub mod term;
pub mod ty;
