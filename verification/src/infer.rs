//! Type inference: one walk over the syntax tree that gives every expression
//! a type and unifies the types that the constructs of the language force to
//! be equal.

use crate::context::Arena;
use crate::context::TyCtxt;
use crate::errors::Diagnostic;
use crate::errors::Span;
use crate::hash::RefMap;
use crate::solvers::coherence::coherent;
use crate::solvers::coherence::lemma_extended_coherent;
use crate::solvers::coherence::lemma_singletons_coherent;
use crate::solvers::unionfind::UnionFindSolver;
use crate::solvers::unionfind::coarsens;
use crate::solvers::unionfind::grown;
use crate::solvers::unionfind::is_partition;
use crate::solvers::unionfind::pairs_within;
use crate::solvers::unionfind::rep;
use crate::solvers::unionfind::unified;
use crate::syntax::ast::AstExp;
use crate::syntax::ast::AstField;
use crate::syntax::ast::AstFun;
use crate::syntax::ast::AstProg;
use crate::syntax::ast::AstStm;
use crate::syntax::ast::AstString;
use crate::syntax::ast::Exp;
use crate::syntax::ast::Stm;
use crate::syntax::ast::span_of;
use crate::ty::Shape;
use crate::ty::Ty;
use crate::ty::TyKind;
use crate::ty::field_index;
use crate::ty::field_position;
use crate::ty::fields_view;
use crate::ty::has_field;
use vstd::prelude::*;

verus! {

/// What inference can find wrong with a program.
#[derive(Debug)]
pub enum InferenceError {
    /// A name is used that no scope in force declares.
    UndefinedVariable(String),
    /// Two types that the program forces to be equal cannot be.
    TypeMismatch(TyKind, TyKind),
    /// A name is declared twice in one scope, or twice as a field of one
    /// record.
    DuplicateDeclaration(String),
}

/// Mathematical value of an [`InferenceError`].
pub ghost enum Problem {
    UndefinedVariable(Seq<char>),
    TypeMismatch(Shape, Shape),
    DuplicateDeclaration(Seq<char>),
}

impl View for InferenceError {
    type V = Problem;

    open spec fn view(&self) -> Problem {
        match self {
            InferenceError::UndefinedVariable(name) => Problem::UndefinedVariable(name@),
            InferenceError::TypeMismatch(left, right) => Problem::TypeMismatch(left@, right@),
            InferenceError::DuplicateDeclaration(name) => Problem::DuplicateDeclaration(name@),
        }
    }
}

/// The problems that a list of diagnostics reports, each with its span.
pub open spec fn problems_of(diagnostics: Seq<Diagnostic<InferenceError>>) -> Seq<(Problem, Span)> {
    Seq::new(diagnostics.len(), |i: int| (diagnostics[i].message@, diagnostics[i].span))
}

/// The names that one scope declares, in order of declaration, each with its
/// type.
pub type Frame = Seq<(Seq<char>, Ty)>;

/// The parameter types and the return type that stand for a function while
/// its program is inferred.
pub ghost struct Signature {
    pub params: Seq<Ty>,
    pub ret: Ty,
}

/// The type that the innermost of the first `depth` scopes that declare
/// `name` gives it.
pub open spec fn lookup_from(scopes: Seq<Frame>, name: Seq<char>, depth: int) -> Option<Ty>
    decreases depth,
{
    if depth <= 0 {
        None
    } else if has_field(scopes[depth - 1], name) {
        Some(scopes[depth - 1][field_position(scopes[depth - 1], name)].1)
    } else {
        lookup_from(scopes, name, depth - 1)
    }
}

/// Mathematical value of an inference in progress.
pub ghost struct State {
    /// The types interned so far.
    pub arena: Arena,
    /// Handle of the integer type.
    pub int_ty: Ty,
    /// Representative of each handle that unification has met.
    pub roots: Seq<Ty>,
    /// The scopes in force, the global one first.
    pub scopes: Seq<Frame>,
    /// The type given to each expression so far, by the expression's identity.
    pub types: Map<u64, Ty>,
    /// The problems found so far, in the order in which they were found.
    pub problems: Seq<(Problem, Span)>,
    /// The pairs of types that the program has forced to be equal so far.
    pub asked: Seq<(Ty, Ty)>,
}

impl State {
    /// The state before anything is inferred: one empty scope, no types
    /// recorded, nothing unified.
    pub open spec fn initial(arena: Arena, int_ty: Ty) -> State {
        State {
            arena,
            int_ty,
            roots: Seq::empty(),
            scopes: seq![Seq::empty()],
            types: Map::empty(),
            problems: Seq::empty(),
            asked: Seq::empty(),
        }
    }

    /// A fresh variable.
    pub open spec fn fresh(self) -> (State, Ty) {
        (
            State { arena: self.arena.mint().0, ..self },
            Ty { interned: self.arena.kinds.len() as usize },
        )
    }

    /// `n` fresh variables, appended to `acc`.
    pub open spec fn fresh_many(self, n: nat, acc: Seq<Ty>) -> (State, Seq<Ty>)
        decreases n,
    {
        if n == 0 {
            (self, acc)
        } else {
            let (s, t) = self.fresh();
            s.fresh_many((n - 1) as nat, acc.push(t))
        }
    }

    /// The canonical handle of `k`.
    pub open spec fn intern(self, k: Shape) -> (State, Ty) {
        (
            State { arena: self.arena.intern(k).0, ..self },
            Ty { interned: self.arena.intern(k).1 as usize },
        )
    }

    /// Notes a problem.
    pub open spec fn report(self, problem: Problem, span: Span) -> State {
        State { problems: self.problems.push((problem, span)), ..self }
    }

    /// Unifies `a` and `b`. Where they clash, nothing is unified and the clash
    /// is noted at `span`.
    pub open spec fn unify(self, a: Ty, b: Ty, span: Span) -> State {
        let asked = self.asked.push((a, b));
        match unified(self.arena, self.roots, a, b) {
            Ok(r) => State { roots: r, asked, ..self },
            Err((ka, kb)) => State {
                roots: grown(self.roots, self.arena.kinds.len()),
                asked,
                ..self
            }.report(Problem::TypeMismatch(ka, kb), span),
        }
    }

    /// The type of `name` in the innermost scope that declares it.
    pub open spec fn lookup(self, name: Seq<char>) -> Option<Ty> {
        lookup_from(self.scopes, name, self.scopes.len() as int)
    }

    /// The type of `name`; where no scope declares it, that is noted at `span`
    /// and the name gets a fresh variable.
    pub open spec fn resolve(self, name: Seq<char>, span: Span) -> (State, Ty) {
        match self.lookup(name) {
            Some(t) => (self, t),
            None => self.report(Problem::UndefinedVariable(name), span).fresh(),
        }
    }

    /// Declares `name` with type `t` in the innermost scope. Where that scope
    /// declares the name already, the first declaration stands and the second
    /// is noted at `span`.
    pub open spec fn declare(self, name: Seq<char>, t: Ty, span: Span) -> State {
        let top = self.scopes.len() - 1;
        if has_field(self.scopes[top], name) {
            self.report(Problem::DuplicateDeclaration(name), span)
        } else {
            State { scopes: self.scopes.update(top, self.scopes[top].push((name, t))), ..self }
        }
    }

    /// Opens a scope.
    pub open spec fn enter(self) -> State {
        State { scopes: self.scopes.push(Seq::empty()), ..self }
    }

    /// Closes the innermost scope. The global scope stays.
    pub open spec fn leave(self) -> State {
        if self.scopes.len() >= 2 {
            State { scopes: self.scopes.drop_last(), ..self }
        } else {
            self
        }
    }

    /// Gives the expression with identity `id` the type `t`.
    pub open spec fn record(self, id: u64, t: Ty) -> State {
        State { types: self.types.insert(id, t), ..self }
    }

    /// The type of field `name` of a value of type `t`.
    ///
    /// Where `t` is known to be a record, that is the type of its field of
    /// that name; a record without such a field is noted at `span` as a
    /// mismatch with the absent field, and the access gets a fresh variable.
    /// Otherwise `t` is unified with the record that has this one field, of a
    /// fresh type.
    pub open spec fn select(self, t: Ty, name: Seq<char>, span: Span) -> (State, Ty) {
        let known = self.arena.shape(rep(self.roots, t));
        match known {
            Shape::Record(fields) => if has_field(fields, name) {
                (self, fields[field_position(fields, name)].1)
            } else {
                self.report(Problem::TypeMismatch(known, Shape::AbsentField), span).fresh()
            },
            _ => {
                let (s1, f) = self.fresh();
                let (s2, record) = s1.intern(Shape::Record(seq![(name, f)]));
                (s2.unify(t, record, span), f)
            },
        }
    }
}

/// The state after the expression `e` has been inferred in state `s`, and
/// the type of `e`.
///
/// Sub-expressions are inferred before the expression that holds them, from
/// left to right. Every expression is recorded with its type under its
/// identity. A type that a construct forces is unified at the span of that
/// construct.
pub open spec fn after_exp(s: State, e: AstExp) -> (State, Ty)
    decreases e, 0nat,
{
    let span = span_of(e);
    let (done, t) = match e.node {
        Exp::Int(_) => {
            let (s1, t) = s.fresh();
            (s1.unify(t, s.int_ty, span), t)
        },
        Exp::Identifier(name) => s.resolve(name.node@, span),
        Exp::Unary(_, operand) => {
            let (s1, t) = after_exp(s, *operand);
            (s1.unify(t, s.int_ty, span), s.int_ty)
        },
        Exp::Binary(lhs, _, rhs) => {
            let (s1, tl) = after_exp(s, *lhs);
            let (s2, tr) = after_exp(s1.unify(tl, s.int_ty, span), *rhs);
            (s2.unify(tr, s.int_ty, span), s.int_ty)
        },
        Exp::Input => (s, s.int_ty),
        Exp::Call(callee, args) => {
            let (s1, ts) = after_exps(s, args@, 0, Seq::empty());
            let (s2, ret) = s1.fresh();
            let (s3, tc) = after_exp(s2, *callee);
            let (s4, f) = s3.intern(Shape::Function(ts, ret));
            (s4.unify(tc, f, span), ret)
        },
        Exp::Alloc(init) => {
            let (s1, t) = after_exp(s, *init);
            s1.intern(Shape::Pointer(t))
        },
        Exp::Pointer(name) => {
            let (s1, t) = s.resolve(name.node@, span);
            s1.intern(Shape::Pointer(t))
        },
        Exp::Dereference(target) => {
            let (s1, t) = after_exp(s, *target);
            let (s2, inner) = s1.fresh();
            let (s3, pointer) = s2.intern(Shape::Pointer(inner));
            (s3.unify(t, pointer, span), inner)
        },
        Exp::Null => s.fresh(),
        Exp::Record(fields) => {
            let (s1, typed) = after_fields(s, fields@, 0, Seq::empty());
            s1.intern(Shape::Record(typed))
        },
        Exp::Field(target, name) => {
            let (s1, t) = after_exp(s, *target);
            s1.select(t, name.node@, span)
        },
    };
    (done.record(e.id, t), t)
}

/// The state after the expressions of `es` from position `i` on have been
/// inferred in order, and `acc` followed by their types.
pub open spec fn after_exps(s: State, es: Seq<AstExp>, i: int, acc: Seq<Ty>) -> (State, Seq<Ty>)
    decreases es, es.len() - i,
{
    if 0 <= i < es.len() {
        let (s1, t) = after_exp(s, es[i]);
        after_exps(s1, es, i + 1, acc.push(t))
    } else {
        (s, acc)
    }
}

/// The state after the values of the record fields of `fields` from position
/// `i` on have been inferred in order, and `acc` followed by their names and
/// types. Of two fields with one name the first stands, and the second is
/// noted at its span.
pub open spec fn after_fields(s: State, fields: Seq<AstField>, i: int, acc: Frame) -> (State, Frame)
    decreases fields, fields.len() - i,
{
    if 0 <= i < fields.len() {
        let name = fields[i].node.name.node@;
        let (s1, t) = after_exp(s, *fields[i].node.value);
        if has_field(acc, name) {
            after_fields(
                s1.report(Problem::DuplicateDeclaration(name), span_of(fields[i])),
                fields,
                i + 1,
                acc,
            )
        } else {
            after_fields(s1, fields, i + 1, acc.push((name, t)))
        }
    } else {
        (s, acc)
    }
}

/// The state after the statement `stm` has been inferred in state `s`.
pub open spec fn after_stm(s: State, stm: AstStm) -> State
    decreases stm, 0nat,
{
    let span = span_of(stm);
    match stm.node {
        Stm::IdentifierAssign(name, value) => {
            let (s1, tn) = s.resolve(name.node@, span_of(name));
            let (s2, tv) = after_exp(s1, value);
            s2.unify(tn, tv, span)
        },
        Stm::PointerAssign(target, value) => {
            let (s1, tt) = after_exp(s, target);
            let (s2, tv) = after_exp(s1, value);
            let (s3, pointer) = s2.intern(Shape::Pointer(tv));
            s3.unify(tt, pointer, span)
        },
        Stm::FieldAssign(record, field, value) => {
            let (s1, tr) = s.resolve(record.node@, span_of(record));
            let (s2, tf) = s1.select(tr, field.node@, span);
            let (s3, tv) = after_exp(s2, value);
            s3.unify(tf, tv, span)
        },
        Stm::DereferenceFieldAssign(target, field, value) => {
            let (s1, tt) = after_exp(s, target);
            let (s2, inner) = s1.fresh();
            let (s3, pointer) = s2.intern(Shape::Pointer(inner));
            let (s4, tf) = s3.unify(tt, pointer, span).select(inner, field.node@, span);
            let (s5, tv) = after_exp(s4, value);
            s5.unify(tf, tv, span)
        },
        Stm::Output(value) => {
            let (s1, t) = after_exp(s, value);
            s1.unify(t, s.int_ty, span)
        },
        Stm::If(cond, then, otherwise) => {
            let (s1, t) = after_exp(s, cond);
            let s2 = after_stms(s1.unify(t, s.int_ty, span), then@, 0);
            match otherwise {
                Some(stms) => after_stms(s2, stms@, 0),
                None => s2,
            }
        },
        Stm::While(cond, body) => {
            let (s1, t) = after_exp(s, cond);
            after_stms(s1.unify(t, s.int_ty, span), body@, 0)
        },
    }
}

/// The state after the statements of `stms` from position `i` on have been
/// inferred in order.
pub open spec fn after_stms(s: State, stms: Seq<AstStm>, i: int) -> State
    decreases stms, stms.len() - i,
{
    if 0 <= i < stms.len() {
        after_stms(after_stm(s, stms[i]), stms, i + 1)
    } else {
        s
    }
}

/// The state after the parameters `names` from position `i` on have been
/// declared in order, each with the type that `types` holds for it.
pub open spec fn after_params(s: State, names: Seq<AstString>, types: Seq<Ty>, i: int) -> State
    decreases names.len() - i,
{
    if 0 <= i < names.len() {
        after_params(s.declare(names[i].node@, types[i], span_of(names[i])), names, types, i + 1)
    } else {
        s
    }
}

/// The state after the local variables `names` from position `i` on have been
/// declared in order, each with a fresh variable as its type.
pub open spec fn after_vars(s: State, names: Seq<AstString>, i: int) -> State
    decreases names.len() - i,
{
    if 0 <= i < names.len() {
        let (s1, t) = s.fresh();
        after_vars(s1.declare(names[i].node@, t, span_of(names[i])), names, i + 1)
    } else {
        s
    }
}

/// The state after the body of the function `f`, whose signature is `sig`,
/// has been inferred in state `s`: in a scope of its own that declares the
/// parameters with the parameter types of the signature and the local
/// variables with fresh types, the statements are inferred, and the type of
/// the returned expression is unified with the return type of the signature.
pub open spec fn after_fun(s: State, f: AstFun, sig: Signature) -> State {
    let s1 = after_params(s.enter(), f.node.params@, sig.params, 0);
    let s2 = after_vars(s1, f.node.vars@, 0);
    let s3 = after_stms(s2, f.node.stms@, 0);
    let (s4, t) = after_exp(s3, f.node.return_);
    s4.unify(t, sig.ret, span_of(f.node.return_)).leave()
}

/// The state after the functions of `funs` from position `i` on have been
/// given signatures of fresh variables and declared, in order, with the
/// function types made of them; and `acc` followed by those signatures.
pub open spec fn after_signatures(s: State, funs: Seq<AstFun>, i: int, acc: Seq<Signature>) -> (
    State,
    Seq<Signature>,
)
    decreases funs.len() - i,
{
    if 0 <= i < funs.len() {
        let (s1, params) = s.fresh_many(funs[i].node.params@.len(), Seq::empty());
        let (s2, ret) = s1.fresh();
        let (s3, f) = s2.intern(Shape::Function(params, ret));
        let name = funs[i].node.name;
        after_signatures(
            s3.declare(name.node@, f, span_of(name)),
            funs,
            i + 1,
            acc.push(Signature { params, ret }),
        )
    } else {
        (s, acc)
    }
}

/// The state after the bodies of the functions of `funs` from position `i`
/// on have been inferred in order.
pub open spec fn after_funs(s: State, funs: Seq<AstFun>, sigs: Seq<Signature>, i: int) -> State
    decreases funs.len() - i,
{
    if 0 <= i < funs.len() {
        after_funs(after_fun(s, funs[i], sigs[i]), funs, sigs, i + 1)
    } else {
        s
    }
}

/// The state after the program `prog` has been inferred in state `s`: first
/// every function is declared in the global scope, so that each can be
/// called from any body; then the bodies are inferred in order.
pub open spec fn after_prog(s: State, prog: AstProg) -> State {
    let (s1, sigs) = after_signatures(s, prog.node.funs@, 0, Seq::empty());
    after_funs(s1, prog.node.funs@, sigs, 0)
}

impl State {
    /// The state is consistent: the arena is well-formed and holds the integer
    /// type at `int_ty`; `roots` is a coherent partition of handles of the
    /// arena; there is a scope; and every type that a scope or the record of expression types
    /// holds is a handle of the arena.
    pub open spec fn wf(self) -> bool {
        &&& self.arena.wf()
        &&& self.arena.valid(self.int_ty)
        &&& self.arena.shape(self.int_ty) == Shape::Int
        &&& is_partition(self.roots)
        &&& self.roots.len() <= self.arena.kinds.len()
        &&& coherent(self.arena, self.roots)
        &&& self.scopes.len() >= 1
        &&& scopes_within(self.scopes, self.arena)
        &&& types_within(self.types, self.arena)
        &&& pairs_within(self.asked, self.arena.kinds.len())
        &&& settled(self.roots, self.asked, self.problems)
    }
}

/// No problem of `problems` is a type mismatch.
pub open spec fn no_mismatch(problems: Seq<(Problem, Span)>) -> bool {
    forall|k: int| 0 <= k < problems.len() ==> !((#[trigger] problems[k]).0 is TypeMismatch)
}

/// Every pair of `asked` is in one class of `roots`.
pub open spec fn all_joined(roots: Seq<Ty>, asked: Seq<(Ty, Ty)>) -> bool {
    forall|k: int|
        0 <= k < asked.len() ==> rep(roots, (#[trigger] asked[k]).0) == rep(roots, asked[k].1)
}

/// Unless a type mismatch was found, all types that the program has forced
/// to be equal are: every pair of `asked` is in one class of `roots`.
pub open spec fn settled(roots: Seq<Ty>, asked: Seq<(Ty, Ty)>, problems: Seq<(Problem, Span)>) -> bool {
    no_mismatch(problems) ==> all_joined(roots, asked)
}

/// What is settled stays settled when a problem is noted.
pub proof fn lemma_report_settled(
    roots: Seq<Ty>,
    asked: Seq<(Ty, Ty)>,
    problems: Seq<(Problem, Span)>,
    problem: (Problem, Span),
)
    requires
        settled(roots, asked, problems),
    ensures
        settled(roots, asked, problems.push(problem)),
        problem.0 is TypeMismatch ==> !no_mismatch(problems.push(problem)),
{
    let more = problems.push(problem);
    if no_mismatch(more) {
        assert forall|k: int| 0 <= k < problems.len() implies !((
        #[trigger] problems[k]).0 is TypeMismatch) by {
            assert(more[k] == problems[k]);
        }
    }
    if problem.0 is TypeMismatch {
        assert(more[problems.len() as int] == problem);
    }
}

/// Pairs that are in one class of a partition are in one class of every
/// coarser partition of the same handles, and so is a pair that is added
/// after it was joined.
pub proof fn lemma_unify_settled(old_roots: Seq<Ty>, roots: Seq<Ty>, asked: Seq<(Ty, Ty)>, n: nat)
    requires
        old_roots.len() <= n,
        coarsens(grown(old_roots, n), roots),
        pairs_within(asked, n),
        all_joined(old_roots, asked),
    ensures
        all_joined(roots, asked),
{
    let g = grown(old_roots, n);
    assert forall|k: int| 0 <= k < asked.len() implies rep(roots, (#[trigger] asked[k]).0) == rep(
        roots,
        asked[k].1,
    ) by {
        let (x, y) = asked[k];
        assert(rep(old_roots, x) == rep(old_roots, y));
        assert(g[x.idx()] == rep(old_roots, x));
        assert(g[y.idx()] == rep(old_roots, y));
    }
}

/// Every type that a scope holds is a handle of `arena`.
pub open spec fn scopes_within(scopes: Seq<Frame>, arena: Arena) -> bool {
    forall|d: int, i: int|
        0 <= d < scopes.len() && 0 <= i < scopes[d].len() ==> arena.valid(
            (#[trigger] scopes[d][i]).1,
        )
}

/// Every type recorded for an expression is a handle of `arena`.
pub open spec fn types_within(types: Map<u64, Ty>, arena: Arena) -> bool {
    forall|id: u64| types.contains_key(id) ==> arena.valid(#[trigger] types[id])
}

/// A declaration in an inner scope takes precedence over every declaration of
/// the same name in the scopes around it.
pub proof fn lemma_inner_declaration_shadows(s: State, name: Seq<char>, t: Ty, span: Span)
    requires
        s.scopes.len() >= 1,
    ensures
        s.enter().declare(name, t, span).lookup(name) == Some(t),
{
    let inner = s.enter().declare(name, t, span);
    let top = inner.scopes.len() - 1;
    assert(!has_field(s.enter().scopes[top], name));
    assert(inner.scopes[top] =~= seq![(name, t)]);
    assert(inner.scopes[top][0].0 == name);
    crate::ty::lemma_field_position(inner.scopes[top], name, 0);
}

/// The first `depth` scopes give a name the same type whatever scopes follow
/// them.
pub proof fn lemma_lookup_prefix(a: Seq<Frame>, b: Seq<Frame>, name: Seq<char>, depth: int)
    requires
        depth <= a.len(),
        depth <= b.len(),
        forall|d: int| 0 <= d < depth ==> a[d] == b[d],
    ensures
        lookup_from(a, name, depth) == lookup_from(b, name, depth),
    decreases depth,
{
    if depth > 0 {
        lemma_lookup_prefix(a, b, name, depth - 1);
    }
}

/// When a scope is left, every name stands again for what it stood for
/// before the scope was entered, whatever the scope declared.
pub proof fn lemma_leaving_restores_lookup(s: State, inner: State, name: Seq<char>)
    requires
        s.scopes.len() >= 1,
        inner.scopes.len() == s.scopes.len() + 1,
        forall|d: int| 0 <= d < s.scopes.len() ==> inner.scopes[d] == s.scopes[d],
    ensures
        inner.leave().lookup(name) == s.lookup(name),
{
    lemma_lookup_prefix(inner.leave().scopes, s.scopes, name, s.scopes.len() as int);
}

/// A name that no scope declares is noted as undefined, at the span given.
pub proof fn lemma_undeclared_is_reported(s: State, name: Seq<char>, span: Span)
    requires
        s.lookup(name) is None,
    ensures
        s.resolve(name, span).0.problems == s.problems.push(
            (Problem::UndefinedVariable(name), span),
        ),
{
}

/// Every expression that is inferred is recorded with its type.
pub proof fn lemma_expression_is_recorded(s: State, e: AstExp)
    ensures
        after_exp(s, e).0.types.contains_key(e.id),
        after_exp(s, e).0.types[e.id] == after_exp(s, e).1,
{
}

/// A consistent state stays consistent when its arena is extended.
pub proof fn lemma_extended(s: State, arena: Arena)
    requires
        s.wf(),
        arena.wf(),
        s.arena.extended_by(arena),
    ensures
        (State { arena, ..s }).wf(),
{
    let t = State { arena, ..s };
    lemma_extended_coherent(s.arena, arena, s.roots);
    assert forall|k: int| 0 <= k < t.asked.len() implies 0 <= (#[trigger] t.asked[k]).0.idx()
        < arena.kinds.len() && 0 <= t.asked[k].1.idx() < arena.kinds.len() by {
        let _ = s.asked[k];
    }
    assert forall|d: int, i: int|
        0 <= d < t.scopes.len() && 0 <= i < t.scopes[d].len() implies t.arena.valid(
        (#[trigger] t.scopes[d][i]).1,
    ) by {
        assert(s.arena.valid(s.scopes[d][i].1));
    }
    assert forall|id: u64| t.types.contains_key(id) implies t.arena.valid(
        #[trigger] t.types[id],
    ) by {
        assert(s.arena.valid(s.types[id]));
    }
}

/// The names declared by one function body, or by the program as a whole.
struct Scope {
    name_to_ty: Vec<(String, Ty)>,
}

impl View for Scope {
    type V = Frame;

    closed spec fn view(&self) -> Frame {
        fields_view(self.name_to_ty@)
    }
}

impl Scope {
    /// A scope that declares nothing.
    fn new() -> (scope: Scope)
        ensures
            scope@ == Frame::empty(),
    {
        let scope = Scope { name_to_ty: Vec::new() };
        assert(scope@ =~= Frame::empty());
        scope
    }

    /// The type that the scope gives `name`.
    fn get(&self, name: &String) -> (found: Option<Ty>)
        ensures
            found == (if has_field(self@, name@) {
                Some(self@[field_position(self@, name@)].1)
            } else {
                None
            }),
    {
        match field_index(&self.name_to_ty, name) {
            Some(j) => Some(self.name_to_ty[j].1),
            None => None,
        }
    }

    /// Declares `name` with type `t`, unless the scope declares it already.
    /// Returns whether it was declared.
    #[verifier::rlimit(50)]
    fn declare(&mut self, name: &String, t: Ty) -> (declared: bool)
        ensures
            declared == !has_field(old(self)@, name@),
            final(self)@ == (if declared {
                old(self)@.push((name@, t))
            } else {
                old(self)@
            }),
    {
        if field_index(&self.name_to_ty, name).is_some() {
            false
        } else {
            self.name_to_ty.push((name.clone(), t));
            assert(self@ =~= old(self)@.push((name@, t)));
            true
        }
    }
}

/// The scopes as frames.
spec fn frames(scopes: Seq<Scope>) -> Seq<Frame> {
    Seq::new(scopes.len(), |d: int| scopes[d]@)
}

/// An inference in progress.
struct InferenceContext {
    expr_to_ty: RefMap,
    solver: UnionFindSolver,
    scopes: Vec<Scope>,
    diagnostics: Vec<Diagnostic<InferenceError>>,
    asked: Ghost<Seq<(Ty, Ty)>>,
}

impl InferenceContext {
    /// The state of the inference, with the types of `tcx`.
    spec fn view(&self, tcx: &TyCtxt) -> State {
        State {
            arena: tcx@,
            int_ty: tcx.int_ty(),
            roots: self.solver@,
            scopes: frames(self.scopes@),
            types: self.expr_to_ty@,
            problems: problems_of(self.diagnostics@),
            asked: self.asked@,
        }
    }

    /// The context and the solver are well-formed, and the state is consistent.
    spec fn inv(&self, tcx: &TyCtxt) -> bool {
        &&& tcx.wf()
        &&& self.solver.wf()
        &&& self.view(tcx).wf()
    }

    /// The context of an inference that has not begun.
    fn new(tcx: &TyCtxt) -> (cx: InferenceContext)
        requires
            tcx.wf(),
        ensures
            cx.inv(tcx),
            cx.view(tcx) == State::initial(tcx@, tcx.int_ty()),
    {
        let mut scopes: Vec<Scope> = Vec::new();
        scopes.push(Scope::new());
        let cx = InferenceContext {
            expr_to_ty: RefMap::new(),
            solver: UnionFindSolver::new(),
            scopes,
            diagnostics: Vec::new(),
            asked: Ghost(Seq::empty()),
        };
        proof {
            tcx.lemma_int_ty();
            cx.solver.lemma_partition();
            lemma_singletons_coherent(tcx@, cx.solver@);
            assert(frames(cx.scopes@) =~= seq![Frame::empty()]);
            assert(problems_of(cx.diagnostics@) =~= Seq::empty());
        }
        cx
    }

    /// A fresh variable.
    fn fresh(&self, tcx: &mut TyCtxt) -> (t: Ty)
        requires
            self.inv(old(tcx)),
        ensures
            self.inv(final(tcx)),
            (self.view(final(tcx)), t) == self.view(old(tcx)).fresh(),
            final(tcx)@.valid(t),
            old(tcx)@.extended_by(final(tcx)@),
    {
        let t = Ty::fresh(tcx);
        proof {
            tcx.lemma_int_ty();
            lemma_extended(self.view(old(tcx)), tcx@);
        }
        t
    }

    /// The canonical handle of `kind`.
    fn intern(&self, tcx: &mut TyCtxt, kind: TyKind) -> (t: Ty)
        requires
            self.inv(old(tcx)),
            old(tcx)@.admits(kind@),
        ensures
            self.inv(final(tcx)),
            (self.view(final(tcx)), t) == self.view(old(tcx)).intern(kind@),
            final(tcx)@.valid(t),
            old(tcx)@.extended_by(final(tcx)@),
    {
        let t = kind.intern(tcx);
        proof {
            tcx.lemma_int_ty();
            lemma_extended(self.view(old(tcx)), tcx@);
        }
        t
    }

    /// Notes a problem.
    fn report(&mut self, tcx: &TyCtxt, problem: InferenceError, span: Span)
        requires
            old(self).inv(tcx),
        ensures
            final(self).inv(tcx),
            final(self).view(tcx) == old(self).view(tcx).report(problem@, span),
    {
        proof {
            lemma_report_settled(
                self.solver@,
                self.asked@,
                problems_of(self.diagnostics@),
                (problem@, span),
            );
        }
        self.diagnostics.push(Diagnostic::new(problem, span));
        assert(problems_of(self.diagnostics@) =~= problems_of(old(self).diagnostics@).push(
            (problem@, span),
        ));
    }

    /// Unifies `a` and `b`, and notes at `span` if they clash.
    #[verifier::rlimit(50)]
    fn unify(&mut self, tcx: &TyCtxt, a: Ty, b: Ty, span: Span)
        requires
            old(self).inv(tcx),
            tcx@.valid(a),
            tcx@.valid(b),
        ensures
            final(self).inv(tcx),
            final(self).view(tcx) == old(self).view(tcx).unify(a, b, span),
    {
        let ghost before = *self;
        proof {
            tcx.lemma_int_ty();
        }
        match self.solver.unify(tcx, a, b) {
            Ok(_) => {
                proof {
                    self.solver.lemma_partition();
                    self.asked@ = self.asked@.push((a, b));
                    if no_mismatch(problems_of(self.diagnostics@)) {
                        lemma_unify_settled(
                            before.solver@,
                            self.solver@,
                            before.asked@,
                            tcx@.kinds.len(),
                        );
                        assert forall|k: int| 0 <= k < self.asked@.len() implies rep(
                            self.solver@,
                            (#[trigger] self.asked@[k]).0,
                        ) == rep(self.solver@, self.asked@[k].1) by {
                            if k < before.asked@.len() {
                                assert(self.asked@[k] == before.asked@[k]);
                            }
                        }
                    }
                }
            },
            Err(e) => {
                proof {
                    self.solver.lemma_partition();
                    self.asked@ = self.asked@.push((a, b));
                    lemma_report_settled(
                        before.solver@,
                        before.asked@,
                        problems_of(self.diagnostics@),
                        (Problem::TypeMismatch(e.left@, e.right@), span),
                    );
                }
                self.diagnostics.push(
                    Diagnostic::new(InferenceError::TypeMismatch(e.left, e.right), span),
                );
                assert(problems_of(self.diagnostics@) =~= problems_of(
                    before.diagnostics@,
                ).push((Problem::TypeMismatch(e.left@, e.right@), span)));
            },
        }
    }

    /// The type of `name` in the innermost scope that declares it.
    fn lookup(&self, tcx: &TyCtxt, name: &String) -> (found: Option<Ty>)
        requires
            self.inv(tcx),
        ensures
            found == self.view(tcx).lookup(name@),
            found matches Some(t) ==> tcx@.valid(t),
    {
        let mut d: usize = self.scopes.len();
        while d > 0
            invariant
                d <= self.scopes.len(),
                self.inv(tcx),
                lookup_from(frames(self.scopes@), name@, d as int) == self.view(tcx).lookup(name@),
            decreases d,
        {
            d -= 1;
            match self.scopes[d].get(name) {
                Some(t) => {
                    proof {
                        let frame = frames(self.scopes@)[d as int];
                        let i = field_position(frame, name@);
                        crate::ty::lemma_first_field(
                            frame,
                            name@,
                            choose|j: int| 0 <= j < frame.len() && #[trigger] frame[j].0 == name@,
                        );
                        let _ = self.view(tcx).scopes[d as int][i];
                    }
                    return Some(t);
                },
                None => {},
            }
        }
        None
    }

    /// The type of `name`; notes at `span` if no scope declares it.
    fn resolve(&mut self, tcx: &mut TyCtxt, name: &String, span: Span) -> (t: Ty)
        requires
            old(self).inv(old(tcx)),
        ensures
            final(self).inv(final(tcx)),
            (final(self).view(final(tcx)), t) == old(self).view(old(tcx)).resolve(name@, span),
            final(tcx)@.valid(t),
            old(tcx)@.extended_by(final(tcx)@),
    {
        match self.lookup(tcx, name) {
            Some(t) => t,
            None => {
                self.report(tcx, InferenceError::UndefinedVariable(name.clone()), span);
                self.fresh(tcx)
            },
        }
    }

    /// Declares `name` with type `t` in the innermost scope; notes at `span`
    /// if that scope declares it already.
    #[verifier::rlimit(50)]
    fn declare(&mut self, tcx: &TyCtxt, name: &String, t: Ty, span: Span)
        requires
            old(self).inv(tcx),
            tcx@.valid(t),
        ensures
            final(self).inv(tcx),
            final(self).view(tcx) == old(self).view(tcx).declare(name@, t, span),
    {
        let top = self.scopes.len() - 1;
        let ghost before = self.scopes@;
        let mut innermost = self.scopes.pop().unwrap();
        let declared = innermost.declare(name, t);
        self.scopes.push(innermost);
        proof {
            let now = frames(self.scopes@);
            let was = frames(before);
            if declared {
                assert(now =~= was.update(top as int, was[top as int].push((name@, t))));
                assert forall|d: int, i: int| 0 <= d < now.len() && 0 <= i < now[d].len() implies tcx@.valid(
                    (#[trigger] now[d][i]).1,
                ) by {
                    if d < top || i < was[top as int].len() {
                        let _ = was[d][i];
                    }
                }
            } else {
                assert(now =~= was);
            }
        }
        if !declared {
            self.report(tcx, InferenceError::DuplicateDeclaration(name.clone()), span);
        }
    }

    /// Gives the expression with identity `id` the type `t`.
    fn record_exp_ty(&mut self, tcx: &TyCtxt, id: u64, t: Ty)
        requires
            old(self).inv(tcx),
            tcx@.valid(t),
        ensures
            final(self).inv(tcx),
            final(self).view(tcx) == old(self).view(tcx).record(id, t),
    {
        self.expr_to_ty.insert(id, t);
    }

    /// Opens a scope.
    fn enter(&mut self, tcx: &TyCtxt)
        requires
            old(self).inv(tcx),
        ensures
            final(self).inv(tcx),
            final(self).view(tcx) == old(self).view(tcx).enter(),
    {
        self.scopes.push(Scope::new());
        proof {
            let now = frames(self.scopes@);
            let was = frames(old(self).scopes@);
            assert(now =~= was.push(Seq::empty()));
            assert forall|d: int, i: int| 0 <= d < now.len() && 0 <= i < now[d].len() implies tcx@.valid(
                (#[trigger] now[d][i]).1,
            ) by {
                let _ = was[d][i];
            }
        }
    }

    /// Closes the innermost scope, if it is not the global one.
    fn leave(&mut self, tcx: &TyCtxt)
        requires
            old(self).inv(tcx),
        ensures
            final(self).inv(tcx),
            final(self).view(tcx) == old(self).view(tcx).leave(),
    {
        if self.scopes.len() < 2 {
            return ;
        }
        self.scopes.pop();
        proof {
            let now = frames(self.scopes@);
            let was = frames(old(self).scopes@);
            assert(now =~= was.drop_last());
            assert forall|d: int, i: int| 0 <= d < now.len() && 0 <= i < now[d].len() implies tcx@.valid(
                (#[trigger] now[d][i]).1,
            ) by {
                let _ = was[d][i];
            }
        }
    }

    /// The type of field `name` of a value of type `t`.
    #[verifier::rlimit(50)]
    fn select(&mut self, tcx: &mut TyCtxt, t: Ty, name: &String, span: Span) -> (f: Ty)
        requires
            old(self).inv(old(tcx)),
            old(tcx)@.valid(t),
        ensures
            final(self).inv(final(tcx)),
            (final(self).view(final(tcx)), f) == old(self).view(old(tcx)).select(t, name@, span),
            final(tcx)@.valid(f),
            old(tcx)@.extended_by(final(tcx)@),
    {
        proof {
            self.solver.lemma_partition();
        }
        let r = self.solver.find(t);
        let known = tcx.ty_kind(r.interned);
        let field: Option<Option<Ty>> = match known {
            TyKind::Record(fields) => match field_index(fields, name) {
                Some(j) => {
                    proof {
                        assert(tcx@.kinds[r.idx()].fits(r.idx(), tcx@.next_var));
                        let _ = known@.children()[j as int];
                    }
                    Some(Some(fields[j].1))
                },
                None => Some(None),
            },
            _ => None,
        };
        match field {
            Some(Some(f)) => f,
            Some(None) => {
                let left = known.duplicate();
                self.report(tcx, InferenceError::TypeMismatch(left, TyKind::AbsentField), span);
                self.fresh(tcx)
            },
            None => {
                let f = self.fresh(tcx);
                let mut fields: Vec<(String, Ty)> = Vec::new();
                fields.push((name.clone(), f));
                let kind = TyKind::Record(fields);
                proof {
                    assert(fields_view(fields@) =~= seq![(name@, f)]);
                    assert(kind@.children() =~= seq![f]);
                }
                let record = self.intern(tcx, kind);
                self.unify(tcx, t, record, span);
                f
            },
        }
    }

    /// Infers the expression `exp` and returns its type.
    #[verifier::rlimit(50)]
    fn infer_exp(&mut self, tcx: &mut TyCtxt, exp: &AstExp) -> (t: Ty)
        requires
            old(self).inv(old(tcx)),
        ensures
            final(self).inv(final(tcx)),
            (final(self).view(final(tcx)), t) == after_exp(old(self).view(old(tcx)), *exp),
            final(tcx)@.valid(t),
            old(tcx)@.extended_by(final(tcx)@),
        decreases exp, 0nat,
    {
        let span = exp.span();
        let int_ty = tcx.common().integer();
        let t = match &exp.node {
            Exp::Int(_) => {
                let t = self.fresh(tcx);
                self.unify(tcx, t, int_ty, span);
                t
            },
            Exp::Identifier(name) => self.resolve(tcx, &name.node, span),
            Exp::Unary(_, operand) => {
                let t = self.infer_exp(tcx, &**operand);
                self.unify(tcx, t, int_ty, span);
                int_ty
            },
            Exp::Binary(lhs, _, rhs) => {
                let tl = self.infer_exp(tcx, &**lhs);
                self.unify(tcx, tl, int_ty, span);
                let tr = self.infer_exp(tcx, &**rhs);
                self.unify(tcx, tr, int_ty, span);
                int_ty
            },
            Exp::Input => int_ty,
            Exp::Call(callee, args) => {
                let ts = self.infer_exps(tcx, args);
                let ret = self.fresh(tcx);
                let ghost mid = tcx@;
                let tc = self.infer_exp(tcx, &**callee);
                let kind = TyKind::Function(ts, ret);
                proof {
                    assert forall|i: int| 0 <= i < kind@.children().len() implies 0 <= (
                    #[trigger] kind@.children()[i]).idx() < tcx@.kinds.len() by {
                        if i < ts@.len() {
                            assert(mid.valid(ts@[i]));
                        }
                    }
                }
                let f = self.intern(tcx, kind);
                self.unify(tcx, tc, f, span);
                ret
            },
            Exp::Alloc(init) => {
                let t = self.infer_exp(tcx, &**init);
                let kind = TyKind::Pointer(t);
                proof {
                    assert(kind@.children() =~= seq![t]);
                }
                self.intern(tcx, kind)
            },
            Exp::Pointer(name) => {
                let t = self.resolve(tcx, &name.node, span);
                let kind = TyKind::Pointer(t);
                proof {
                    assert(kind@.children() =~= seq![t]);
                }
                self.intern(tcx, kind)
            },
            Exp::Dereference(target) => {
                let t = self.infer_exp(tcx, &**target);
                let inner = self.fresh(tcx);
                let kind = TyKind::Pointer(inner);
                proof {
                    assert(kind@.children() =~= seq![inner]);
                }
                let pointer = self.intern(tcx, kind);
                self.unify(tcx, t, pointer, span);
                inner
            },
            Exp::Null => self.fresh(tcx),
            Exp::Record(fields) => {
                let typed = self.infer_fields(tcx, fields);
                self.intern(tcx, TyKind::Record(typed))
            },
            Exp::Field(target, name) => {
                let t = self.infer_exp(tcx, &**target);
                self.select(tcx, t, &name.node, span)
            },
        };
        self.record_exp_ty(tcx, exp.id, t);
        t
    }

    /// Infers the expressions `exps` in order and returns their types.
    fn infer_exps(&mut self, tcx: &mut TyCtxt, exps: &Vec<AstExp>) -> (ts: Vec<Ty>)
        requires
            old(self).inv(old(tcx)),
        ensures
            final(self).inv(final(tcx)),
            (final(self).view(final(tcx)), ts@) == after_exps(
                old(self).view(old(tcx)),
                exps@,
                0,
                Seq::empty(),
            ),
            forall|i: int| 0 <= i < ts@.len() ==> final(tcx)@.valid(#[trigger] ts@[i]),
            old(tcx)@.extended_by(final(tcx)@),
        decreases exps, 1nat,
    {
        let ghost goal = after_exps(self.view(tcx), exps@, 0, Seq::empty());
        let ghost first = tcx@;
        let mut ts: Vec<Ty> = Vec::new();
        let mut i: usize = 0;
        while i < exps.len()
            invariant
                i <= exps.len(),
                self.inv(tcx),
                after_exps(self.view(tcx), exps@, i as int, ts@) == goal,
                forall|k: int| 0 <= k < ts@.len() ==> tcx@.valid(#[trigger] ts@[k]),
                first.extended_by(tcx@),
            decreases exps.len() - i,
        {
            let t = self.infer_exp(tcx, &exps[i]);
            ts.push(t);
            i += 1;
        }
        ts
    }

    /// Infers the values of the record fields `fields` in order and returns
    /// the fields of the record's type.
    #[verifier::rlimit(50)]
    fn infer_fields(&mut self, tcx: &mut TyCtxt, fields: &Vec<AstField>) -> (typed: Vec<
        (String, Ty),
    >)
        requires
            old(self).inv(old(tcx)),
        ensures
            final(self).inv(final(tcx)),
            (final(self).view(final(tcx)), fields_view(typed@)) == after_fields(
                old(self).view(old(tcx)),
                fields@,
                0,
                Seq::empty(),
            ),
            final(tcx)@.admits(TyKind::Record(typed)@),
            old(tcx)@.extended_by(final(tcx)@),
        decreases fields, 1nat,
    {
        let ghost goal = after_fields(self.view(tcx), fields@, 0, Seq::empty());
        let ghost first = tcx@;
        let mut typed: Vec<(String, Ty)> = Vec::new();
        let mut i: usize = 0;
        assert(fields_view(typed@) =~= Seq::empty());
        while i < fields.len()
            invariant
                i <= fields.len(),
                self.inv(tcx),
                after_fields(self.view(tcx), fields@, i as int, fields_view(typed@)) == goal,
                forall|k: int| 0 <= k < typed@.len() ==> tcx@.valid((#[trigger] typed@[k]).1),
                forall|a: int, b: int|
                    #![trigger fields_view(typed@)[a], fields_view(typed@)[b]]
                    0 <= a < b < typed@.len() ==> fields_view(typed@)[a].0 != fields_view(
                        typed@,
                    )[b].0,
                first.extended_by(tcx@),
            decreases fields.len() - i,
        {
            let field = &fields[i];
            let t = self.infer_exp(tcx, &*field.node.value);
            let name = &field.node.name.node;
            if field_index(&typed, name).is_some() {
                self.report(tcx, InferenceError::DuplicateDeclaration(name.clone()), field.span());
            } else {
                let ghost before = fields_view(typed@);
                typed.push((name.clone(), t));
                proof {
                    let now = fields_view(typed@);
                    assert(now =~= before.push((name@, t)));
                    assert forall|a: int, b: int| 0 <= a < b < now.len() implies now[a].0
                        != now[b].0 by {
                        assert(now[a] == before[a]);
                        if b == now.len() - 1 {
                            assert(now[b] == (name@, t));
                            assert(!has_field(before, name@));
                            assert(before[a].0 != name@);
                        } else {
                            assert(now[b] == before[b]);
                        }
                    }
                }
            }
            i += 1;
        }
        proof {
            let kind = TyKind::Record(typed)@;
            assert forall|k: int| 0 <= k < kind.children().len() implies 0 <= (
            #[trigger] kind.children()[k]).idx() < tcx@.kinds.len() by {
                let _ = typed@[k];
            }
        }
        typed
    }

    /// Infers the statement `stm`.
    #[verifier::rlimit(50)]
    fn infer_stm(&mut self, tcx: &mut TyCtxt, stm: &AstStm)
        requires
            old(self).inv(old(tcx)),
        ensures
            final(self).inv(final(tcx)),
            final(self).view(final(tcx)) == after_stm(old(self).view(old(tcx)), *stm),
            old(tcx)@.extended_by(final(tcx)@),
        decreases stm, 0nat,
    {
        let span = stm.span();
        let int_ty = tcx.common().integer();
        match &stm.node {
            Stm::IdentifierAssign(name, value) => {
                let tn = self.resolve(tcx, &name.node, name.span());
                let tv = self.infer_exp(tcx, value);
                self.unify(tcx, tn, tv, span);
            },
            Stm::PointerAssign(target, value) => {
                let tt = self.infer_exp(tcx, target);
                let tv = self.infer_exp(tcx, value);
                let kind = TyKind::Pointer(tv);
                proof {
                    assert(kind@.children() =~= seq![tv]);
                }
                let pointer = self.intern(tcx, kind);
                self.unify(tcx, tt, pointer, span);
            },
            Stm::FieldAssign(record, field, value) => {
                let tr = self.resolve(tcx, &record.node, record.span());
                let tf = self.select(tcx, tr, &field.node, span);
                let tv = self.infer_exp(tcx, value);
                self.unify(tcx, tf, tv, span);
            },
            Stm::DereferenceFieldAssign(target, field, value) => {
                let tt = self.infer_exp(tcx, target);
                let inner = self.fresh(tcx);
                let kind = TyKind::Pointer(inner);
                proof {
                    assert(kind@.children() =~= seq![inner]);
                }
                let pointer = self.intern(tcx, kind);
                self.unify(tcx, tt, pointer, span);
                let tf = self.select(tcx, inner, &field.node, span);
                let tv = self.infer_exp(tcx, value);
                self.unify(tcx, tf, tv, span);
            },
            Stm::Output(value) => {
                let t = self.infer_exp(tcx, value);
                self.unify(tcx, t, int_ty, span);
            },
            Stm::If(cond, then, otherwise) => {
                let t = self.infer_exp(tcx, cond);
                self.unify(tcx, t, int_ty, span);
                self.infer_stms(tcx, then);
                match otherwise {
                    Some(stms) => {
                        self.infer_stms(tcx, stms);
                    },
                    None => {},
                }
            },
            Stm::While(cond, body) => {
                let t = self.infer_exp(tcx, cond);
                self.unify(tcx, t, int_ty, span);
                self.infer_stms(tcx, body);
            },
        }
    }

    /// Infers the statements `stms` in order.
    fn infer_stms(&mut self, tcx: &mut TyCtxt, stms: &Vec<AstStm>)
        requires
            old(self).inv(old(tcx)),
        ensures
            final(self).inv(final(tcx)),
            final(self).view(final(tcx)) == after_stms(old(self).view(old(tcx)), stms@, 0),
            old(tcx)@.extended_by(final(tcx)@),
        decreases stms, 1nat,
    {
        let ghost goal = after_stms(self.view(tcx), stms@, 0);
        let ghost first = tcx@;
        let mut i: usize = 0;
        while i < stms.len()
            invariant
                i <= stms.len(),
                self.inv(tcx),
                after_stms(self.view(tcx), stms@, i as int) == goal,
                first.extended_by(tcx@),
            decreases stms.len() - i,
        {
            self.infer_stm(tcx, &stms[i]);
            i += 1;
        }
    }

    /// Declares the parameters `names` with the types `types`.
    fn add_params(&mut self, tcx: &TyCtxt, names: &Vec<AstString>, types: &Vec<Ty>)
        requires
            old(self).inv(tcx),
            names@.len() == types@.len(),
            forall|k: int| 0 <= k < types@.len() ==> tcx@.valid(#[trigger] types@[k]),
        ensures
            final(self).inv(tcx),
            final(self).view(tcx) == after_params(old(self).view(tcx), names@, types@, 0),
    {
        let ghost goal = after_params(self.view(tcx), names@, types@, 0);
        let mut i: usize = 0;
        while i < names.len()
            invariant
                i <= names.len(),
                names@.len() == types@.len(),
                forall|k: int| 0 <= k < types@.len() ==> tcx@.valid(#[trigger] types@[k]),
                self.inv(tcx),
                after_params(self.view(tcx), names@, types@, i as int) == goal,
            decreases names.len() - i,
        {
            self.declare(tcx, &names[i].node, types[i], names[i].span());
            i += 1;
        }
    }

    /// Declares the local variables `names`, each with a fresh type.
    fn add_names(&mut self, tcx: &mut TyCtxt, names: &Vec<AstString>)
        requires
            old(self).inv(old(tcx)),
        ensures
            final(self).inv(final(tcx)),
            final(self).view(final(tcx)) == after_vars(old(self).view(old(tcx)), names@, 0),
            old(tcx)@.extended_by(final(tcx)@),
    {
        let ghost goal = after_vars(self.view(tcx), names@, 0);
        let ghost first = tcx@;
        let mut i: usize = 0;
        while i < names.len()
            invariant
                i <= names.len(),
                self.inv(tcx),
                after_vars(self.view(tcx), names@, i as int) == goal,
                first.extended_by(tcx@),
            decreases names.len() - i,
        {
            let t = self.fresh(tcx);
            self.declare(tcx, &names[i].node, t, names[i].span());
            i += 1;
        }
    }

    /// Infers the body of the function `fun`, whose signature is `sig`.
    fn infer_fun(&mut self, tcx: &mut TyCtxt, fun: &AstFun, sig: &FunSig)
        requires
            old(self).inv(old(tcx)),
            sig.within(old(tcx)@),
            sig.params@.len() == fun.node.params@.len(),
        ensures
            final(self).inv(final(tcx)),
            final(self).view(final(tcx)) == after_fun(old(self).view(old(tcx)), *fun, sig@),
            old(tcx)@.extended_by(final(tcx)@),
    {
        self.enter(tcx);
        self.add_params(tcx, &fun.node.params, &sig.params);
        self.add_names(tcx, &fun.node.vars);
        self.infer_stms(tcx, &fun.node.stms);
        let t = self.infer_exp(tcx, &fun.node.return_);
        self.unify(tcx, t, sig.ret, fun.node.return_.span());
        self.leave(tcx);
    }

    /// `n` fresh variables.
    fn fresh_many(&self, tcx: &mut TyCtxt, n: usize) -> (ts: Vec<Ty>)
        requires
            self.inv(old(tcx)),
        ensures
            self.inv(final(tcx)),
            (self.view(final(tcx)), ts@) == self.view(old(tcx)).fresh_many(n as nat, Seq::empty()),
            ts@.len() == n,
            forall|k: int| 0 <= k < ts@.len() ==> final(tcx)@.valid(#[trigger] ts@[k]),
            old(tcx)@.extended_by(final(tcx)@),
    {
        let ghost goal = self.view(tcx).fresh_many(n as nat, Seq::empty());
        let ghost first = tcx@;
        let mut ts: Vec<Ty> = Vec::new();
        let mut i: usize = 0;
        while i < n
            invariant
                i <= n,
                ts@.len() == i,
                self.inv(tcx),
                self.view(tcx).fresh_many((n - i) as nat, ts@) == goal,
                forall|k: int| 0 <= k < ts@.len() ==> tcx@.valid(#[trigger] ts@[k]),
                first.extended_by(tcx@),
            decreases n - i,
        {
            let t = self.fresh(tcx);
            ts.push(t);
            i += 1;
        }
        ts
    }

    /// Gives every function of `funs` a signature of fresh variables and
    /// declares it with the function type made of them.
    #[verifier::rlimit(50)]
    fn declare_funs(&mut self, tcx: &mut TyCtxt, funs: &Vec<AstFun>) -> (sigs: Vec<FunSig>)
        requires
            old(self).inv(old(tcx)),
        ensures
            final(self).inv(final(tcx)),
            (final(self).view(final(tcx)), sigs_view(sigs@)) == after_signatures(
                old(self).view(old(tcx)),
                funs@,
                0,
                Seq::empty(),
            ),
            sigs_fit(sigs@, funs@, final(tcx)@),
            old(tcx)@.extended_by(final(tcx)@),
    {
        let ghost goal = after_signatures(self.view(tcx), funs@, 0, Seq::empty());
        let ghost first = tcx@;
        let mut sigs: Vec<FunSig> = Vec::new();
        let mut i: usize = 0;
        assert(sigs_view(sigs@) =~= Seq::empty());
        while i < funs.len()
            invariant
                i <= funs.len(),
                sigs@.len() == i,
                self.inv(tcx),
                after_signatures(self.view(tcx), funs@, i as int, sigs_view(sigs@)) == goal,
                forall|k: int|
                    0 <= k < sigs@.len() ==> (#[trigger] sigs@[k]).within(tcx@)
                        && sigs@[k].params@.len() == funs@[k].node.params@.len(),
                first.extended_by(tcx@),
            decreases funs.len() - i,
        {
            let fun = &funs[i];
            let params = self.fresh_many(tcx, fun.node.params.len());
            let ret = self.fresh(tcx);
            let ghost mid = tcx@;
            let mut copy: Vec<Ty> = Vec::new();
            let mut k: usize = 0;
            while k < params.len()
                invariant
                    k <= params.len(),
                    copy@ == params@.subrange(0, k as int),
                decreases params.len() - k,
            {
                copy.push(params[k]);
                k += 1;
                assert(copy@ =~= params@.subrange(0, k as int));
            }
            assert(copy@ =~= params@);
            let kind = TyKind::Function(copy, ret);
            proof {
                assert forall|j: int| 0 <= j < kind@.children().len() implies 0 <= (
                #[trigger] kind@.children()[j]).idx() < tcx@.kinds.len() by {
                    if j < params@.len() {
                        assert(mid.valid(params@[j]));
                    }
                }
            }
            let f = self.intern(tcx, kind);
            self.declare(tcx, &fun.node.name.node, f, fun.node.name.span());
            let ghost before = sigs@;
            let sig = FunSig { params, ret };
            sigs.push(sig);
            proof {
                assert(sigs_view(sigs@) =~= sigs_view(before).push(sig@));
                assert forall|k: int| 0 <= k < sigs@.len() implies (#[trigger] sigs@[k]).within(
                    tcx@,
                ) && sigs@[k].params@.len() == funs@[k].node.params@.len() by {
                    if k < before.len() {
                        assert(sigs@[k] == before[k]);
                        assert(before[k].within(mid));
                        lemma_sig_within(before[k], mid, tcx@);
                    } else {
                        assert(sigs@[k] == sig);
                    }
                }
            }
            i += 1;
        }
        sigs
    }

    /// Infers the bodies of the functions `funs`, whose signatures are `sigs`.
    fn infer_funs(&mut self, tcx: &mut TyCtxt, funs: &Vec<AstFun>, sigs: &Vec<FunSig>)
        requires
            old(self).inv(old(tcx)),
            sigs_fit(sigs@, funs@, old(tcx)@),
        ensures
            final(self).inv(final(tcx)),
            final(self).view(final(tcx)) == after_funs(
                old(self).view(old(tcx)),
                funs@,
                sigs_view(sigs@),
                0,
            ),
            old(tcx)@.extended_by(final(tcx)@),
    {
        let ghost goal = after_funs(self.view(tcx), funs@, sigs_view(sigs@), 0);
        let ghost first = tcx@;
        let mut i: usize = 0;
        while i < funs.len()
            invariant
                i <= funs.len(),
                self.inv(tcx),
                sigs_fit(sigs@, funs@, first),
                after_funs(self.view(tcx), funs@, sigs_view(sigs@), i as int) == goal,
                first.extended_by(tcx@),
            decreases funs.len() - i,
        {
            proof {
                lemma_sig_within(sigs@[i as int], first, tcx@);
            }
            self.infer_fun(tcx, &funs[i], &sigs[i]);
            i += 1;
        }
    }

    /// Infers the program `prog`.
    fn infer_prog(&mut self, tcx: &mut TyCtxt, prog: &AstProg)
        requires
            old(self).inv(old(tcx)),
        ensures
            final(self).inv(final(tcx)),
            final(self).view(final(tcx)) == after_prog(old(self).view(old(tcx)), *prog),
            old(tcx)@.extended_by(final(tcx)@),
    {
        let sigs = self.declare_funs(tcx, &prog.node.funs);
        self.infer_funs(tcx, &prog.node.funs, &sigs);
    }
}

/// The parameter types and the return type that stand for a function while
/// its program is inferred.
struct FunSig {
    params: Vec<Ty>,
    ret: Ty,
}

impl View for FunSig {
    type V = Signature;

    closed spec fn view(&self) -> Signature {
        Signature { params: self.params@, ret: self.ret }
    }
}

impl FunSig {
    /// All types of the signature are handles of `arena`.
    spec fn within(&self, arena: Arena) -> bool {
        &&& arena.valid(self.ret)
        &&& forall|k: int| 0 <= k < self.params@.len() ==> arena.valid(#[trigger] self.params@[k])
    }
}

/// The signatures as mathematical values.
spec fn sigs_view(sigs: Seq<FunSig>) -> Seq<Signature> {
    Seq::new(sigs.len(), |k: int| sigs[k]@)
}

/// There is one signature for each function, with one type for each of its
/// parameters, all handles of `arena`.
spec fn sigs_fit(sigs: Seq<FunSig>, funs: Seq<AstFun>, arena: Arena) -> bool {
    &&& sigs.len() == funs.len()
    &&& forall|k: int|
        0 <= k < sigs.len() ==> (#[trigger] sigs[k]).within(arena) && sigs[k].params@.len()
            == funs[k].node.params@.len()
}

/// A signature of handles of an arena is one of every arena that extends it.
proof fn lemma_sig_within(sig: FunSig, a: Arena, b: Arena)
    requires
        sig.within(a),
        a.extended_by(b),
    ensures
        sig.within(b),
{
    assert forall|k: int| 0 <= k < sig.params@.len() implies b.valid(
        #[trigger] sig.params@[k],
    ) by {
        assert(a.valid(sig.params@[k]));
    }
}

/// What inference found: the type of every expression, by the expression's
/// identity; the problems, in the order in which they were found; and the
/// solver, which knows for each type the representative of its class.
pub struct InferenceResult {
    pub expr_to_ty: RefMap,
    pub diagnostics: Vec<Diagnostic<InferenceError>>,
    pub solver: UnionFindSolver,
}

impl InferenceResult {
    /// The problem that was found first, if any was found: what an inference
    /// that stops at the first problem would report.
    pub fn first_problem(&self) -> (first: Option<&Diagnostic<InferenceError>>)
        ensures
            match first {
                Some(diagnostic) => self.diagnostics@.len() > 0 && *diagnostic
                    == self.diagnostics@[0],
                None => self.diagnostics@.len() == 0,
            },
    {
        if self.diagnostics.len() > 0 {
            Some(&self.diagnostics[0])
        } else {
            None
        }
    }

    /// What is known of the type of the expression with identity `id`: the
    /// description of the representative of the type recorded for it.
    pub fn type_of<'a>(&mut self, tcx: &'a TyCtxt, id: u64) -> (kind: Option<&'a TyKind>)
        requires
            old(self).solver.wf(),
            old(self).solver@.len() <= tcx@.kinds.len(),
            types_within(old(self).expr_to_ty@, tcx@),
        ensures
            final(self).solver.wf(),
            final(self).solver@ == old(self).solver@,
            final(self).expr_to_ty@ == old(self).expr_to_ty@,
            final(self).diagnostics@ == old(self).diagnostics@,
            match kind {
                Some(k) => old(self).expr_to_ty@.contains_key(id) && k@ == tcx@.shape(
                    rep(old(self).solver@, old(self).expr_to_ty@[id]),
                ),
                None => !old(self).expr_to_ty@.contains_key(id),
            },
    {
        match self.expr_to_ty.get(id) {
            Some(t) => Some(self.solver.resolve(tcx, t)),
            None => None,
        }
    }
}

/// Infers the types of the program `prog`, with types made in `tcx`.
///
/// Every function is declared first, so that each can be called from any
/// body; then the bodies are inferred in order. A type that cannot be
/// unified, a name that is not declared and a name that is declared twice are
/// noted, and inference goes on.
///
/// The solver that is returned is coherent: a class of it stands for one
/// type. Unless a type mismatch is among the diagnostics, every two types
/// that the program forces to be equal are in one class of it.
pub fn infer(tcx: &mut TyCtxt, prog: &AstProg) -> (result: InferenceResult)
    requires
        old(tcx).wf(),
    ensures
        final(tcx).wf(),
        final(tcx).int_ty() == old(tcx).int_ty(),
        old(tcx)@.extended_by(final(tcx)@),
        result.solver.wf(),
        ({
            let done = after_prog(State::initial(old(tcx)@, old(tcx).int_ty()), *prog);
            &&& done.wf()
            &&& final(tcx)@ == done.arena
            &&& result.solver@ == done.roots
            &&& result.expr_to_ty@ == done.types
            &&& problems_of(result.diagnostics@) == done.problems
            &&& coherent(final(tcx)@, result.solver@)
            &&& no_mismatch(problems_of(result.diagnostics@)) ==> all_joined(
                result.solver@,
                done.asked,
            )
        }),
{
    let mut cx = InferenceContext::new(tcx);
    cx.infer_prog(tcx, prog);
    InferenceResult { expr_to_ty: cx.expr_to_ty, diagnostics: cx.diagnostics, solver: cx.solver }
}

} // verus!
