//! Types written out in full, and what substitution means for them.

use crate::context::Arena;
use crate::context::lemma_intern_extends;
use crate::context::lemma_intern_wf;
use crate::subst::substituted;
use crate::subst::substituted_all;
use crate::subst::substituted_fields;
use crate::subst::substituted_kind;
use crate::ty::FreshVarId;
use crate::ty::Shape;
use crate::ty::Ty;
use crate::ty::VarId;
use vstd::prelude::*;

verus! {

/// A type written out in full: its sub-terms are types, not handles.
pub ghost enum Term {
    Int,
    Function(Seq<Term>, Box<Term>),
    Pointer(Box<Term>),
    Record(Seq<(Seq<char>, Term)>),
    AbsentField,
    Var(VarId),
    FreshVar(FreshVarId),
    Recursive(VarId, Box<Term>),
}

/// The type that the handle `t` stands for in `a`, written out in full.
pub open spec fn term_of(a: Arena, t: Ty) -> Term
    decreases t.idx(), 1nat,
{
    if 0 <= t.idx() < a.kinds.len() {
        term_of_shape(a, a.shape(t), t.idx())
    } else {
        Term::AbsentField
    }
}

/// The shape `k`, whose sub-terms stand before `bound` in `a`, written out in
/// full.
pub open spec fn term_of_shape(a: Arena, k: Shape, bound: int) -> Term
    decreases bound, 0nat,
{
    match k {
        Shape::Int => Term::Int,
        Shape::AbsentField => Term::AbsentField,
        Shape::Var(v) => Term::Var(v),
        Shape::FreshVar(v) => Term::FreshVar(v),
        Shape::Pointer(inner) => Term::Pointer(
            Box::new(
                if 0 <= inner.idx() < bound {
                    term_of(a, inner)
                } else {
                    Term::AbsentField
                },
            ),
        ),
        Shape::Recursive(v, body) => Term::Recursive(
            v,
            Box::new(
                if 0 <= body.idx() < bound {
                    term_of(a, body)
                } else {
                    Term::AbsentField
                },
            ),
        ),
        Shape::Function(params, ret) => Term::Function(
            Seq::new(
                params.len(),
                |i: int|
                    if 0 <= i < params.len() && 0 <= params[i].idx() < bound {
                        term_of(a, params[i])
                    } else {
                        Term::AbsentField
                    },
            ),
            Box::new(
                if 0 <= ret.idx() < bound {
                    term_of(a, ret)
                } else {
                    Term::AbsentField
                },
            ),
        ),
        Shape::Record(fields) => Term::Record(
            Seq::new(
                fields.len(),
                |i: int|
                    if 0 <= i < fields.len() && 0 <= fields[i].1.idx() < bound {
                        (fields[i].0, term_of(a, fields[i].1))
                    } else {
                        (fields[i].0, Term::AbsentField)
                    },
            ),
        ),
    }
}

/// The term `t` with `to` in place of the variable `from`, except below a
/// binder of `from`.
pub open spec fn subst_term(t: Term, from: VarId, to: Term) -> Term
    decreases t,
{
    match t {
        Term::Var(v) => if v == from {
            to
        } else {
            t
        },
        Term::Recursive(v, body) => if v == from {
            t
        } else {
            Term::Recursive(v, Box::new(subst_term(*body, from, to)))
        },
        Term::Pointer(inner) => Term::Pointer(Box::new(subst_term(*inner, from, to))),
        Term::Function(params, ret) => Term::Function(
            Seq::new(
                params.len(),
                |i: int|
                    if 0 <= i < params.len() {
                        subst_term(params[i], from, to)
                    } else {
                        Term::AbsentField
                    },
            ),
            Box::new(subst_term(*ret, from, to)),
        ),
        Term::Record(fields) => Term::Record(
            Seq::new(
                fields.len(),
                |i: int|
                    if 0 <= i < fields.len() {
                        (fields[i].0, subst_term(fields[i].1, from, to))
                    } else {
                        (fields[i].0, Term::AbsentField)
                    },
            ),
        ),
        _ => t,
    }
}

/// A handle stands for the same type in every arena that extends its own.
pub proof fn lemma_term_stable(a: Arena, b: Arena, t: Ty)
    requires
        a.extended_by(b),
        a.valid(t),
    ensures
        term_of(b, t) == term_of(a, t),
    decreases t.idx(), 1nat,
{
    lemma_shape_stable(a, b, a.shape(t), t.idx());
}

/// A shape whose sub-terms are handles of an arena stands for the same type
/// in every arena that extends it.
#[verifier::rlimit(50)]
pub proof fn lemma_shape_stable(a: Arena, b: Arena, k: Shape, bound: int)
    requires
        a.extended_by(b),
        bound <= a.kinds.len(),
    ensures
        term_of_shape(b, k, bound) == term_of_shape(a, k, bound),
    decreases bound, 0nat,
{
    match k {
        Shape::Pointer(inner) => {
            if 0 <= inner.idx() < bound {
                lemma_term_stable(a, b, inner);
            }
        },
        Shape::Recursive(_, body) => {
            if 0 <= body.idx() < bound {
                lemma_term_stable(a, b, body);
            }
        },
        Shape::Function(params, ret) => {
            if 0 <= ret.idx() < bound {
                lemma_term_stable(a, b, ret);
            }
            assert forall|i: int| 0 <= i < params.len() && 0 <= params[i].idx() < bound implies term_of(
                b,
                #[trigger] params[i],
            ) == term_of(a, params[i]) by {
                lemma_term_stable(a, b, params[i]);
            }
            assert(term_of_shape(b, k, bound)->Function_0 =~= term_of_shape(
                a,
                k,
                bound,
            )->Function_0);
        },
        Shape::Record(fields) => {
            assert forall|i: int| 0 <= i < fields.len() && 0 <= fields[i].1.idx() < bound implies term_of(
                b,
                (#[trigger] fields[i]).1,
            ) == term_of(a, fields[i].1) by {
                lemma_term_stable(a, b, fields[i].1);
            }
            assert(term_of_shape(b, k, bound)->Record_0 =~= term_of_shape(a, k, bound)->Record_0);
        },
        _ => {},
    }
}

/// What a shape stands for does not depend on the bound, as long as its
/// sub-terms stand before it.
pub proof fn lemma_shape_bound(a: Arena, k: Shape, low: int, high: int)
    requires
        forall|i: int|
            0 <= i < k.children().len() ==> 0 <= (#[trigger] k.children()[i]).idx() < low,
        low <= high,
    ensures
        term_of_shape(a, k, low) == term_of_shape(a, k, high),
{
    match k {
        Shape::Pointer(inner) => {
            assert(k.children()[0] == inner);
        },
        Shape::Recursive(_, body) => {
            assert(k.children()[0] == body);
        },
        Shape::Function(params, ret) => {
            assert(k.children()[params.len() as int] == ret);
            assert forall|i: int| 0 <= i < params.len() implies 0 <= (#[trigger] params[i]).idx()
                < low by {
                assert(k.children()[i] == params[i]);
            }
            assert(term_of_shape(a, k, low)->Function_0 =~= term_of_shape(
                a,
                k,
                high,
            )->Function_0);
        },
        Shape::Record(fields) => {
            assert forall|i: int| 0 <= i < fields.len() implies 0 <= (#[trigger] fields[i]).1.idx()
                < low by {
                assert(k.children()[i] == fields[i].1);
            }
            assert(term_of_shape(a, k, low)->Record_0 =~= term_of_shape(a, k, high)->Record_0);
        },
        _ => {},
    }
}

/// Extension of arenas is transitive.
pub proof fn lemma_extended_trans(a: Arena, b: Arena, c: Arena)
    requires
        a.extended_by(b),
        b.extended_by(c),
    ensures
        a.extended_by(c),
{
}

/// Substitution only ever appends to the arena and mints no variable.
pub proof fn lemma_substituted_extends(a: Arena, t: Ty, from: VarId, to: Ty)
    ensures
        a.extended_by(substituted(a, t, from, to).0),
        substituted(a, t, from, to).0.next_var == a.next_var,
    decreases t.idx(), 2nat, 0nat,
{
    if 0 <= t.idx() {
        lemma_substituted_kind_extends(a, a.shape(t), t.idx(), from, to);
    }
}

/// Substitution in a shape only ever appends to the arena and mints no
/// variable.
#[verifier::rlimit(50)]
pub proof fn lemma_substituted_kind_extends(a: Arena, k: Shape, bound: int, from: VarId, to: Ty)
    ensures
        a.extended_by(substituted_kind(a, k, bound, from, to).0),
        substituted_kind(a, k, bound, from, to).0.next_var == a.next_var,
    decreases bound, 1nat, 0nat,
{
    match k {
        Shape::Var(v) => {
            lemma_intern_extends(a, k);
        },
        Shape::Recursive(v, body) => {
            if v != from && 0 <= body.idx() < bound {
                lemma_substituted_extends(a, body, from, to);
                let (b, t) = substituted(a, body, from, to);
                lemma_intern_extends(b, Shape::Recursive(v, t));
                lemma_extended_trans(a, b, b.intern(Shape::Recursive(v, t)).0);
            } else {
                lemma_intern_extends(a, k);
            }
        },
        Shape::Pointer(inner) => {
            if 0 <= inner.idx() < bound {
                lemma_substituted_extends(a, inner, from, to);
                let (b, t) = substituted(a, inner, from, to);
                lemma_intern_extends(b, Shape::Pointer(t));
                lemma_extended_trans(a, b, b.intern(Shape::Pointer(t)).0);
            } else {
                lemma_intern_extends(a, k);
            }
        },
        Shape::Function(params, ret) => {
            lemma_substituted_all_extends(a, params, bound, 0, Seq::empty(), from, to);
            let (b, ps) = substituted_all(a, params, bound, 0, Seq::empty(), from, to);
            if 0 <= ret.idx() < bound {
                lemma_substituted_extends(b, ret, from, to);
                let (c, r) = substituted(b, ret, from, to);
                lemma_intern_extends(c, Shape::Function(ps, r));
                lemma_extended_trans(a, b, c);
                lemma_extended_trans(a, c, c.intern(Shape::Function(ps, r)).0);
            } else {
                lemma_intern_extends(b, Shape::Function(ps, ret));
                lemma_extended_trans(a, b, b.intern(Shape::Function(ps, ret)).0);
            }
        },
        Shape::Record(fields) => {
            lemma_substituted_fields_extends(a, fields, bound, 0, Seq::empty(), from, to);
            let (b, fs) = substituted_fields(a, fields, bound, 0, Seq::empty(), from, to);
            lemma_intern_extends(b, Shape::Record(fs));
            lemma_extended_trans(a, b, b.intern(Shape::Record(fs)).0);
        },
        _ => {
            lemma_intern_extends(a, k);
        },
    }
}

/// Substitution in a list of types only ever appends to the arena, mints no
/// variable, and yields one handle for each type.
pub proof fn lemma_substituted_all_extends(
    a: Arena,
    ts: Seq<Ty>,
    bound: int,
    i: int,
    acc: Seq<Ty>,
    from: VarId,
    to: Ty,
)
    requires
        0 <= i <= ts.len(),
    ensures
        a.extended_by(substituted_all(a, ts, bound, i, acc, from, to).0),
        substituted_all(a, ts, bound, i, acc, from, to).0.next_var == a.next_var,
        substituted_all(a, ts, bound, i, acc, from, to).1.len() == acc.len() + ts.len() - i,
        forall|j: int|
            0 <= j < acc.len() ==> substituted_all(a, ts, bound, i, acc, from, to).1[j] == acc[j],
    decreases bound, 0nat, ts.len() - i,
{
    if i < ts.len() {
        if 0 <= ts[i].idx() < bound {
            lemma_substituted_extends(a, ts[i], from, to);
            let (b, t) = substituted(a, ts[i], from, to);
            lemma_substituted_all_extends(b, ts, bound, i + 1, acc.push(t), from, to);
            lemma_extended_trans(
                a,
                b,
                substituted_all(b, ts, bound, i + 1, acc.push(t), from, to).0,
            );
            assert forall|j: int| 0 <= j < acc.len() implies substituted_all(
                a,
                ts,
                bound,
                i,
                acc,
                from,
                to,
            ).1[j] == acc[j] by {
                assert(acc.push(t)[j] == acc[j]);
            }
        } else {
            lemma_substituted_all_extends(a, ts, bound, i + 1, acc.push(ts[i]), from, to);
            assert forall|j: int| 0 <= j < acc.len() implies substituted_all(
                a,
                ts,
                bound,
                i,
                acc,
                from,
                to,
            ).1[j] == acc[j] by {
                assert(acc.push(ts[i])[j] == acc[j]);
            }
        }
    }
}

/// Substitution in the fields of a record only ever appends to the arena,
/// mints no variable, and yields one field for each field, of the same name.
pub proof fn lemma_substituted_fields_extends(
    a: Arena,
    fields: Seq<(Seq<char>, Ty)>,
    bound: int,
    i: int,
    acc: Seq<(Seq<char>, Ty)>,
    from: VarId,
    to: Ty,
)
    requires
        0 <= i <= fields.len(),
    ensures
        a.extended_by(substituted_fields(a, fields, bound, i, acc, from, to).0),
        substituted_fields(a, fields, bound, i, acc, from, to).0.next_var == a.next_var,
        substituted_fields(a, fields, bound, i, acc, from, to).1.len() == acc.len() + fields.len()
            - i,
        forall|j: int|
            0 <= j < acc.len() ==> substituted_fields(a, fields, bound, i, acc, from, to).1[j]
                == acc[j],
        forall|j: int|
            i <= j < fields.len() ==> substituted_fields(a, fields, bound, i, acc, from, to).1[acc.len()
                + j - i].0 == (#[trigger] fields[j]).0,
    decreases bound, 0nat, fields.len() - i,
{
    if i < fields.len() {
        let (b, next) = if 0 <= fields[i].1.idx() < bound {
            lemma_substituted_extends(a, fields[i].1, from, to);
            let (b, t) = substituted(a, fields[i].1, from, to);
            (b, acc.push((fields[i].0, t)))
        } else {
            (a, acc.push(fields[i]))
        };
        lemma_substituted_fields_extends(b, fields, bound, i + 1, next, from, to);
        let out = substituted_fields(b, fields, bound, i + 1, next, from, to);
        lemma_extended_trans(a, b, out.0);
        assert forall|j: int| 0 <= j < acc.len() implies out.1[j] == acc[j] by {
            assert(next[j] == acc[j]);
        }
        assert forall|j: int| i <= j < fields.len() implies out.1[acc.len() + j - i].0 == (
        #[trigger] fields[j]).0 by {
            if j == i {
                assert(out.1[acc.len() as int] == next[acc.len() as int]);
            }
        }
    }
}

/// The handle that interning gives a shape stands for the shape written out
/// in full.
#[verifier::rlimit(50)]
pub proof fn lemma_interned_term(b: Arena, k: Shape)
    requires
        b.wf(),
        b.admits(k),
        b.intern(k).0.kinds.len() <= usize::MAX,
    ensures
        ({
            let (c, h) = b.intern(k);
            let t = Ty { interned: h as usize };
            &&& c.wf()
            &&& b.extended_by(c)
            &&& c.next_var == b.next_var
            &&& c.valid(t)
            &&& term_of(c, t) == term_of_shape(b, k, b.kinds.len() as int)
        }),
{
    lemma_intern_wf(b, k);
    let (c, h) = b.intern(k);
    assert(c.kinds[h].fits(h, c.next_var));
    let low = if h < b.kinds.len() {
        h
    } else {
        b.kinds.len() as int
    };
    lemma_shape_bound(c, k, low, h);
    lemma_shape_bound(c, k, low, b.kinds.len() as int);
    lemma_shape_stable(b, c, k, b.kinds.len() as int);
}

/// Substitution on handles is substitution on the types they stand for: the
/// handle that it returns stands for the type of `t` with the type of `to`
/// in place of the variable `from`.
pub proof fn lemma_substituted_term(a: Arena, t: Ty, from: VarId, to: Ty)
    requires
        a.wf(),
        a.valid(t),
        a.valid(to),
        substituted(a, t, from, to).0.kinds.len() <= usize::MAX,
    ensures
        ({
            let (b, r) = substituted(a, t, from, to);
            &&& b.wf()
            &&& b.valid(r)
            &&& a.extended_by(b)
            &&& term_of(b, r) == subst_term(term_of(a, t), from, term_of(a, to))
        }),
    decreases t.idx(), 3nat, 0nat,
{
    assert(a.kinds[t.idx()].fits(t.idx(), a.next_var));
    lemma_substituted_kind_term(a, a.shape(t), t.idx(), from, to);
}

/// Substitution in a shape is substitution in the type it stands for.
#[verifier::rlimit(50)]
pub proof fn lemma_substituted_kind_term(a: Arena, k: Shape, bound: int, from: VarId, to: Ty)
    requires
        a.wf(),
        k.fits(bound, a.next_var),
        0 <= bound <= a.kinds.len(),
        a.valid(to),
        substituted_kind(a, k, bound, from, to).0.kinds.len() <= usize::MAX,
    ensures
        ({
            let (b, r) = substituted_kind(a, k, bound, from, to);
            &&& b.wf()
            &&& b.valid(r)
            &&& a.extended_by(b)
            &&& term_of(b, r) == subst_term(term_of_shape(a, k, bound), from, term_of(a, to))
        }),
    decreases bound, 2nat, 0nat,
{
    match k {
        Shape::Var(v) => {
            if v != from {
                lemma_shape_bound(a, k, bound, a.kinds.len() as int);
                lemma_interned_term(a, k);
            }
        },
        Shape::Recursive(v, body) => {
            if v != from {
                lemma_substituted_binder_term(a, v, body, bound, from, to);
            } else {
                lemma_shape_bound(a, k, bound, a.kinds.len() as int);
                lemma_interned_term(a, k);
            }
        },
        Shape::Pointer(inner) => {
            lemma_substituted_pointer_term(a, inner, bound, from, to);
        },
        Shape::Function(params, ret) => {
            lemma_substituted_function_term(a, params, ret, bound, from, to);
        },
        Shape::Record(fields) => {
            lemma_substituted_record_term(a, fields, bound, from, to);
        },
        _ => {
            lemma_shape_bound(a, k, bound, a.kinds.len() as int);
            lemma_interned_term(a, k);
        },
    }
}

/// Substitution below a binder of another variable is substitution in the
/// type the binder stands for.
#[verifier::rlimit(50)]
proof fn lemma_substituted_binder_term(
    a: Arena,
    v: VarId,
    body: Ty,
    bound: int,
    from: VarId,
    to: Ty,
)
    requires
        a.wf(),
        Shape::Recursive(v, body).fits(bound, a.next_var),
        0 <= bound <= a.kinds.len(),
        a.valid(to),
        v != from,
        substituted_kind(a, Shape::Recursive(v, body), bound, from, to).0.kinds.len()
            <= usize::MAX,
    ensures
        ({
            let k = Shape::Recursive(v, body);
            let (b, r) = substituted_kind(a, k, bound, from, to);
            &&& b.wf()
            &&& b.valid(r)
            &&& a.extended_by(b)
            &&& term_of(b, r) == subst_term(term_of_shape(a, k, bound), from, term_of(a, to))
        }),
    decreases bound, 1nat, 0nat,
{
    let k = Shape::Recursive(v, body);
    let goal = substituted_kind(a, k, bound, from, to);
    assert(k.children()[0] == body);
    let (b, t) = substituted(a, body, from, to);
    let made = Shape::Recursive(v, t);
    lemma_substituted_extends(a, body, from, to);
    lemma_intern_extends(b, made);
    lemma_substituted_term(a, body, from, to);
    assert(made.children() =~= seq![t]);
    lemma_interned_term(b, made);
    lemma_extended_trans(a, b, goal.0);
}

/// Substitution in a pointer type is substitution in the type it stands for.
#[verifier::rlimit(50)]
proof fn lemma_substituted_pointer_term(a: Arena, inner: Ty, bound: int, from: VarId, to: Ty)
    requires
        a.wf(),
        Shape::Pointer(inner).fits(bound, a.next_var),
        0 <= bound <= a.kinds.len(),
        a.valid(to),
        substituted_kind(a, Shape::Pointer(inner), bound, from, to).0.kinds.len() <= usize::MAX,
    ensures
        ({
            let k = Shape::Pointer(inner);
            let (b, r) = substituted_kind(a, k, bound, from, to);
            &&& b.wf()
            &&& b.valid(r)
            &&& a.extended_by(b)
            &&& term_of(b, r) == subst_term(term_of_shape(a, k, bound), from, term_of(a, to))
        }),
    decreases bound, 1nat, 0nat,
{
    let k = Shape::Pointer(inner);
    let goal = substituted_kind(a, k, bound, from, to);
    assert(k.children()[0] == inner);
    let (b, t) = substituted(a, inner, from, to);
    let made = Shape::Pointer(t);
    lemma_substituted_extends(a, inner, from, to);
    lemma_intern_extends(b, made);
    lemma_substituted_term(a, inner, from, to);
    assert(made.children() =~= seq![t]);
    lemma_interned_term(b, made);
    lemma_extended_trans(a, b, goal.0);
}

/// Substitution in a function type is substitution in the type it stands
/// for.
#[verifier::rlimit(50)]
proof fn lemma_substituted_function_term(
    a: Arena,
    params: Seq<Ty>,
    ret: Ty,
    bound: int,
    from: VarId,
    to: Ty,
)
    requires
        a.wf(),
        Shape::Function(params, ret).fits(bound, a.next_var),
        0 <= bound <= a.kinds.len(),
        a.valid(to),
        substituted_kind(a, Shape::Function(params, ret), bound, from, to).0.kinds.len()
            <= usize::MAX,
    ensures
        ({
            let k = Shape::Function(params, ret);
            let (b, r) = substituted_kind(a, k, bound, from, to);
            &&& b.wf()
            &&& b.valid(r)
            &&& a.extended_by(b)
            &&& term_of(b, r) == subst_term(term_of_shape(a, k, bound), from, term_of(a, to))
        }),
    decreases bound, 1nat, 0nat,
{
    let k = Shape::Function(params, ret);
    let goal = substituted_kind(a, k, bound, from, to);
    assert(k.children()[params.len() as int] == ret);
    assert forall|j: int| 0 <= j < params.len() implies 0 <= (#[trigger] params[j]).idx()
        < bound by {
        assert(k.children()[j] == params[j]);
    }
    let (b, ps) = substituted_all(a, params, bound, 0, Seq::empty(), from, to);
    let (c, r) = substituted(b, ret, from, to);
    let made = Shape::Function(ps, r);
    lemma_substituted_all_extends(a, params, bound, 0, Seq::empty(), from, to);
    lemma_substituted_extends(b, ret, from, to);
    lemma_intern_extends(c, made);
    lemma_substituted_all_term(a, a, params, bound, 0, Seq::empty(), from, to);
    lemma_substituted_term(b, ret, from, to);
    lemma_term_stable(a, b, ret);
    lemma_term_stable(a, b, to);
    assert forall|j: int| 0 <= j < made.children().len() implies 0 <= (
    #[trigger] made.children()[j]).idx() < c.kinds.len() by {
        if j < ps.len() {
            assert(b.valid(ps[j]));
        }
    }
    lemma_interned_term(c, made);
    lemma_extended_trans(a, b, c);
    lemma_extended_trans(a, c, goal.0);
    let left = term_of(goal.0, goal.1)->Function_0;
    let right = subst_term(term_of_shape(a, k, bound), from, term_of(a, to))->Function_0;
    assert forall|j: int| 0 <= j < params.len() implies left[j] == right[j] by {
        lemma_term_stable(b, c, ps[j]);
    }
    assert(left =~= right);
}

/// Substitution in a record type is substitution in the type it stands for.
#[verifier::rlimit(50)]
proof fn lemma_substituted_record_term(
    a: Arena,
    fields: Seq<(Seq<char>, Ty)>,
    bound: int,
    from: VarId,
    to: Ty,
)
    requires
        a.wf(),
        Shape::Record(fields).fits(bound, a.next_var),
        0 <= bound <= a.kinds.len(),
        a.valid(to),
        substituted_kind(a, Shape::Record(fields), bound, from, to).0.kinds.len() <= usize::MAX,
    ensures
        ({
            let k = Shape::Record(fields);
            let (b, r) = substituted_kind(a, k, bound, from, to);
            &&& b.wf()
            &&& b.valid(r)
            &&& a.extended_by(b)
            &&& term_of(b, r) == subst_term(term_of_shape(a, k, bound), from, term_of(a, to))
        }),
    decreases bound, 1nat, 0nat,
{
    let k = Shape::Record(fields);
    let goal = substituted_kind(a, k, bound, from, to);
    assert forall|j: int| 0 <= j < fields.len() implies 0 <= (#[trigger] fields[j]).1.idx()
        < bound by {
        assert(k.children()[j] == fields[j].1);
    }
    let (b, fs) = substituted_fields(a, fields, bound, 0, Seq::empty(), from, to);
    let made = Shape::Record(fs);
    lemma_substituted_fields_extends(a, fields, bound, 0, Seq::empty(), from, to);
    lemma_intern_extends(b, made);
    lemma_substituted_fields_term(a, a, fields, bound, 0, Seq::empty(), from, to);
    assert forall|j: int| 0 <= j < made.children().len() implies 0 <= (
    #[trigger] made.children()[j]).idx() < b.kinds.len() by {
        assert(b.valid(fs[j].1));
    }
    assert forall|x: int, y: int|
        #![trigger fs[x], fs[y]]
        0 <= x < y < fs.len() implies fs[x].0 != fs[y].0 by {
        assert(fs[x].0 == fields[x].0);
        assert(fs[y].0 == fields[y].0);
    }
    lemma_interned_term(b, made);
    lemma_extended_trans(a, b, goal.0);
    let left = term_of(goal.0, goal.1)->Record_0;
    let right = subst_term(term_of_shape(a, k, bound), from, term_of(a, to))->Record_0;
    assert forall|j: int| 0 <= j < fields.len() implies left[j] == right[j] by {
        assert(fs[j].0 == fields[j].0);
    }
    assert(left =~= right);
}

/// Substitution in a list of types is substitution in the types they stand
/// for, as they stood for them in `base`.
#[verifier::rlimit(50)]
pub proof fn lemma_substituted_all_term(
    base: Arena,
    a: Arena,
    ts: Seq<Ty>,
    bound: int,
    i: int,
    acc: Seq<Ty>,
    from: VarId,
    to: Ty,
)
    requires
        base.wf(),
        a.wf(),
        base.extended_by(a),
        0 <= i <= ts.len(),
        0 <= bound <= base.kinds.len(),
        forall|j: int| 0 <= j < ts.len() ==> 0 <= (#[trigger] ts[j]).idx() < bound,
        base.valid(to),
        forall|j: int| 0 <= j < acc.len() ==> a.valid(#[trigger] acc[j]),
        substituted_all(a, ts, bound, i, acc, from, to).0.kinds.len() <= usize::MAX,
    ensures
        ({
            let (b, out) = substituted_all(a, ts, bound, i, acc, from, to);
            &&& b.wf()
            &&& a.extended_by(b)
            &&& forall|j: int| 0 <= j < out.len() ==> b.valid(#[trigger] out[j])
            &&& forall|j: int|
                i <= j < ts.len() ==> term_of(b, out[acc.len() + j - i]) == subst_term(
                    term_of(base, #[trigger] ts[j]),
                    from,
                    term_of(base, to),
                )
        }),
    decreases bound, 0nat, ts.len() - i,
{
    if i < ts.len() {
        let (b1, t1) = substituted(a, ts[i], from, to);
        let next = acc.push(t1);
        let (b, out) = substituted_all(b1, ts, bound, i + 1, next, from, to);
        lemma_substituted_extends(a, ts[i], from, to);
        lemma_substituted_all_extends(b1, ts, bound, i + 1, next, from, to);
        lemma_substituted_term(a, ts[i], from, to);
        lemma_term_stable(base, a, ts[i]);
        lemma_term_stable(base, a, to);
        lemma_extended_trans(base, a, b1);
        assert forall|j: int| 0 <= j < next.len() implies b1.valid(#[trigger] next[j]) by {
            if j < acc.len() {
                assert(a.valid(acc[j]));
            }
        }
        lemma_substituted_all_term(base, b1, ts, bound, i + 1, next, from, to);
        lemma_extended_trans(a, b1, b);
        assert forall|j: int| i <= j < ts.len() implies term_of(b, out[acc.len() + j - i])
            == subst_term(term_of(base, #[trigger] ts[j]), from, term_of(base, to)) by {
            if j == i {
                assert(out[acc.len() as int] == next[acc.len() as int]);
                lemma_term_stable(b1, b, t1);
            } else {
                assert(acc.len() + j - i == next.len() + j - (i + 1));
            }
        }
    } else {
        assert(substituted_all(a, ts, bound, i, acc, from, to) == (a, acc));
    }
}

/// Substitution in the fields of a record is substitution in the types they
/// stand for, as they stood for them in `base`.
#[verifier::rlimit(50)]
pub proof fn lemma_substituted_fields_term(
    base: Arena,
    a: Arena,
    fields: Seq<(Seq<char>, Ty)>,
    bound: int,
    i: int,
    acc: Seq<(Seq<char>, Ty)>,
    from: VarId,
    to: Ty,
)
    requires
        base.wf(),
        a.wf(),
        base.extended_by(a),
        0 <= i <= fields.len(),
        0 <= bound <= base.kinds.len(),
        forall|j: int| 0 <= j < fields.len() ==> 0 <= (#[trigger] fields[j]).1.idx() < bound,
        base.valid(to),
        forall|j: int| 0 <= j < acc.len() ==> a.valid((#[trigger] acc[j]).1),
        substituted_fields(a, fields, bound, i, acc, from, to).0.kinds.len() <= usize::MAX,
    ensures
        ({
            let (b, out) = substituted_fields(a, fields, bound, i, acc, from, to);
            &&& b.wf()
            &&& a.extended_by(b)
            &&& forall|j: int| 0 <= j < out.len() ==> b.valid((#[trigger] out[j]).1)
            &&& forall|j: int|
                i <= j < fields.len() ==> term_of(b, out[acc.len() + j - i].1) == subst_term(
                    term_of(base, (#[trigger] fields[j]).1),
                    from,
                    term_of(base, to),
                )
        }),
    decreases bound, 0nat, fields.len() - i,
{
    if i < fields.len() {
        let (b1, t1) = substituted(a, fields[i].1, from, to);
        let next = acc.push((fields[i].0, t1));
        let (b, out) = substituted_fields(b1, fields, bound, i + 1, next, from, to);
        lemma_substituted_extends(a, fields[i].1, from, to);
        lemma_substituted_fields_extends(b1, fields, bound, i + 1, next, from, to);
        lemma_substituted_term(a, fields[i].1, from, to);
        lemma_term_stable(base, a, fields[i].1);
        lemma_term_stable(base, a, to);
        lemma_extended_trans(base, a, b1);
        assert forall|j: int| 0 <= j < next.len() implies b1.valid((#[trigger] next[j]).1) by {
            if j < acc.len() {
                assert(a.valid(acc[j].1));
            }
        }
        lemma_substituted_fields_term(base, b1, fields, bound, i + 1, next, from, to);
        lemma_extended_trans(a, b1, b);
        assert forall|j: int| i <= j < fields.len() implies term_of(b, out[acc.len() + j - i].1)
            == subst_term(term_of(base, (#[trigger] fields[j]).1), from, term_of(base, to)) by {
            if j == i {
                assert(out[acc.len() as int] == next[acc.len() as int]);
                lemma_term_stable(b1, b, t1);
            } else {
                assert(acc.len() + j - i == next.len() + j - (i + 1));
            }
        }
    } else {
        assert(substituted_fields(a, fields, bound, i, acc, from, to) == (a, acc));
    }
}

} // verus!
