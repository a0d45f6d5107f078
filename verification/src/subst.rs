//! Substitution of a type for a variable.

use crate::context::Arena;
use crate::context::TyCtxt;
use crate::term::lemma_substituted_kind_term;
use crate::term::lemma_substituted_term;
use crate::term::subst_term;
use crate::term::term_of;
use crate::term::term_of_shape;
use crate::ty::Shape;
use crate::ty::Ty;
use crate::ty::TyKind;
use crate::ty::VarId;
use crate::ty::fields_view;
use vstd::prelude::*;

verus! {

/// The arena after `to` has been substituted for the variable `from` in the
/// type `t`, and the handle of the result.
pub open spec fn substituted(a: Arena, t: Ty, from: VarId, to: Ty) -> (Arena, Ty)
    decreases t.idx(), 2nat, 0nat,
{
    if 0 <= t.idx() {
        substituted_kind(a, a.shape(t), t.idx(), from, to)
    } else {
        (a, t)
    }
}

/// The arena after `to` has been substituted for the variable `from` in the
/// shape `k`, whose sub-terms stand before `bound`, and the handle of the
/// result.
///
/// The variable `from` becomes `to`; every other variable stays. A binder of
/// `from` hides it: nothing is substituted below. Every other shape is made
/// anew from its sub-terms after substitution, from left to right.
pub open spec fn substituted_kind(a: Arena, k: Shape, bound: int, from: VarId, to: Ty) -> (
    Arena,
    Ty,
)
    decreases bound, 1nat, 0nat,
{
    let (b, made) = match k {
        Shape::Var(v) => if v == from {
            (a, None)
        } else {
            (a, Some(k))
        },
        Shape::Recursive(v, body) => if v != from && 0 <= body.idx() < bound {
            let (b, t) = substituted(a, body, from, to);
            (b, Some(Shape::Recursive(v, t)))
        } else {
            (a, Some(k))
        },
        Shape::Pointer(inner) => if 0 <= inner.idx() < bound {
            let (b, t) = substituted(a, inner, from, to);
            (b, Some(Shape::Pointer(t)))
        } else {
            (a, Some(k))
        },
        Shape::Function(params, ret) => {
            let (b, ps) = substituted_all(a, params, bound, 0, Seq::empty(), from, to);
            if 0 <= ret.idx() < bound {
                let (c, r) = substituted(b, ret, from, to);
                (c, Some(Shape::Function(ps, r)))
            } else {
                (b, Some(Shape::Function(ps, ret)))
            }
        },
        Shape::Record(fields) => {
            let (b, fs) = substituted_fields(a, fields, bound, 0, Seq::empty(), from, to);
            (b, Some(Shape::Record(fs)))
        },
        _ => (a, Some(k)),
    };
    match made {
        Some(shape) => (b.intern(shape).0, Ty { interned: b.intern(shape).1 as usize }),
        None => (b, to),
    }
}

/// The arena after the substitution in each of `ts` from position `i` on, in
/// order, and `acc` followed by the handles of the results.
pub open spec fn substituted_all(
    a: Arena,
    ts: Seq<Ty>,
    bound: int,
    i: int,
    acc: Seq<Ty>,
    from: VarId,
    to: Ty,
) -> (Arena, Seq<Ty>)
    decreases bound, 0nat, ts.len() - i,
{
    if 0 <= i < ts.len() {
        if 0 <= ts[i].idx() < bound {
            let (b, t) = substituted(a, ts[i], from, to);
            substituted_all(b, ts, bound, i + 1, acc.push(t), from, to)
        } else {
            substituted_all(a, ts, bound, i + 1, acc.push(ts[i]), from, to)
        }
    } else {
        (a, acc)
    }
}

/// The arena after the substitution in the type of each of `fields` from
/// position `i` on, in order, and `acc` followed by the fields with the
/// handles of the results.
pub open spec fn substituted_fields(
    a: Arena,
    fields: Seq<(Seq<char>, Ty)>,
    bound: int,
    i: int,
    acc: Seq<(Seq<char>, Ty)>,
    from: VarId,
    to: Ty,
) -> (Arena, Seq<(Seq<char>, Ty)>)
    decreases bound, 0nat, fields.len() - i,
{
    if 0 <= i < fields.len() {
        if 0 <= fields[i].1.idx() < bound {
            let (b, t) = substituted(a, fields[i].1, from, to);
            substituted_fields(b, fields, bound, i + 1, acc.push((fields[i].0, t)), from, to)
        } else {
            substituted_fields(a, fields, bound, i + 1, acc.push(fields[i]), from, to)
        }
    } else {
        (a, acc)
    }
}

/// Substitution in the type `t`.
fn subst_ty(t: Ty, ctx: &mut TyCtxt, from: VarId, to: Ty) -> (r: Ty)
    requires
        old(ctx).wf(),
        old(ctx)@.valid(t),
        old(ctx)@.valid(to),
    ensures
        final(ctx).wf(),
        final(ctx).spec_common() == old(ctx).spec_common(),
        (final(ctx)@, r) == substituted(old(ctx)@, t, from, to),
        final(ctx)@.valid(r),
        old(ctx)@.extended_by(final(ctx)@),
    decreases t.idx(), 2nat, 0nat,
{
    let kind = t.kind(ctx).duplicate();
    proof {
        ctx.lemma_int_ty();
        assert(ctx@.kinds[t.idx()].fits(t.idx(), ctx@.next_var));
    }
    subst_kind(&kind, ctx, from, to, Ghost(t.idx()))
}

/// Substitution in `kind`, whose sub-terms stand before `bound`.
#[verifier::rlimit(50)]
fn subst_kind(kind: &TyKind, ctx: &mut TyCtxt, from: VarId, to: Ty, Ghost(bound): Ghost<int>) -> (r:
    Ty)
    requires
        old(ctx).wf(),
        kind@.fits(bound, old(ctx)@.next_var),
        bound <= old(ctx)@.kinds.len(),
        old(ctx)@.valid(to),
    ensures
        final(ctx).wf(),
        final(ctx).spec_common() == old(ctx).spec_common(),
        (final(ctx)@, r) == substituted_kind(old(ctx)@, kind@, bound, from, to),
        final(ctx)@.valid(r),
        old(ctx)@.extended_by(final(ctx)@),
    decreases bound, 1nat, 0nat,
{
    let ghost first = ctx@;
    proof {
        ctx.lemma_int_ty();
    }
    let made: TyKind = match kind {
        TyKind::Var(v) => {
            if v.0 == from.0 {
                return to;
            }
            TyKind::Var(*v)
        },
        TyKind::Recursive(v, body) => {
            if v.0 == from.0 {
                TyKind::Recursive(*v, *body)
            } else {
                assert(kind@.children()[0] == *body);
                let t = subst_ty(*body, ctx, from, to);
                TyKind::Recursive(*v, t)
            }
        },
        TyKind::Pointer(inner) => {
            assert(kind@.children()[0] == *inner);
            let t = subst_ty(*inner, ctx, from, to);
            TyKind::Pointer(t)
        },
        TyKind::Function(params, ret) => {
            let ghost goal = substituted_all(ctx@, params@, bound, 0, Seq::empty(), from, to);
            let mut ps: Vec<Ty> = Vec::new();
            let mut i: usize = 0;
            while i < params.len()
                invariant
                    i <= params.len(),
                    ctx.wf(),
                    ctx.spec_common() == old(ctx).spec_common(),
                    first.extended_by(ctx@),
                    ctx@.valid(to),
                    bound <= first.kinds.len(),
                    kind@ == Shape::Function(params@, *ret),
                    kind@.fits(bound, first.next_var),
                    substituted_all(ctx@, params@, bound, i as int, ps@, from, to) == goal,
                    forall|k: int| 0 <= k < ps@.len() ==> ctx@.valid(#[trigger] ps@[k]),
                decreases params.len() - i,
            {
                assert(kind@.children()[i as int] == params@[i as int]);
                let ghost before = ctx@;
                let t = subst_ty(params[i], ctx, from, to);
                ps.push(t);
                proof {
                    assert forall|k: int| 0 <= k < ps@.len() implies ctx@.valid(
                        #[trigger] ps@[k],
                    ) by {
                        if k < ps@.len() - 1 {
                            assert(before.valid(ps@[k]));
                        }
                    }
                }
                i += 1;
            }
            assert(kind@.children()[params@.len() as int] == *ret);
            let ghost mid = ctx@;
            let r = subst_ty(*ret, ctx, from, to);
            proof {
                assert forall|k: int| 0 <= k < ps@.len() implies ctx@.valid(#[trigger] ps@[k]) by {
                    assert(mid.valid(ps@[k]));
                }
            }
            TyKind::Function(ps, r)
        },
        TyKind::Record(fields) => {
            let ghost goal = substituted_fields(
                ctx@,
                fields_view(fields@),
                bound,
                0,
                Seq::empty(),
                from,
                to,
            );
            let mut fs: Vec<(String, Ty)> = Vec::new();
            let mut i: usize = 0;
            assert(fields_view(fs@) =~= Seq::empty());
            while i < fields.len()
                invariant
                    i <= fields.len(),
                    fs@.len() == i,
                    ctx.wf(),
                    ctx.spec_common() == old(ctx).spec_common(),
                    first.extended_by(ctx@),
                    ctx@.valid(to),
                    bound <= first.kinds.len(),
                    kind@ == Shape::Record(fields_view(fields@)),
                    kind@.fits(bound, first.next_var),
                    substituted_fields(
                        ctx@,
                        fields_view(fields@),
                        bound,
                        i as int,
                        fields_view(fs@),
                        from,
                        to,
                    ) == goal,
                    forall|k: int| 0 <= k < fs@.len() ==> ctx@.valid((#[trigger] fs@[k]).1),
                    forall|k: int|
                        0 <= k < fs@.len() ==> (#[trigger] fields_view(fs@)[k]).0 == fields_view(
                            fields@,
                        )[k].0,
                decreases fields.len() - i,
            {
                assert(kind@.children()[i as int] == fields@[i as int].1);
                let ghost before = ctx@;
                let ghost acc = fields_view(fs@);
                let t = subst_ty(fields[i].1, ctx, from, to);
                fs.push((fields[i].0.clone(), t));
                proof {
                    assert(fields_view(fs@) =~= acc.push((fields_view(fields@)[i as int].0, t)));
                    assert forall|k: int| 0 <= k < fs@.len() implies ctx@.valid(
                        (#[trigger] fs@[k]).1,
                    ) by {
                        if k < fs@.len() - 1 {
                            assert(before.valid(fs@[k].1));
                        }
                    }
                    assert forall|k: int| 0 <= k < fs@.len() implies (#[trigger] fields_view(
                        fs@,
                    )[k]).0 == fields_view(fields@)[k].0 by {
                        if k < fs@.len() - 1 {
                            assert(fields_view(fs@)[k] == acc[k]);
                        }
                    }
                }
                i += 1;
            }
            let made = TyKind::Record(fs);
            proof {
                let old_fields = fields_view(fields@);
                let new_fields = fields_view(fs@);
                assert forall|a: int, b: int|
                    #![trigger new_fields[a], new_fields[b]]
                    0 <= a < b < new_fields.len() implies new_fields[a].0 != new_fields[b].0 by {
                    assert(new_fields[a].0 == old_fields[a].0);
                    assert(new_fields[b].0 == old_fields[b].0);
                    assert(kind@.distinct_names());
                }
                assert forall|k: int| 0 <= k < made@.children().len() implies 0 <= (
                #[trigger] made@.children()[k]).idx() < ctx@.kinds.len() by {
                    let _ = fs@[k];
                }
            }
            made
        },
        TyKind::Int => TyKind::Int,
        TyKind::AbsentField => TyKind::AbsentField,
        TyKind::FreshVar(v) => TyKind::FreshVar(*v),
    };
    proof {
        assert(ctx@.admits(made@)) by {
            assert forall|k: int| 0 <= k < made@.children().len() implies 0 <= (
            #[trigger] made@.children()[k]).idx() < ctx@.kinds.len() by {
                match made {
                    TyKind::Recursive(_, body) => {
                        if k == 0 {
                            assert(made@.children()[0] == body);
                            assert(kind@.children()[0].idx() < bound || ctx@.valid(body));
                        }
                    },
                    TyKind::Pointer(inner) => {
                        assert(made@.children()[0] == inner);
                    },
                    TyKind::Function(ps, r) => {
                        if k < ps@.len() {
                            assert(made@.children()[k] == ps@[k]);
                        }
                    },
                    _ => {},
                }
            }
        }
        crate::context::lemma_intern_extends(ctx@, made@);
    }
    let r = made.intern(ctx);
    proof {
        ctx.lemma_int_ty();
    }
    r
}

impl TyKind {
    /// Substitutes `to` for the variable `from` in this kind and returns the
    /// handle of the result: of the type that this kind stands for, with the
    /// type of `to` in place of the variable, except below a binder of it.
    pub fn substitute(&self, interner: &mut TyCtxt, from: VarId, to: Ty) -> (r: Ty)
        requires
            old(interner).wf(),
            old(interner)@.admits(self@),
            old(interner)@.valid(to),
        ensures
            final(interner).wf(),
            final(interner).spec_common() == old(interner).spec_common(),
            (final(interner)@, r) == substituted_kind(
                old(interner)@,
                self@,
                old(interner)@.kinds.len() as int,
                from,
                to,
            ),
            final(interner)@.valid(r),
            old(interner)@.extended_by(final(interner)@),
            term_of(final(interner)@, r) == subst_term(
                term_of_shape(old(interner)@, self@, old(interner)@.kinds.len() as int),
                from,
                term_of(old(interner)@, to),
            ),
    {
        let r = subst_kind(self, interner, from, to, Ghost(interner@.kinds.len() as int));
        proof {
            old(interner).lemma_int_ty();
            interner.lemma_int_ty();
            lemma_substituted_kind_term(
                old(interner)@,
                self@,
                old(interner)@.kinds.len() as int,
                from,
                to,
            );
        }
        r
    }
}

impl Ty {
    /// Substitutes `to` for the variable `from` in this type and returns the
    /// handle of the result: of this type with the type of `to` in place of
    /// the variable, except below a binder of it.
    pub fn substitute(self, interner: &mut TyCtxt, from: VarId, to: Ty) -> (r: Ty)
        requires
            old(interner).wf(),
            old(interner)@.valid(self),
            old(interner)@.valid(to),
        ensures
            final(interner).wf(),
            final(interner).spec_common() == old(interner).spec_common(),
            (final(interner)@, r) == substituted(old(interner)@, self, from, to),
            final(interner)@.valid(r),
            old(interner)@.extended_by(final(interner)@),
            term_of(final(interner)@, r) == subst_term(
                term_of(old(interner)@, self),
                from,
                term_of(old(interner)@, to),
            ),
    {
        let r = subst_ty(self, interner, from, to);
        proof {
            old(interner).lemma_int_ty();
            interner.lemma_int_ty();
            lemma_substituted_term(old(interner)@, self, from, to);
        }
        r
    }
}

} // verus!
