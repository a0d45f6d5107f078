//! What a partition of types has to satisfy to be a solution: the types of
//! one class have one structure.

use crate::context::Arena;
use crate::solvers::unionfind::Step;
use crate::solvers::unionfind::class_count;
use crate::solvers::unionfind::coarsens;
use crate::solvers::unionfind::grown;
use crate::solvers::unionfind::is_partition;
use crate::solvers::unionfind::lemma_solve;
use crate::solvers::unionfind::lemma_step;
use crate::solvers::unionfind::lemma_sub_pairs;
use crate::solvers::unionfind::merged;
use crate::solvers::unionfind::solvable;
use crate::solvers::unionfind::solve;
use crate::solvers::unionfind::unify_step;
use crate::ty::Shape;
use crate::ty::TermKind;
use crate::ty::Ty;
use crate::ty::field_position;
use crate::ty::has_field;
use crate::ty::is_field_position;
use crate::ty::lemma_field_position;
use crate::ty::lemma_first_field;
use vstd::prelude::*;

verus! {

/// The sub-terms that `k` and `head` pair up are, pair by pair, in one class
/// of `q`.
pub open spec fn sub_terms_joined(k: Shape, head: Shape, q: Seq<Ty>) -> bool {
    forall|n: int|
        0 <= n < k.sub_pairs(head).len() ==> q[(#[trigger] k.sub_pairs(head)[n]).0.idx()]
            == q[k.sub_pairs(head)[n].1.idx()]
}

/// The constructor at position `i` has the structure of the representative
/// of its class in `r`: the representative is a constructor that matches it,
/// and the sub-terms that the two pair up are in one class of `q`.
pub open spec fn shaped_at(arena: Arena, r: Seq<Ty>, q: Seq<Ty>, i: int) -> bool {
    arena.kinds[i].term_kind() == TermKind::Cons ==> {
        &&& arena.shape(r[i]).term_kind() == TermKind::Cons
        &&& arena.kinds[i].matches(arena.shape(r[i]))
        &&& sub_terms_joined(arena.kinds[i], arena.shape(r[i]), q)
    }
}

/// Every constructor of `r` has the structure of the representative of its
/// class, with sub-terms joined in `q`.
pub open spec fn shaped(arena: Arena, r: Seq<Ty>, q: Seq<Ty>) -> bool {
    forall|i: int| 0 <= i < r.len() ==> #[trigger] shaped_at(arena, r, q, i)
}

/// The partition `r` is coherent: the constructors of one class are all built
/// by the constructor of the representative, with as many sub-terms, and
/// their sub-terms are in one class wherever they correspond. So a class
/// stands for one type, whose sub-terms are classes again.
pub open spec fn coherent(arena: Arena, r: Seq<Ty>) -> bool {
    shaped(arena, r, r)
}

/// A constructor matches itself, and is paired with itself sub-term by
/// sub-term.
pub proof fn lemma_self_shaped(k: Shape, q: Seq<Ty>)
    requires
        k.term_kind() == TermKind::Cons,
        k.distinct_names(),
    ensures
        k.matches(k),
        sub_terms_joined(k, k, q),
{
    match k {
        Shape::Record(fs) => {
            assert forall|i: int| 0 <= i < fs.len() implies has_field(fs, #[trigger] fs[i].0) by {
                assert(fs[i].0 == fs[i].0);
            }
            assert forall|n: int| 0 <= n < k.sub_pairs(k).len() implies q[(
            #[trigger] k.sub_pairs(k)[n]).0.idx()] == q[k.sub_pairs(k)[n].1.idx()] by {
                assert forall|m: int| 0 <= m < n implies (#[trigger] fs[m]).0 != fs[n].0 by {
                    let _ = fs[m];
                    let _ = fs[n];
                }
                assert(is_field_position(fs, fs[n].0, n));
                lemma_field_position(fs, fs[n].0, n);
            }
        },
        _ => {},
    }
}

/// Matching and the joining of sub-terms carry over from a constructor to
/// what its match matches.
#[verifier::rlimit(50)]
pub proof fn lemma_shaped_through(k1: Shape, k2: Shape, k3: Shape, q: Seq<Ty>)
    requires
        k1.matches(k2),
        k2.matches(k3),
        sub_terms_joined(k1, k2, q),
        sub_terms_joined(k2, k3, q),
    ensures
        k1.matches(k3),
        sub_terms_joined(k1, k3, q),
{
    match (k1, k2, k3) {
        (Shape::Pointer(a), Shape::Pointer(b), Shape::Pointer(c)) => {
            let _ = k1.sub_pairs(k2)[0];
            let _ = k2.sub_pairs(k3)[0];
        },
        (Shape::Function(ps, r), Shape::Function(qs, s), Shape::Function(us, t)) => {
            assert forall|n: int| 0 <= n < k1.sub_pairs(k3).len() implies q[(
            #[trigger] k1.sub_pairs(k3)[n]).0.idx()] == q[k1.sub_pairs(k3)[n].1.idx()] by {
                let _ = k1.sub_pairs(k2)[n];
                let _ = k2.sub_pairs(k3)[n];
            }
        },
        (Shape::Record(fs), Shape::Record(gs), Shape::Record(hs)) => {
            assert forall|i: int| 0 <= i < fs.len() implies has_field(hs, #[trigger] fs[i].0) by {
                let name = fs[i].0;
                assert(has_field(gs, name));
                let w = choose|j: int| 0 <= j < gs.len() && #[trigger] gs[j].0 == name;
                assert(has_field(hs, gs[w].0));
            }
            assert forall|n: int| 0 <= n < k1.sub_pairs(k3).len() implies q[(
            #[trigger] k1.sub_pairs(k3)[n]).0.idx()] == q[k1.sub_pairs(k3)[n].1.idx()] by {
                let name = fs[n].0;
                assert(has_field(gs, name));
                let w = choose|j: int| 0 <= j < gs.len() && #[trigger] gs[j].0 == name;
                lemma_first_field(gs, name, w);
                let m = field_position(gs, name);
                let _ = k1.sub_pairs(k2)[n];
                let _ = k2.sub_pairs(k3)[m];
            }
        },
        _ => {},
    }
}

/// Where every class is one position, the partition is coherent.
pub proof fn lemma_singletons_coherent(arena: Arena, r: Seq<Ty>)
    requires
        arena.wf(),
        r.len() <= arena.kinds.len(),
        forall|i: int| 0 <= i < r.len() ==> (#[trigger] r[i]).idx() == i,
    ensures
        coherent(arena, r),
{
    assert forall|i: int| 0 <= i < r.len() implies #[trigger] shaped_at(arena, r, r, i) by {
        assert(r[i].idx() == i);
        assert(arena.kinds[i].fits(i, arena.next_var));
        if arena.kinds[i].term_kind() == TermKind::Cons {
            lemma_self_shaped(arena.kinds[i], r);
        }
    }
}

/// A coherent partition stays coherent when handles are added to it as
/// classes of their own.
#[verifier::rlimit(50)]
pub proof fn lemma_grown_coherent(arena: Arena, r: Seq<Ty>, n: nat)
    requires
        arena.wf(),
        is_partition(r),
        n <= arena.kinds.len(),
        r.len() <= arena.kinds.len(),
        coherent(arena, r),
    ensures
        coherent(arena, grown(r, n)),
{
    let g = grown(r, n);
    assert forall|i: int| 0 <= i < g.len() implies #[trigger] shaped_at(arena, g, g, i) by {
        assert(arena.kinds[i].fits(i, arena.next_var));
        let k = arena.kinds[i];
        if k.term_kind() == TermKind::Cons {
            if i < r.len() {
                assert(shaped_at(arena, r, r, i));
                let head = arena.shape(r[i]);
                assert(r[i].idx() < r.len());
                assert(arena.kinds[r[i].idx()].fits(r[i].idx(), arena.next_var));
                lemma_sub_pairs(k, head, i, r[i].idx(), arena.next_var);
                assert forall|m: int| 0 <= m < k.sub_pairs(head).len() implies g[(
                #[trigger] k.sub_pairs(head)[m]).0.idx()] == g[k.sub_pairs(head)[m].1.idx()] by {
                    let p = k.sub_pairs(head)[m];
                    assert(r[p.0.idx()] == r[p.1.idx()]);
                }
            } else {
                assert(g[i].idx() == i);
                lemma_self_shaped(k, g);
            }
        }
    }
}

/// A coherent partition of the handles of an arena is one of every arena
/// that extends it.
pub proof fn lemma_extended_coherent(a: Arena, b: Arena, r: Seq<Ty>)
    requires
        a.extended_by(b),
        is_partition(r),
        r.len() <= a.kinds.len(),
        coherent(a, r),
    ensures
        coherent(b, r),
{
    assert forall|i: int| 0 <= i < r.len() implies #[trigger] shaped_at(b, r, r, i) by {
        assert(shaped_at(a, r, r, i));
        assert(r[i].idx() < r.len());
    }
}

/// What is joined in a partition is joined in every coarser one.
proof fn lemma_shaped_coarser(arena: Arena, r: Seq<Ty>, q: Seq<Ty>)
    requires
        arena.wf(),
        is_partition(r),
        r.len() <= arena.kinds.len(),
        coherent(arena, r),
        coarsens(r, q),
    ensures
        shaped(arena, r, q),
{
    assert forall|i: int| 0 <= i < r.len() implies #[trigger] shaped_at(arena, r, q, i) by {
        assert(shaped_at(arena, r, r, i));
        let k = arena.kinds[i];
        if k.term_kind() == TermKind::Cons {
            let head = arena.shape(r[i]);
            assert(r[i].idx() < r.len());
            assert(arena.kinds[i].fits(i, arena.next_var));
            assert(arena.kinds[r[i].idx()].fits(r[i].idx(), arena.next_var));
            lemma_sub_pairs(k, head, i, r[i].idx(), arena.next_var);
            assert forall|m: int| 0 <= m < k.sub_pairs(head).len() implies q[(
            #[trigger] k.sub_pairs(head)[m]).0.idx()] == q[k.sub_pairs(head)[m].1.idx()] by {
                let p = k.sub_pairs(head)[m];
                assert(r[p.0.idx()] == r[p.1.idx()]);
            }
        }
    }
}

/// One step of unification keeps every constructor shaped like its
/// representative, with sub-terms joined in any partition `q` in which the
/// step's own remaining pairs are joined.
#[verifier::rlimit(50)]
proof fn lemma_step_shaped(arena: Arena, r: Seq<Ty>, a: Ty, b: Ty, q: Seq<Ty>)
    requires
        solvable(arena, r, seq![(a, b)]),
        shaped(arena, r, q),
        unify_step(arena, r, a, b) matches Step::Next(next, more) && forall|n: int|
            0 <= n < more.len() ==> q[(#[trigger] more[n]).0.idx()] == q[more[n].1.idx()],
    ensures
        unify_step(arena, r, a, b) matches Step::Next(next, more) && shaped(arena, next, q),
{
    let w = seq![(a, b)];
    assert(w[0] == (a, b));
    let ra = r[a.idx()];
    let rb = r[b.idx()];
    let ka = arena.shape(ra);
    let kb = arena.shape(rb);
    if let Step::Next(next, more) = unify_step(arena, r, a, b) {
        assert forall|i: int| 0 <= i < next.len() implies #[trigger] shaped_at(
            arena,
            next,
            q,
            i,
        ) by {
            assert(shaped_at(arena, r, q, i));
            assert(shaped_at(arena, r, q, ra.idx()));
            assert(shaped_at(arena, r, q, rb.idx()));
            let k = arena.kinds[i];
            if k.term_kind() == TermKind::Cons && next[i] != r[i] {
                // The class of `i` was merged into another, so its
                // representative was a constructor, and the step merged two
                // constructors that match.
                assert(r[i] == ra);
                assert(ka.term_kind() == TermKind::Cons);
                assert(kb.term_kind() == TermKind::Cons);
                assert(ka.matches(kb));
                assert(next[i] == rb);
                assert(sub_terms_joined(ka, kb, q)) by {
                    let pairs = ka.sub_pairs(kb);
                    assert forall|n: int| 0 <= n < pairs.len() implies q[(
                    #[trigger] pairs[n]).0.idx()] == q[pairs[n].1.idx()] by {
                        assert(more[pairs.len() - 1 - n] == pairs[n]);
                    }
                }
                lemma_shaped_through(k, ka, kb, q);
            }
        }
    }
}

/// Unification keeps a partition coherent.
///
/// If every constructor of `r` has the structure of its representative, with
/// sub-terms joined in the partition `done` that unification of `work` ends
/// with, then `done` is coherent. Merging the classes of two constructors is
/// therefore never all: their sub-terms are joined too.
#[verifier::rlimit(50)]
pub proof fn lemma_solve_shaped(arena: Arena, r: Seq<Ty>, work: Seq<(Ty, Ty)>, done: Seq<Ty>)
    requires
        solvable(arena, r, work),
        solve(arena, r, work) == Ok::<Seq<Ty>, (Shape, Shape)>(done),
        shaped(arena, r, done),
    ensures
        coherent(arena, done),
    decreases class_count(r), work.len(),
{
    if work.len() > 0 {
        let (a, b) = work.last();
        assert(seq![(a, b)][0] == (a, b));
        lemma_step(arena, r, a, b);
        match unify_step(arena, r, a, b) {
            Step::Clash(_, _) => {},
            Step::Next(next, more) => {
                let rest = work.drop_last() + more;
                assert forall|k: int| 0 <= k < rest.len() implies 0 <= (
                #[trigger] rest[k]).0.idx() < next.len() && 0 <= rest[k].1.idx()
                    < next.len() by {
                    if k < work.len() - 1 {
                        let _ = work[k];
                    } else {
                        let _ = more[k - (work.len() - 1)];
                    }
                }
                lemma_solve(arena, next, rest);
                assert forall|n: int| 0 <= n < more.len() implies done[(
                #[trigger] more[n]).0.idx()] == done[more[n].1.idx()] by {
                    assert(rest[work.len() - 1 + n] == more[n]);
                }
                lemma_step_shaped(arena, r, a, b, done);
                lemma_solve_shaped(arena, next, rest, done);
            },
        }
    }
}

/// Unification of a coherent partition that succeeds ends with a coherent
/// partition.
pub proof fn lemma_solve_coherent(arena: Arena, r: Seq<Ty>, work: Seq<(Ty, Ty)>)
    requires
        solvable(arena, r, work),
        coherent(arena, r),
    ensures
        solve(arena, r, work) matches Ok(done) ==> coherent(arena, done),
{
    if let Ok(done) = solve(arena, r, work) {
        lemma_solve(arena, r, work);
        lemma_shaped_coarser(arena, r, done);
        lemma_solve_shaped(arena, r, work, done);
    }
}

} // verus!
