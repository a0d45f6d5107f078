//! Unification over a union-find forest of type handles.

use crate::context::Arena;
use crate::context::TyCtxt;
use crate::solvers::coherence::coherent;
use crate::solvers::coherence::lemma_grown_coherent;
use crate::solvers::coherence::lemma_solve_coherent;
use crate::ty::Shape;
use crate::ty::TermKind;
use crate::ty::Ty;
use crate::ty::TyKind;
use crate::ty::VarId;
use crate::ty::field_position;
use crate::ty::has_field;
use crate::ty::lemma_first_field;
use vstd::prelude::*;

verus! {

/// `r` maps every position to a position whose image is itself: it names one
/// representative for each class of a partition of `0..r.len()`.
pub open spec fn is_partition(r: Seq<Ty>) -> bool {
    forall|i: int|
        0 <= i < r.len() ==> 0 <= (#[trigger] r[i]).idx() < r.len() && r[r[i].idx()] == r[i]
}

/// The partition `r` after the class represented by `from` has been merged
/// into the class represented by `to`, whose representative it takes.
pub open spec fn merged(r: Seq<Ty>, from: Ty, to: Ty) -> Seq<Ty> {
    Seq::new(
        r.len(),
        |i: int|
            if r[i] == from {
                to
            } else {
                r[i]
            },
    )
}

/// The partition `r` with every position from `r.len()` up to `n` added as a
/// class of its own.
pub open spec fn grown(r: Seq<Ty>, n: nat) -> Seq<Ty> {
    Seq::new(
        if n > r.len() {
            n
        } else {
            r.len()
        },
        |i: int|
            if i < r.len() {
                r[i]
            } else {
                Ty { interned: i as usize }
            },
    )
}

/// Number of classes among the first `n` positions' representatives: the
/// positions below `n` that represent themselves.
pub open spec fn count_upto(r: Seq<Ty>, n: nat) -> nat
    decreases n,
{
    if n == 0 {
        0
    } else {
        count_upto(r, (n - 1) as nat) + if r[n - 1].idx() == n - 1 {
            1nat
        } else {
            0nat
        }
    }
}

/// Number of classes of the partition `r`.
pub open spec fn class_count(r: Seq<Ty>) -> nat {
    count_upto(r, r.len())
}

/// What one step of unification does to a pair of handles.
pub ghost enum Step {
    /// The partition afterwards and the pairs that remain to be unified
    /// because of this step, the one to take up first coming last.
    Next(Seq<Ty>, Seq<(Ty, Ty)>),
    /// The two shapes cannot be unified.
    Clash(Shape, Shape),
}

/// Unfolding of the recursive type `m`, which binds `v` in `body`, while the
/// pair `(a, b)` is unified and the other side is represented by `other`.
///
/// A binder whose body is represented by the binder itself carries no
/// structure and is absorbed by the other side. Otherwise the binder joins
/// the class of its body; what remains is to make the bound variable, where
/// it occurs, stand for the binder, and then to take up `(a, b)` again.
pub open spec fn unfold_step(
    arena: Arena,
    roots: Seq<Ty>,
    m: Ty,
    v: VarId,
    body: Ty,
    a: Ty,
    b: Ty,
    other: Ty,
) -> Step {
    let rbody = roots[body.idx()];
    if rbody == m {
        Step::Next(merged(roots, m, other), Seq::empty())
    } else if arena.contains(Shape::Var(v)) {
        Step::Next(
            merged(roots, m, rbody),
            seq![(a, b), (Ty { interned: arena.position(Shape::Var(v)) as usize }, m)],
        )
    } else {
        Step::Next(merged(roots, m, rbody), seq![(a, b)])
    }
}

/// One step of unification on the pair `(a, b)`.
///
/// Handles of one class are unified already. Otherwise the step goes by the
/// shapes of the two representatives. A variable joins the class of the other
/// side; of two variables the one with the higher position joins the other.
/// A recursive binder is unfolded. Two constructors that match are merged,
/// and their sub-terms remain to be unified pairwise; two that do not match
/// clash.
pub open spec fn unify_step(arena: Arena, roots: Seq<Ty>, a: Ty, b: Ty) -> Step {
    let ra = roots[a.idx()];
    let rb = roots[b.idx()];
    let ka = arena.shape(ra);
    let kb = arena.shape(rb);
    if ra == rb {
        Step::Next(roots, Seq::empty())
    } else if ka.term_kind() == TermKind::Var {
        if kb.term_kind() == TermKind::Var && ra.idx() < rb.idx() {
            Step::Next(merged(roots, rb, ra), Seq::empty())
        } else {
            Step::Next(merged(roots, ra, rb), Seq::empty())
        }
    } else if kb.term_kind() == TermKind::Var {
        Step::Next(merged(roots, rb, ra), Seq::empty())
    } else if let Shape::Recursive(v, body) = ka {
        unfold_step(arena, roots, ra, v, body, a, b, rb)
    } else if let Shape::Recursive(v, body) = kb {
        unfold_step(arena, roots, rb, v, body, a, b, ra)
    } else if ka.matches(kb) {
        Step::Next(merged(roots, ra, rb), ka.sub_pairs(kb).reverse())
    } else {
        Step::Clash(ka, kb)
    }
}

/// Whatever is in one class of `r` is in one class of `s`.
pub open spec fn coarsens(r: Seq<Ty>, s: Seq<Ty>) -> bool {
    &&& r.len() == s.len()
    &&& forall|i: int, j: int|
        0 <= i < r.len() && 0 <= j < r.len() && r[i] == r[j] ==> s[i] == s[j]
}

/// Every handle in `work` is a position of `roots`.
pub open spec fn pairs_within(work: Seq<(Ty, Ty)>, n: nat) -> bool {
    forall|k: int|
        0 <= k < work.len() ==> 0 <= (#[trigger] work[k]).0.idx() < n && 0 <= work[k].1.idx() < n
}

/// `roots` partitions the handles of the well-formed `arena`, and `work` is
/// made of such handles.
pub open spec fn solvable(arena: Arena, roots: Seq<Ty>, work: Seq<(Ty, Ty)>) -> bool {
    &&& arena.wf()
    &&& roots.len() == arena.kinds.len()
    &&& is_partition(roots)
    &&& pairs_within(work, roots.len())
}

/// Unification of all the pairs in `work`, the last one first: the partition
/// in which every pair, and every pair of sub-terms that this forces, is
/// unified; or the two shapes of the first clash.
pub open spec fn solve(arena: Arena, roots: Seq<Ty>, work: Seq<(Ty, Ty)>) -> Result<
    Seq<Ty>,
    (Shape, Shape),
>
    decreases class_count(roots), work.len(),
    when solvable(arena, roots, work)
    via solve_decreases
{
    if work.len() == 0 {
        Ok(roots)
    } else {
        match unify_step(arena, roots, work.last().0, work.last().1) {
            Step::Clash(ka, kb) => Err((ka, kb)),
            Step::Next(next, more) => solve(arena, next, work.drop_last() + more),
        }
    }
}

/// Every step either leaves one class less or takes a pair off `work`.
#[via_fn]
proof fn solve_decreases(arena: Arena, roots: Seq<Ty>, work: Seq<(Ty, Ty)>) {
    if work.len() != 0 {
        lemma_step(arena, roots, work.last().0, work.last().1);
    }
}

/// Merging two different classes leaves one class less.
pub proof fn lemma_merged(r: Seq<Ty>, from: Ty, to: Ty)
    requires
        is_partition(r),
        0 <= from.idx() < r.len(),
        0 <= to.idx() < r.len(),
        r[from.idx()] == from,
        r[to.idx()] == to,
        from != to,
    ensures
        is_partition(merged(r, from, to)),
        class_count(merged(r, from, to)) + 1 == class_count(r),
        merged(r, from, to).len() == r.len(),
{
    let m = merged(r, from, to);
    assert forall|i: int| 0 <= i < m.len() implies 0 <= (#[trigger] m[i]).idx() < m.len()
        && m[m[i].idx()] == m[i] by {
        let _ = r[i];
    }
    lemma_count_merged(r, from, to, r.len());
}

/// Merging two different classes leaves one representative less among the
/// first `n` positions if the one that is lost is among them.
proof fn lemma_count_merged(r: Seq<Ty>, from: Ty, to: Ty, n: nat)
    requires
        is_partition(r),
        0 <= from.idx() < r.len(),
        0 <= to.idx() < r.len(),
        r[from.idx()] == from,
        r[to.idx()] == to,
        from != to,
        n <= r.len(),
    ensures
        count_upto(merged(r, from, to), n) + (if from.idx() < n {
            1nat
        } else {
            0nat
        }) == count_upto(r, n),
    decreases n,
{
    if n > 0 {
        lemma_count_merged(r, from, to, (n - 1) as nat);
        let _ = r[n - 1];
    }
}

/// A step on handles of a partition of a well-formed arena that does not
/// clash yields a partition again. Either nothing changes and nothing
/// remains, or there is one class less.
#[verifier::rlimit(50)]
pub proof fn lemma_step(arena: Arena, roots: Seq<Ty>, a: Ty, b: Ty)
    requires
        solvable(arena, roots, seq![(a, b)]),
    ensures
        match unify_step(arena, roots, a, b) {
            Step::Clash(_, _) => true,
            Step::Next(next, more) => {
                &&& solvable(arena, next, more)
                &&& (next == roots && more.len() == 0 || class_count(next) < class_count(roots))
                &&& coarsens(roots, next)
                &&& (next[a.idx()] == next[b.idx()] || more.len() > 0 && more[0] == (a, b))
            },
        },
{
    let w = seq![(a, b)];
    assert(w[0] == (a, b));
    let ra = roots[a.idx()];
    let rb = roots[b.idx()];
    let ka = arena.shape(ra);
    let kb = arena.shape(rb);
    if ra != rb {
        assert(ka.fits(ra.idx(), arena.next_var));
        assert(kb.fits(rb.idx(), arena.next_var));
        lemma_merged(roots, ra, rb);
        lemma_merged(roots, rb, ra);
        if ka.term_kind() == TermKind::Var || kb.term_kind() == TermKind::Var {
        } else if let Shape::Recursive(v, body) = ka {
            lemma_unfold(arena, roots, ra, v, body, a, b, rb);
        } else if let Shape::Recursive(v, body) = kb {
            lemma_unfold(arena, roots, rb, v, body, a, b, ra);
        } else if ka.matches(kb) {
            lemma_sub_pairs(ka, kb, ra.idx(), rb.idx(), arena.next_var);
            let more = ka.sub_pairs(kb).reverse();
            assert forall|k: int| 0 <= k < more.len() implies 0 <= (#[trigger] more[k]).0.idx()
                < roots.len() && 0 <= more[k].1.idx() < roots.len() by {
                let _ = ka.sub_pairs(kb)[more.len() - 1 - k];
            }
        }
    }
}

#[verifier::rlimit(50)]
/// Unfolding a binder yields a partition again, with one class less.
proof fn lemma_unfold(
    arena: Arena,
    roots: Seq<Ty>,
    m: Ty,
    v: VarId,
    body: Ty,
    a: Ty,
    b: Ty,
    other: Ty,
)
    requires
        solvable(arena, roots, seq![(a, b)]),
        0 <= m.idx() < roots.len(),
        0 <= other.idx() < roots.len(),
        roots[m.idx()] == m,
        roots[other.idx()] == other,
        m != other,
        arena.shape(m) == Shape::Recursive(v, body),
    ensures
        match unfold_step(arena, roots, m, v, body, a, b, other) {
            Step::Clash(_, _) => false,
            Step::Next(next, more) => {
                &&& solvable(arena, next, more)
                &&& class_count(next) < class_count(roots)
                &&& coarsens(roots, next)
                &&& (roots[a.idx()] == m && roots[b.idx()] == other || roots[a.idx()] == other
                    && roots[b.idx()] == m) ==> next[a.idx()] == next[b.idx()] || more.len() > 0
                    && more[0] == (a, b)
            },
        },
{
    let w = seq![(a, b)];
    assert(w[0] == (a, b));
    assert(arena.kinds[m.idx()].fits(m.idx(), arena.next_var));
    assert(arena.shape(m).children()[0] == body);
    let rbody = roots[body.idx()];
    lemma_merged(roots, m, other);
    if rbody != m {
        lemma_merged(roots, m, rbody);
        if arena.contains(Shape::Var(v)) {
            let p = arena.position(Shape::Var(v));
            assert(p as usize == p);
        }
    }
}

/// Unification that succeeds yields a partition of the same handles in which
/// every pair of `work` is in one class, and which keeps together whatever
/// was in one class before.
#[verifier::rlimit(50)]
pub proof fn lemma_solve(arena: Arena, roots: Seq<Ty>, work: Seq<(Ty, Ty)>)
    requires
        solvable(arena, roots, work),
    ensures
        solve(arena, roots, work) matches Ok(r) ==> {
            &&& is_partition(r)
            &&& coarsens(roots, r)
            &&& forall|k: int|
                0 <= k < work.len() ==> r[(#[trigger] work[k]).0.idx()] == r[work[k].1.idx()]
        },
    decreases class_count(roots), work.len(),
{
    if work.len() > 0 {
        let (a, b) = work.last();
        assert(seq![(a, b)][0] == (a, b));
        lemma_step(arena, roots, a, b);
        match unify_step(arena, roots, a, b) {
            Step::Clash(_, _) => {},
            Step::Next(next, more) => {
                let rest = work.drop_last() + more;
                assert forall|k: int| 0 <= k < rest.len() implies 0 <= (
                #[trigger] rest[k]).0.idx() < next.len() && 0 <= rest[k].1.idx()
                    < next.len() by {
                    if k < work.len() - 1 {
                        let _ = work[k];
                    } else {
                        let _ = more[k - (work.len() - 1)];
                    }
                }
                lemma_solve(arena, next, rest);
                if let Ok(r) = solve(arena, next, rest) {
                    assert forall|k: int| 0 <= k < work.len() implies r[(
                    #[trigger] work[k]).0.idx()] == r[work[k].1.idx()] by {
                        if k < work.len() - 1 {
                            assert(rest[k] == work[k]);
                        } else if next[a.idx()] != next[b.idx()] {
                            assert(rest[work.len() - 1] == more[0]);
                        }
                    }
                }
            },
        }
    }
}

/// Unification fails only on two constructors that do not match: the shapes
/// it reports are such.
pub proof fn lemma_clash(arena: Arena, roots: Seq<Ty>, work: Seq<(Ty, Ty)>)
    requires
        solvable(arena, roots, work),
    ensures
        solve(arena, roots, work) matches Err((ka, kb)) ==> {
            &&& ka.term_kind() == TermKind::Cons
            &&& kb.term_kind() == TermKind::Cons
            &&& !ka.matches(kb)
        },
    decreases class_count(roots), work.len(),
{
    if work.len() > 0 {
        let (a, b) = work.last();
        assert(seq![(a, b)][0] == (a, b));
        lemma_step(arena, roots, a, b);
        match unify_step(arena, roots, a, b) {
            Step::Clash(_, _) => {},
            Step::Next(next, more) => {
                let rest = work.drop_last() + more;
                assert forall|k: int| 0 <= k < rest.len() implies 0 <= (
                #[trigger] rest[k]).0.idx() < next.len() && 0 <= rest[k].1.idx()
                    < next.len() by {
                    if k < work.len() - 1 {
                        let _ = work[k];
                    } else {
                        let _ = more[k - (work.len() - 1)];
                    }
                }
                lemma_clash(arena, next, rest);
            },
        }
    }
}

/// Two classes whose representatives are constructors that do not match
/// cannot be unified: unification reports the clash of those two.
pub proof fn lemma_mismatch_clashes(arena: Arena, roots: Seq<Ty>, a: Ty, b: Ty)
    requires
        solvable(arena, roots, seq![(a, b)]),
        roots[a.idx()] != roots[b.idx()],
        arena.shape(roots[a.idx()]).term_kind() == TermKind::Cons,
        arena.shape(roots[b.idx()]).term_kind() == TermKind::Cons,
        !arena.shape(roots[a.idx()]).matches(arena.shape(roots[b.idx()])),
    ensures
        solve(arena, roots, seq![(a, b)]) == Err::<Seq<Ty>, (Shape, Shape)>(
            (arena.shape(roots[a.idx()]), arena.shape(roots[b.idx()])),
        ),
{
    assert(seq![(a, b)].last() == (a, b));
}

/// A variable that represents its class can be unified with anything: its
/// class joins the class of the other side, and nothing else changes.
pub proof fn lemma_variable_unifies(arena: Arena, roots: Seq<Ty>, a: Ty, b: Ty)
    requires
        solvable(arena, roots, seq![(a, b)]),
        roots[a.idx()] != roots[b.idx()],
        arena.shape(roots[a.idx()]).term_kind() == TermKind::Var,
        arena.shape(roots[b.idx()]).term_kind() != TermKind::Var,
    ensures
        solve(arena, roots, seq![(a, b)]) == Ok::<Seq<Ty>, (Shape, Shape)>(
            merged(roots, roots[a.idx()], roots[b.idx()]),
        ),
{
    let w = seq![(a, b)];
    assert(w.last() == (a, b));
    assert(w[0] == (a, b));
    lemma_step(arena, roots, a, b);
    let next = merged(roots, roots[a.idx()], roots[b.idx()]);
    assert(w.drop_last() + Seq::<(Ty, Ty)>::empty() =~= Seq::<(Ty, Ty)>::empty());
    assert(solve(arena, next, Seq::<(Ty, Ty)>::empty()) == Ok::<Seq<Ty>, (Shape, Shape)>(next));
}

/// The representative of a representative is itself.
pub proof fn lemma_find_idempotent(r: Seq<Ty>, x: Ty)
    requires
        is_partition(r),
    ensures
        rep(r, rep(r, x)) == rep(r, x),
{
    if 0 <= x.idx() < r.len() {
        let _ = r[x.idx()];
    }
}

/// Being in one class is an equivalence: reflexive, symmetric and transitive.
pub proof fn lemma_equivalence(r: Seq<Ty>, x: Ty, y: Ty, z: Ty)
    ensures
        rep(r, x) == rep(r, x),
        rep(r, x) == rep(r, y) ==> rep(r, y) == rep(r, x),
        rep(r, x) == rep(r, y) && rep(r, y) == rep(r, z) ==> rep(r, x) == rep(r, z),
{
}

/// The sub-terms that two matching shapes pair up are sub-terms of the two.
#[verifier::rlimit(50)]
pub proof fn lemma_sub_pairs(ka: Shape, kb: Shape, ba: int, bb: int, next_var: nat)
    requires
        ka.matches(kb),
        ka.fits(ba, next_var),
        kb.fits(bb, next_var),
    ensures
        ka.sub_pairs(kb).len() == ka.children().len(),
        forall|k: int|
            0 <= k < ka.sub_pairs(kb).len() ==> 0 <= (#[trigger] ka.sub_pairs(kb)[k]).0.idx() < ba
                && 0 <= ka.sub_pairs(kb)[k].1.idx() < bb,
{
    assert forall|k: int| 0 <= k < ka.sub_pairs(kb).len() implies 0 <= (
    #[trigger] ka.sub_pairs(kb)[k]).0.idx() < ba && 0 <= ka.sub_pairs(kb)[k].1.idx() < bb by {
        match (ka, kb) {
            (Shape::Pointer(x), Shape::Pointer(y)) => {
                assert(ka.children()[0] == x);
                assert(kb.children()[0] == y);
            },
            (Shape::Function(ps, r), Shape::Function(qs, s)) => {
                let _ = ka.children()[k];
                let _ = kb.children()[k];
            },
            (Shape::Record(fs), Shape::Record(gs)) => {
                let _ = ka.children()[k];
                assert(has_field(gs, fs[k].0));
                let w = choose|j: int| 0 <= j < gs.len() && #[trigger] gs[j].0 == fs[k].0;
                lemma_first_field(gs, fs[k].0, w);
                let j = field_position(gs, fs[k].0);
                let _ = kb.children()[j];
            },
            _ => {},
        }
    }
}

/// The parents `now` after the last `k` writes that `trail` notes have been
/// taken back, the last one first. An entry of the trail is the position that
/// was written and the parent that stood there before.
spec fn undone(now: Seq<Ty>, trail: Seq<(usize, Ty)>, k: nat) -> Seq<Ty>
    decreases k,
{
    if k == 0 {
        now
    } else {
        undone(now.update(trail[k - 1].0 as int, trail[k - 1].1), trail, (k - 1) as nat)
    }
}

/// Taking back all writes that `trail` notes turns the parents `now` into the
/// parents `start`.
spec fn restorable(start: Seq<Ty>, now: Seq<Ty>, trail: Seq<(usize, Ty)>) -> bool {
    &&& now.len() == start.len()
    &&& forall|k: int| 0 <= k < trail.len() ==> (#[trigger] trail[k]).0 < now.len()
    &&& undone(now, trail, trail.len()) == start
}

/// Taking back the first `k` writes of a trail does not depend on what the
/// trail notes later.
proof fn lemma_undone_prefix(now: Seq<Ty>, trail: Seq<(usize, Ty)>, entry: (usize, Ty), k: nat)
    requires
        k <= trail.len(),
    ensures
        undone(now, trail.push(entry), k) == undone(now, trail, k),
    decreases k,
{
    if k > 0 {
        assert(trail.push(entry)[k - 1] == trail[k - 1]);
        lemma_undone_prefix(
            now.update(trail[k - 1].0 as int, trail[k - 1].1),
            trail,
            entry,
            (k - 1) as nat,
        );
    }
}

/// A write that is noted can be taken back.
proof fn lemma_noted_write(start: Seq<Ty>, now: Seq<Ty>, trail: Seq<(usize, Ty)>, i: usize, p: Ty)
    requires
        restorable(start, now, trail),
        i < now.len(),
    ensures
        restorable(start, now.update(i as int, p), trail.push((i, now[i as int]))),
{
    let entry = (i, now[i as int]);
    let more = trail.push(entry);
    assert(more[trail.len() as int] == entry);
    assert(now.update(i as int, p).update(i as int, now[i as int]) =~= now);
    lemma_undone_prefix(now, trail, entry, trail.len());
    assert forall|k: int| 0 <= k < more.len() implies (#[trigger] more[k]).0 < now.len() by {
        if k < trail.len() {
            assert(more[k] == trail[k]);
        }
    }
}

/// A disjoint-set forest over type handles: every handle points towards the
/// representative of its class, and a representative points to itself.
pub struct UnionFind {
    parent: Vec<Ty>,
    roots: Ghost<Seq<Ty>>,
    depth: Ghost<Seq<nat>>,
}

impl View for UnionFind {
    type V = Seq<Ty>;

    /// The representative of every handle of the forest.
    closed spec fn view(&self) -> Seq<Ty> {
        self.roots@
    }
}

impl UnionFind {
    /// Following the parents from any handle leads, in finitely many steps,
    /// to the representative that the view names for it.
    pub closed spec fn wf(&self) -> bool {
        &&& self.roots@.len() == self.parent@.len()
        &&& self.depth@.len() == self.parent@.len()
        &&& forall|i: int|
            0 <= i < self.parent@.len() ==> {
                &&& 0 <= (#[trigger] self.parent@[i]).idx() < self.parent@.len()
                &&& 0 <= self.roots@[i].idx() < self.parent@.len()
                &&& self.parent@[self.roots@[i].idx()] == self.roots@[i]
                &&& (self.parent@[i].idx() == i ==> self.roots@[i].idx() == i)
                &&& (self.parent@[i].idx() != i ==> self.roots@[i]
                    == self.roots@[self.parent@[i].idx()] && self.depth@[self.parent@[i].idx()]
                    < self.depth@[i])
            }
    }

    pub proof fn lemma_partition(&self)
        requires
            self.wf(),
        ensures
            is_partition(self@),
    {
        assert forall|i: int| 0 <= i < self.roots@.len() implies 0 <= (
        #[trigger] self.roots@[i]).idx() < self.roots@.len() && self.roots@[self.roots@[i].idx()]
            == self.roots@[i] by {
            let _ = self.parent@[i];
            let r = self.roots@[i].idx();
            let _ = self.parent@[r];
        }
    }

    /// The forest of `n` handles, each a class of its own.
    pub fn new(n: usize) -> (uf: UnionFind)
        ensures
            uf.wf(),
            uf@ == grown(Seq::empty(), n as nat),
    {
        let mut uf = UnionFind {
            parent: Vec::new(),
            roots: Ghost(Seq::empty()),
            depth: Ghost(Seq::empty()),
        };
        uf.grow(n);
        assert(uf.roots@ =~= grown(Seq::empty(), n as nat));
        uf
    }

    /// Adds singleton classes until the forest covers `0..n`.
    pub fn grow(&mut self, n: usize)
        requires
            old(self).wf(),
        ensures
            final(self).wf(),
            final(self)@ == grown(old(self)@, n as nat),
    {
        assert(self.roots@ =~= grown(old(self).roots@, self.roots@.len()));
        while self.parent.len() < n
            invariant
                self.wf(),
                old(self).roots@.len() <= self.roots@.len(),
                self.roots@.len() <= n || self.roots@.len() == old(self).roots@.len(),
                self.roots@ == grown(old(self).roots@, self.roots@.len()),
            decreases n - self.parent.len(),
        {
            let i = self.parent.len();
            let ghost before = *self;
            self.parent.push(Ty { interned: i });
            proof {
                self.roots@ = self.roots@.push(Ty { interned: i });
                self.depth@ = self.depth@.push(0);
                assert forall|j: int| 0 <= j < self.parent@.len() implies {
                    &&& 0 <= (#[trigger] self.parent@[j]).idx() < self.parent@.len()
                    &&& 0 <= self.roots@[j].idx() < self.parent@.len()
                    &&& self.parent@[self.roots@[j].idx()] == self.roots@[j]
                    &&& (self.parent@[j].idx() == j ==> self.roots@[j].idx() == j)
                    &&& (self.parent@[j].idx() != j ==> self.roots@[j]
                        == self.roots@[self.parent@[j].idx()]
                        && self.depth@[self.parent@[j].idx()] < self.depth@[j])
                } by {
                    if j < i {
                        let _ = before.parent@[j];
                    }
                }
                assert(self.roots@ =~= grown(old(self).roots@, self.roots@.len()));
            }
        }
        assert(self.roots@ =~= grown(old(self).roots@, n as nat));
    }

    /// Number of handles of the forest.
    pub fn len(&self) -> (n: usize)
        requires
            self.wf(),
        ensures
            n == self@.len(),
    {
        self.parent.len()
    }

    /// The representative of the class of `x`.
    pub fn find(&self, x: Ty) -> (r: Ty)
        requires
            self.wf(),
            0 <= x.idx() < self@.len(),
        ensures
            r == self@[x.idx()],
    {
        let mut cur = x;
        loop
            invariant
                self.wf(),
                0 <= x.idx() < self.roots@.len(),
                0 <= cur.idx() < self.roots@.len(),
                self.roots@[cur.idx()] == self.roots@[x.idx()],
            decreases self.depth@[cur.idx()],
        {
            let up = self.parent[cur.interned];
            if up.interned == cur.interned {
                return cur;
            }
            cur = up;
        }
    }

    /// The representative of the class of `x`; shortens the path to it.
    pub fn find_mut(&mut self, x: Ty) -> (r: Ty)
        requires
            old(self).wf(),
            0 <= x.idx() < old(self)@.len(),
        ensures
            final(self).wf(),
            final(self)@ == old(self)@,
            r == old(self)@[x.idx()],
    {
        let mut trail: Vec<(usize, Ty)> = Vec::new();
        self.find_noting(x, &mut trail, Ghost(self.parent@))
    }

    /// The representative of the class of `x`; shortens the path to it and
    /// notes on `trail` what it writes.
    #[verifier::rlimit(50)]
    fn find_noting(&mut self, x: Ty, trail: &mut Vec<(usize, Ty)>, Ghost(start): Ghost<Seq<Ty>>) -> (r:
        Ty)
        requires
            old(self).wf(),
            0 <= x.idx() < old(self)@.len(),
            restorable(start, old(self).parent@, old(trail)@),
        ensures
            final(self).wf(),
            final(self)@ == old(self)@,
            r == old(self)@[x.idx()],
            restorable(start, final(self).parent@, final(trail)@),
    {
        let mut cur = x;
        let mut parent = self.parent[cur.interned];
        while parent.interned != cur.interned
            invariant
                self.wf(),
                self.roots@ == old(self).roots@,
                0 <= x.idx() < self.roots@.len(),
                0 <= cur.idx() < self.roots@.len(),
                parent == self.parent@[cur.idx()],
                self.roots@[cur.idx()] == self.roots@[x.idx()],
                restorable(start, self.parent@, trail@),
            decreases self.depth@[cur.idx()],
        {
            let grandparent = self.parent[parent.interned];
            let ghost before = *self;
            proof {
                let _ = before.parent@[parent.idx()];
                lemma_noted_write(start, self.parent@, trail@, cur.interned, grandparent);
            }
            trail.push((cur.interned, parent));
            self.parent.set(cur.interned, grandparent);
            proof {
                assert forall|j: int| 0 <= j < self.parent@.len() implies {
                    &&& 0 <= (#[trigger] self.parent@[j]).idx() < self.parent@.len()
                    &&& 0 <= self.roots@[j].idx() < self.parent@.len()
                    &&& self.parent@[self.roots@[j].idx()] == self.roots@[j]
                    &&& (self.parent@[j].idx() == j ==> self.roots@[j].idx() == j)
                    &&& (self.parent@[j].idx() != j ==> self.roots@[j]
                        == self.roots@[self.parent@[j].idx()]
                        && self.depth@[self.parent@[j].idx()] < self.depth@[j])
                } by {
                    let _ = before.parent@[j];
                    let _ = before.parent@[before.roots@[j].idx()];
                }
            }
            cur = parent;
            parent = grandparent;
        }
        cur
    }

    /// Whether `x` and `y` are in one class.
    pub fn equiv(&self, x: Ty, y: Ty) -> (b: bool)
        requires
            self.wf(),
            0 <= x.idx() < self@.len(),
            0 <= y.idx() < self@.len(),
        ensures
            b == (self@[x.idx()] == self@[y.idx()]),
    {
        self.find(x).interned == self.find(y).interned
    }

    /// Merges the class of `x` into the class of `y`. Returns whether the two
    /// were different classes before.
    pub fn union(&mut self, x: Ty, y: Ty) -> (changed: bool)
        requires
            old(self).wf(),
            0 <= x.idx() < old(self)@.len(),
            0 <= y.idx() < old(self)@.len(),
        ensures
            final(self).wf(),
            changed == (old(self)@[x.idx()] != old(self)@[y.idx()]),
            final(self)@ == merged(
                old(self)@,
                old(self)@[x.idx()],
                old(self)@[y.idx()],
            ),
    {
        if x.interned == y.interned {
            assert(self.roots@ =~= merged(self.roots@, self.roots@[x.idx()], self.roots@[y.idx()]));
            return false;
        }
        proof {
            self.lemma_partition();
        }
        let xrep = self.find_mut(x);
        let yrep = self.find_mut(y);
        if xrep.interned == yrep.interned {
            assert(self.roots@ =~= merged(self.roots@, xrep, yrep));
            return false;
        }
        self.link(xrep, yrep);
        true
    }

    /// Makes the root `xrep` a child of the root `yrep`.
    #[verifier::rlimit(50)]
    fn link(&mut self, xrep: Ty, yrep: Ty)
        requires
            old(self).wf(),
            0 <= xrep.idx() < old(self)@.len(),
            0 <= yrep.idx() < old(self)@.len(),
            old(self)@[xrep.idx()] == xrep,
            old(self)@[yrep.idx()] == yrep,
            xrep != yrep,
        ensures
            final(self).wf(),
            final(self)@ == merged(old(self)@, xrep, yrep),
            final(self).parent@ == old(self).parent@.update(xrep.idx(), yrep),
    {
        let ghost before = *self;
        self.parent.set(xrep.interned, yrep);
        proof {
            let shift = before.depth@[yrep.idx()] + 1;
            self.roots@ = merged(before.roots@, xrep, yrep);
            self.depth@ = Seq::new(
                before.depth@.len(),
                |i: int|
                    if before.roots@[i] == xrep {
                        before.depth@[i] + shift
                    } else {
                        before.depth@[i]
                    },
            );
            let _ = before.parent@[xrep.idx()];
            let _ = before.parent@[yrep.idx()];
            assert forall|j: int| 0 <= j < self.parent@.len() implies {
                &&& 0 <= (#[trigger] self.parent@[j]).idx() < self.parent@.len()
                &&& 0 <= self.roots@[j].idx() < self.parent@.len()
                &&& self.parent@[self.roots@[j].idx()] == self.roots@[j]
                &&& (self.parent@[j].idx() == j ==> self.roots@[j].idx() == j)
                &&& (self.parent@[j].idx() != j ==> self.roots@[j]
                    == self.roots@[self.parent@[j].idx()] && self.depth@[self.parent@[j].idx()]
                    < self.depth@[j])
            } by {
                let _ = before.parent@[j];
                let _ = before.parent@[before.roots@[j].idx()];
                let _ = before.parent@[before.parent@[j].idx()];
            }
        }
    }

    /// Makes the root `x` a child of the root `y` and notes the write on
    /// `trail`.
    fn link_noting(&mut self, x: Ty, y: Ty, trail: &mut Vec<(usize, Ty)>, Ghost(start): Ghost<Seq<Ty>>)
        requires
            old(self).wf(),
            0 <= x.idx() < old(self)@.len(),
            0 <= y.idx() < old(self)@.len(),
            old(self)@[x.idx()] == x,
            old(self)@[y.idx()] == y,
            x != y,
            restorable(start, old(self).parent@, old(trail)@),
        ensures
            final(self).wf(),
            final(self)@ == merged(old(self)@, x, y),
            restorable(start, final(self).parent@, final(trail)@),
    {
        proof {
            lemma_noted_write(start, self.parent@, trail@, x.interned, y);
        }
        trail.push((x.interned, self.parent[x.interned]));
        self.link(x, y);
    }
}

/// Two types that cannot be unified, by the descriptions of their
/// representatives.
#[derive(Debug)]
pub struct TypeMismatch {
    pub left: TyKind,
    pub right: TyKind,
}

/// Whether `res` reports what `expected` says: the same success, or the clash
/// of the same two shapes.
pub open spec fn reports(res: Result<(), TypeMismatch>, expected: Result<Seq<Ty>, (Shape, Shape)>) -> bool {
    match res {
        Ok(_) => expected is Ok,
        Err(e) => expected == Err::<Seq<Ty>, (Shape, Shape)>((e.left@, e.right@)),
    }
}

/// Representative of `t` in the partition `r`; a handle beyond the partition
/// represents itself.
pub open spec fn rep(r: Seq<Ty>, t: Ty) -> Ty {
    if 0 <= t.idx() < r.len() {
        r[t.idx()]
    } else {
        t
    }
}

/// Appends to `work` the sub-terms that `ka` and `kb` pair up, last pair
/// first.
#[verifier::rlimit(50)]
fn push_sub_pairs(ka: &TyKind, kb: &TyKind, work: &mut Vec<(Ty, Ty)>)
    requires
        ka@.matches(kb@),
    ensures
        final(work)@ == old(work)@ + ka@.sub_pairs(kb@).reverse(),
{
    let ghost pairs = ka@.sub_pairs(kb@);
    match (ka, kb) {
        (TyKind::Pointer(a), TyKind::Pointer(b)) => {
            work.push((*a, *b));
            assert(work@ =~= old(work)@ + pairs.reverse());
        },
        (TyKind::Function(ps, r), TyKind::Function(qs, s)) => {
            work.push((*r, *s));
            let mut i: usize = ps.len();
            while i > 0
                invariant
                    i <= ps.len(),
                    ps.len() == qs.len(),
                    pairs == ka@.sub_pairs(kb@),
                    ka@ == Shape::Function(ps@, *r),
                    kb@ == Shape::Function(qs@, *s),
                    work@ == old(work)@ + pairs.reverse().subrange(0, ps.len() + 1 - i),
                decreases i,
            {
                i -= 1;
                work.push((ps[i], qs[i]));
                assert(work@ =~= old(work)@ + pairs.reverse().subrange(0, ps.len() + 1 - i));
            }
            assert(work@ =~= old(work)@ + pairs.reverse());
        },
        (TyKind::Record(fs), TyKind::Record(gs)) => {
            let mut i: usize = fs.len();
            assert(work@ =~= old(work)@ + pairs.reverse().subrange(0, 0));
            while i > 0
                invariant
                    i <= fs.len(),
                    fs.len() == gs.len(),
                    pairs == ka@.sub_pairs(kb@),
                    ka@.matches(kb@),
                    ka@ == Shape::Record(crate::ty::fields_view(fs@)),
                    kb@ == Shape::Record(crate::ty::fields_view(gs@)),
                    work@ == old(work)@ + pairs.reverse().subrange(0, fs.len() - i),
                decreases i,
            {
                i -= 1;
                let ghost name = crate::ty::fields_view(fs@)[i as int].0;
                assert(has_field(crate::ty::fields_view(gs@), name));
                match crate::ty::field_index(gs, &fs[i].0) {
                    Some(j) => {
                        work.push((fs[i].1, gs[j].1));
                    },
                    None => {},
                }
                assert(work@ =~= old(work)@ + pairs.reverse().subrange(0, fs.len() - i));
            }
            assert(work@ =~= old(work)@ + pairs.reverse());
        },
        _ => {
            assert(work@ =~= old(work)@ + pairs.reverse());
        },
    }
}

/// The partition in which `t1` and `t2`, and all that this forces, are
/// unified, starting from the partition `before` extended to all handles of
/// `arena`; or the shapes that clash.
pub open spec fn unified(arena: Arena, before: Seq<Ty>, t1: Ty, t2: Ty) -> Result<
    Seq<Ty>,
    (Shape, Shape),
> {
    solve(arena, grown(before, arena.kinds.len()), seq![(t1, t2)])
}

/// Unifier of types: keeps, for the handles of one type context, which of
/// them are known to stand for the same type.
pub struct UnionFindSolver {
    unionfind: UnionFind,
}

impl View for UnionFindSolver {
    type V = Seq<Ty>;

    /// The representative of every handle that the solver has met.
    closed spec fn view(&self) -> Seq<Ty> {
        self.unionfind.roots@
    }
}

impl Default for UnionFindSolver {
    fn default() -> (solver: UnionFindSolver)
        ensures
            solver.wf(),
            solver@ == Seq::<Ty>::empty(),
    {
        UnionFindSolver::new()
    }
}

impl UnionFindSolver {
    /// The forest is well-formed.
    pub closed spec fn wf(&self) -> bool {
        self.unionfind.wf()
    }

    /// The view of a well-formed solver is a partition.
    pub proof fn lemma_partition(&self)
        requires
            self.wf(),
        ensures
            is_partition(self@),
    {
        self.unionfind.lemma_partition();
    }

    /// A solver that has met no handle.
    pub fn new() -> (solver: UnionFindSolver)
        ensures
            solver.wf(),
            solver@ == Seq::<Ty>::empty(),
    {
        let solver = UnionFindSolver { unionfind: UnionFind::new(0) };
        assert(solver@ =~= Seq::<Ty>::empty());
        solver
    }

    /// The representative of the class of `x`.
    pub fn find(&mut self, x: Ty) -> (r: Ty)
        requires
            old(self).wf(),
        ensures
            final(self).wf(),
            final(self)@ == old(self)@,
            r == rep(old(self)@, x),
    {
        if x.interned < self.unionfind.len() {
            self.unionfind.find_mut(x)
        } else {
            x
        }
    }

    /// The description of the representative of `t`: what is known of the
    /// type that `t` stands for.
    pub fn resolve<'a>(&mut self, interner: &'a TyCtxt, t: Ty) -> (kind: &'a TyKind)
        requires
            old(self).wf(),
            old(self)@.len() <= interner@.kinds.len(),
            interner@.valid(t),
        ensures
            final(self).wf(),
            final(self)@ == old(self)@,
            kind@ == interner@.shape(rep(old(self)@, t)),
    {
        proof {
            self.unionfind.lemma_partition();
        }
        let r = self.find(t);
        interner.ty_kind(r.interned)
    }

    /// Whether `x` and `y` are known to stand for the same type.
    pub fn equivalent(&self, x: Ty, y: Ty) -> (b: bool)
        requires
            self.wf(),
        ensures
            b == (rep(self@, x) == rep(self@, y)),
    {
        let n = self.unionfind.len();
        proof {
            self.unionfind.lemma_partition();
        }
        let rx = if x.interned < n {
            self.unionfind.find(x)
        } else {
            x
        };
        let ry = if y.interned < n {
            self.unionfind.find(y)
        } else {
            y
        };
        rx.interned == ry.interned
    }

    /// Unifies `t1` and `t2`, and with them whatever sub-terms of the two this
    /// forces to be equal. Where two constructors clash nothing is unified, and
    /// the descriptions of the two are returned.
    #[verifier::rlimit(50)]
    pub fn unify(&mut self, interner: &TyCtxt, t1: Ty, t2: Ty) -> (res: Result<(), TypeMismatch>)
        requires
            old(self).wf(),
            interner.wf(),
            old(self)@.len() <= interner@.kinds.len(),
            interner@.valid(t1),
            interner@.valid(t2),
        ensures
            final(self).wf(),
            final(self)@.len() == interner@.kinds.len(),
            reports(res, unified(interner@, old(self)@, t1, t2)),
            res is Ok ==> unified(interner@, old(self)@, t1, t2) == Ok::<Seq<Ty>, (Shape, Shape)>(
                final(self)@,
            ),
            res is Err ==> final(self)@ == grown(old(self)@, interner@.kinds.len()),
            res matches Err(e) ==> e.left@.term_kind() == TermKind::Cons && e.right@.term_kind()
                == TermKind::Cons && !e.left@.matches(e.right@),
            res is Ok ==> rep(final(self)@, t1) == rep(final(self)@, t2),
            coarsens(grown(old(self)@, interner@.kinds.len()), final(self)@),
            coherent(interner@, old(self)@) ==> coherent(interner@, final(self)@),
    {
        proof {
            interner.lemma_int_ty();
            old(self).unionfind.lemma_partition();
            if coherent(interner@, old(self)@) {
                lemma_grown_coherent(interner@, old(self)@, interner@.kinds.len());
            }
        }
        let ghost arena = interner@;
        self.unionfind.grow(interner.len());
        let ghost start = self.unionfind;
        let ghost goal = solve(arena, start.roots@, seq![(t1, t2)]);
        let mut work: Vec<(Ty, Ty)> = Vec::new();
        work.push((t1, t2));
        let mut trail: Vec<(usize, Ty)> = Vec::new();
        proof {
            start.lemma_partition();
            assert(work@ =~= seq![(t1, t2)]);
            assert(seq![(t1, t2)][0] == (t1, t2));
            lemma_solve(arena, start.roots@, seq![(t1, t2)]);
            lemma_clash(arena, start.roots@, seq![(t1, t2)]);
            if coherent(arena, start.roots@) {
                lemma_solve_coherent(arena, start.roots@, seq![(t1, t2)]);
            }
        }
        let mut clash: Option<TypeMismatch> = None;
        while work.len() > 0 && clash.is_none()
            invariant
                arena == interner@,
                arena.wf(),
                interner.wf(),
                self.wf(),
                start.wf(),
                is_partition(start.roots@),
                start.roots@.len() == arena.kinds.len(),
                restorable(start.parent@, self.unionfind.parent@, trail@),
                clash is None ==> solvable(arena, self@, work@) && solve(arena, self@, work@)
                    == goal,
                clash matches Some(e) ==> goal == Err::<Seq<Ty>, (Shape, Shape)>(
                    (e.left@, e.right@),
                ),
            decreases
                    (if clash is None {
                        1nat
                    } else {
                        0nat
                    }),
                    class_count(self@),
                    work.len(),
        {
            let ghost roots = self@;
            let ghost pending = work@;
            let (a, b) = work.pop().unwrap();
            proof {
                assert(pending.last() == (a, b));
                assert(seq![(a, b)][0] == (a, b));
                lemma_step(arena, roots, a, b);
                self.unionfind.lemma_partition();
            }
            let ra = self.unionfind.find_noting(a, &mut trail, Ghost(start.parent@));
            let rb = self.unionfind.find_noting(b, &mut trail, Ghost(start.parent@));
            if ra.interned != rb.interned {
                let ka = interner.ty_kind(ra.interned);
                let kb = interner.ty_kind(rb.interned);
                let unfolding: Option<(Ty, Ty, VarId, Ty)> = match ka {
                    TyKind::Recursive(v, body) => Some((ra, rb, *v, *body)),
                    _ => match kb {
                        TyKind::Recursive(v, body) => Some((rb, ra, *v, *body)),
                        _ => None,
                    },
                };
                let a_var = match ka.term_kind() {
                    TermKind::Var => true,
                    _ => false,
                };
                let b_var = match kb.term_kind() {
                    TermKind::Var => true,
                    _ => false,
                };
                if a_var {
                    if b_var && ra.interned < rb.interned {
                        self.unionfind.link_noting(rb, ra, &mut trail, Ghost(start.parent@));
                    } else {
                        self.unionfind.link_noting(ra, rb, &mut trail, Ghost(start.parent@));
                    }
                } else if b_var {
                    self.unionfind.link_noting(rb, ra, &mut trail, Ghost(start.parent@));
                } else if let Some((m, other, v, body)) = unfolding {
                    proof {
                        assert(arena.kinds[m.idx()].fits(m.idx(), arena.next_var));
                        assert(arena.shape(m).children()[0] == body);
                    }
                    let rbody = self.unionfind.find_noting(
                        body,
                        &mut trail,
                        Ghost(start.parent@),
                    );
                    if rbody.interned == m.interned {
                        self.unionfind.link_noting(m, other, &mut trail, Ghost(start.parent@));
                    } else {
                        self.unionfind.link_noting(m, rbody, &mut trail, Ghost(start.parent@));
                        work.push((a, b));
                        match interner.repr(&TyKind::Var(v)) {
                            Some(p) => {
                                work.push((Ty { interned: p }, m));
                            },
                            None => {},
                        }
                    }
                } else if ka.matches(kb) {
                    self.unionfind.link_noting(ra, rb, &mut trail, Ghost(start.parent@));
                    push_sub_pairs(ka, kb, &mut work);
                } else {
                    clash = Some(TypeMismatch { left: ka.duplicate(), right: kb.duplicate() });
                }
            }
            proof {
                if clash is None {
                    match unify_step(arena, roots, a, b) {
                        Step::Next(next, more) => {
                            assert(self@ == next);
                            assert(work@ =~= pending.drop_last() + more);
                            assert forall|k: int| 0 <= k < work@.len() implies 0 <= (
                            #[trigger] work@[k]).0.idx() < next.len() && 0 <= work@[k].1.idx()
                                < next.len() by {
                                if k < pending.len() - 1 {
                                    let _ = pending[k];
                                } else {
                                    let _ = more[k - (pending.len() - 1)];
                                }
                            }
                        },
                        Step::Clash(_, _) => {},
                    }
                }
            }
        }
        match clash {
            None => Ok(()),
            Some(e) => {
                let mut k: usize = trail.len();
                while k > 0
                    invariant
                        k <= trail.len(),
                        self.unionfind.parent@.len() == start.parent@.len(),
                        forall|j: int|
                            0 <= j < trail@.len() ==> (#[trigger] trail@[j]).0
                                < start.parent@.len(),
                        undone(self.unionfind.parent@, trail@, k as nat) == start.parent@,
                    decreases k,
                {
                    k -= 1;
                    let (i, p) = trail[k];
                    self.unionfind.parent.set(i, p);
                }
                proof {
                    self.unionfind.roots@ = start.roots@;
                    self.unionfind.depth@ = start.depth@;
                }
                Err(e)
            },
        }
    }
}

} // verus!
