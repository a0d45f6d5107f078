//! The type context: the arena of interned types and the source of fresh
//! variables. One context is made per inference run and handed, by reference,
//! to everything that makes or reads types.

use crate::hash::hash;
use crate::hash::hash_of;
use crate::ty::Shape;
use crate::ty::Ty;
use crate::ty::TyKind;
use crate::ty::VarId;
use std::collections::HashMap;
use vstd::prelude::*;

verus! {

/// Mathematical value of a type context: the shapes in arena order and the
/// number of variables minted so far.
pub ghost struct Arena {
    pub kinds: Seq<Shape>,
    pub next_var: nat,
}

impl Arena {
    /// `t` is a handle of this arena.
    pub open spec fn valid(self, t: Ty) -> bool {
        0 <= t.idx() < self.kinds.len()
    }

    /// The shape that `t` stands for.
    pub open spec fn shape(self, t: Ty) -> Shape {
        self.kinds[t.idx()]
    }

    /// Some handle stands for `k`.
    pub open spec fn contains(self, k: Shape) -> bool {
        exists|i: int| 0 <= i < self.kinds.len() && self.kinds[i] == k
    }

    /// A position at which `k` is stored, if it is stored at all.
    pub open spec fn position(self, k: Shape) -> int {
        choose|i: int| 0 <= i < self.kinds.len() && self.kinds[i] == k
    }

    /// `k` may be interned: its sub-terms are handles of this arena, its
    /// variable has been minted, and its field names are distinct.
    pub open spec fn admits(self, k: Shape) -> bool {
        k.fits(self.kinds.len() as int, self.next_var)
    }

    /// The arena is canonical (no shape is stored twice), every shape only
    /// refers to earlier positions and to minted variables, and every minted
    /// variable has a position.
    pub open spec fn wf(self) -> bool {
        &&& forall|i: int, j: int|
            0 <= i < j < self.kinds.len() ==> self.kinds[i] != self.kinds[j]
        &&& forall|i: int|
            0 <= i < self.kinds.len() ==> (#[trigger] self.kinds[i]).fits(i, self.next_var)
        &&& self.next_var <= self.kinds.len() <= usize::MAX
    }

    /// `other` holds everything this arena holds, at the same positions.
    pub open spec fn extended_by(self, other: Arena) -> bool {
        &&& self.kinds.len() <= other.kinds.len()
        &&& self.next_var <= other.next_var
        &&& forall|i: int| 0 <= i < self.kinds.len() ==> self.kinds[i] == other.kinds[i]
    }

    /// Interning `k`: the arena afterwards and the position of `k` in it. A
    /// shape that is already stored keeps its position; a new one is appended.
    pub open spec fn intern(self, k: Shape) -> (Arena, int) {
        if self.contains(k) {
            (self, self.position(k))
        } else {
            (Arena { kinds: self.kinds.push(k), next_var: self.next_var }, self.kinds.len() as int)
        }
    }

    /// Minting a variable: the arena afterwards, in which the new variable has
    /// the last position, and the variable's identifier.
    pub open spec fn mint(self) -> (Arena, VarId) {
        let v = VarId(self.next_var as usize);
        (Arena { kinds: self.kinds.push(Shape::Var(v)), next_var: self.next_var + 1 }, v)
    }
}

/// In a canonical arena a stored shape has exactly one position.
pub proof fn lemma_position_unique(a: Arena, k: Shape, i: int)
    requires
        a.wf(),
        0 <= i < a.kinds.len(),
        a.kinds[i] == k,
    ensures
        a.contains(k),
        a.position(k) == i,
{
    let j = a.position(k);
    if j < i {
        assert(a.kinds[j] != a.kinds[i]);
    } else if i < j {
        assert(a.kinds[i] != a.kinds[j]);
    }
}

/// Interning keeps an arena well-formed and only ever appends to it.
pub proof fn lemma_intern_wf(a: Arena, k: Shape)
    requires
        a.wf(),
        a.admits(k),
        a.intern(k).0.kinds.len() <= usize::MAX,
    ensures
        a.intern(k).0.wf(),
        a.extended_by(a.intern(k).0),
        0 <= a.intern(k).1 < a.intern(k).0.kinds.len(),
        a.intern(k).0.kinds[a.intern(k).1] == k,
        a.intern(k).0.next_var == a.next_var,
{
    if !a.contains(k) {
        let b = a.intern(k).0;
        assert forall|i: int, j: int| 0 <= i < j < b.kinds.len() implies b.kinds[i]
            != b.kinds[j] by {
            if j == a.kinds.len() {
                assert(a.kinds[i] != k);
            }
        }
        assert forall|i: int| 0 <= i < b.kinds.len() implies (#[trigger] b.kinds[i]).fits(
            i,
            b.next_var,
        ) by {
            if i < a.kinds.len() {
                assert(a.kinds[i].fits(i, a.next_var));
            }
        }
    }
}

/// Interning is canonical: of two shapes interned one after the other, the
/// handles are the same exactly if the shapes are.
pub proof fn lemma_intern_canonical(a: Arena, k1: Shape, k2: Shape)
    requires
        a.wf(),
        a.admits(k1),
        a.admits(k2),
        a.kinds.len() + 2 <= usize::MAX,
    ensures
        ({
            let (b, h1) = a.intern(k1);
            let (c, h2) = b.intern(k2);
            &&& (h1 == h2 <==> k1 == k2)
            &&& c.kinds[h1] == k1
            &&& c.kinds[h2] == k2
            &&& c.wf()
        }),
{
    let (b, h1) = a.intern(k1);
    lemma_intern_wf(a, k1);
    assert(b.admits(k2));
    lemma_intern_wf(b, k2);
    let (c, h2) = b.intern(k2);
    if k1 == k2 {
        lemma_position_unique(b, k1, h1);
    } else if h1 == h2 {
        assert(c.kinds[h1] == b.kinds[h1]);
    }
}

/// Interning only ever appends to an arena.
pub proof fn lemma_intern_extends(a: Arena, k: Shape)
    ensures
        a.extended_by(a.intern(k).0),
        a.intern(k).0.next_var == a.next_var,
{
}

/// Minting keeps an arena well-formed and appends exactly the new variable.
pub proof fn lemma_mint_wf(a: Arena)
    requires
        a.wf(),
        a.kinds.len() < usize::MAX,
    ensures
        a.mint().0.wf(),
        a.extended_by(a.mint().0),
        a.mint().0.kinds.len() == a.kinds.len() + 1,
        a.mint().0.kinds.last() == Shape::Var(a.mint().1),
        !a.contains(Shape::Var(a.mint().1)),
{
    let (b, v) = a.mint();
    assert(v.0 == a.next_var);
    assert forall|i: int| 0 <= i < a.kinds.len() implies a.kinds[i] != Shape::Var(v) by {
        assert(a.kinds[i].fits(i, a.next_var));
    }
    assert forall|i: int| 0 <= i < b.kinds.len() implies (#[trigger] b.kinds[i]).fits(
        i,
        b.next_var,
    ) by {
        if i < a.kinds.len() {
            assert(a.kinds[i].fits(i, a.next_var));
        }
    }
}

/// The arena itself: the description of each interned type, by handle, and
/// an index from the hash of a description to the handles of the
/// descriptions that have this hash.
pub struct Interners {
    ty_kinds_to_interned: HashMap<u64, Vec<usize>>,
    interned_to_ty_kinds: Vec<TyKind>,
}

impl View for Interners {
    type V = Seq<Shape>;

    closed spec fn view(&self) -> Seq<Shape> {
        Seq::new(self.interned_to_ty_kinds@.len(), |i: int| self.interned_to_ty_kinds@[i]@)
    }
}

impl Interners {
    /// The index lists every handle under the hash of its description, and
    /// lists handles only.
    pub closed spec fn wf(&self) -> bool {
        &&& forall|i: int|
            0 <= i < self@.len() ==> self.listed(hash_of(#[trigger] self@[i]), i as usize)
        &&& forall|h: u64, j: int|
            self.ty_kinds_to_interned@.contains_key(h) && 0 <= j
                < self.ty_kinds_to_interned@[h]@.len() ==> (
            #[trigger] self.ty_kinds_to_interned@[h]@[j]) < self@.len()
    }

    /// The index lists the handle `i` under the hash `h`.
    spec fn listed(&self, h: u64, i: usize) -> bool {
        self.ty_kinds_to_interned@.contains_key(h) && self.ty_kinds_to_interned@[h]@.contains(i)
    }

    /// The empty arena.
    fn new() -> (interners: Interners)
        ensures
            interners.wf(),
            interners@ == Seq::<Shape>::empty(),
    {
        let interners = Interners {
            ty_kinds_to_interned: HashMap::new(),
            interned_to_ty_kinds: Vec::new(),
        };
        assert(interners@ =~= Seq::<Shape>::empty());
        interners
    }

    /// Number of descriptions.
    fn len(&self) -> (n: usize)
        ensures
            n == self@.len(),
    {
        self.interned_to_ty_kinds.len()
    }

    /// Appends `kind` and returns its position.
    #[verifier::rlimit(50)]
    fn intern_ty_kind(&mut self, kind: TyKind) -> (repr: usize)
        requires
            old(self).wf(),
        ensures
            final(self).wf(),
            final(self)@ == old(self)@.push(kind@),
            repr == old(self)@.len(),
    {
        let h = hash(&kind);
        let repr = self.interned_to_ty_kinds.len();
        self.interned_to_ty_kinds.push(kind);
        assert(self@ =~= old(self)@.push(kind@));
        let ghost before = self.ty_kinds_to_interned@;
        let mut bucket: Vec<usize> = match self.ty_kinds_to_interned.remove(&h) {
            Some(bucket) => bucket,
            None => Vec::new(),
        };
        let ghost was = bucket@;
        bucket.push(repr);
        self.ty_kinds_to_interned.insert(h, bucket);
        proof {
            let now = self.ty_kinds_to_interned@;
            assert(now[h]@ == was.push(repr));
            assert forall|i: int| 0 <= i < self@.len() implies self.listed(
                hash_of(#[trigger] self@[i]),
                i as usize,
            ) by {
                if i < repr {
                    let hi = hash_of(old(self)@[i]);
                    assert(old(self).listed(hi, i as usize));
                    if hi == h {
                        let j = choose|j: int| 0 <= j < was.len() && was[j] == i as usize;
                        assert(now[h]@[j] == i as usize);
                    } else {
                        assert(now[hi] == before[hi]);
                    }
                } else {
                    assert(now[h]@[was.len() as int] == repr);
                }
            }
            assert forall|g: u64, j: int| now.contains_key(g) && 0 <= j < now[g]@.len() implies (
            #[trigger] now[g]@[j]) < self@.len() by {
                if g == h {
                    if j < was.len() {
                        assert(before[h]@[j] < old(self)@.len());
                    }
                } else {
                    assert(before[g]@[j] < old(self)@.len());
                }
            }
        }
        repr
    }

    /// A position that holds `kind`, if any does.
    #[verifier::rlimit(50)]
    fn repr(&self, kind: &TyKind) -> (found: Option<usize>)
        requires
            self.wf(),
        ensures
            match found {
                Some(i) => 0 <= i < self@.len() && self@[i as int] == kind@,
                None => forall|j: int| 0 <= j < self@.len() ==> self@[j] != kind@,
            },
    {
        let h = hash(kind);
        let total = self.interned_to_ty_kinds.len();
        match self.ty_kinds_to_interned.get(&h) {
            None => {
                assert forall|j: int| 0 <= j < self@.len() implies self@[j] != kind@ by {
                    assert(self.listed(hash_of(self@[j]), j as usize));
                }
                None
            },
            Some(bucket) => {
                let mut n: usize = 0;
                while n < bucket.len()
                    invariant
                        n <= bucket.len(),
                        total == self@.len(),
                        self.wf(),
                        self.ty_kinds_to_interned@.contains_key(h),
                        self.ty_kinds_to_interned@[h] == *bucket,
                        forall|m: int| 0 <= m < n ==> self@[bucket@[m] as int] != kind@,
                    decreases bucket.len() - n,
                {
                    let candidate = bucket[n];
                    assert(self.ty_kinds_to_interned@[h]@[n as int] < self@.len());
                    if self.interned_to_ty_kinds[candidate].same(kind) {
                        return Some(candidate);
                    }
                    n += 1;
                }
                assert forall|j: int| 0 <= j < self@.len() implies self@[j] != kind@ by {
                    assert(j < total);
                    assert(self.listed(hash_of(self@[j]), j as usize));
                    if self@[j] == kind@ {
                        assert(bucket@.contains(j as usize));
                        let m = choose|m: int| 0 <= m < bucket@.len() && bucket@[m] == j as usize;
                        assert(self@[bucket@[m] as int] != kind@);
                    }
                }
                None
            },
        }
    }

    /// The description at position `repr`.
    fn ty_kind(&self, repr: usize) -> (kind: &TyKind)
        requires
            repr < self@.len(),
        ensures
            kind@ == self@[repr as int],
    {
        &self.interned_to_ty_kinds[repr]
    }
}

/// Types that are needed so often that the context keeps their handles.
pub struct CommonTypes {
    integer: Ty,
}

impl CommonTypes {
    /// Handle held for the integer type.
    pub closed spec fn spec_integer(&self) -> Ty {
        self.integer
    }

    /// The handle of the integer type.
    #[verifier::when_used_as_spec(spec_integer)]
    pub fn integer(&self) -> (t: Ty)
        ensures
            t == self.spec_integer(),
    {
        self.integer
    }
}

/// State of a type context.
pub struct TyCtxtInner {
    interners: Interners,
    common: CommonTypes,
    next_var_id: usize,
}

impl View for TyCtxtInner {
    type V = Arena;

    closed spec fn view(&self) -> Arena {
        Arena { kinds: self.interners@, next_var: self.next_var_id as nat }
    }
}

impl TyCtxtInner {
    /// The context is well-formed: its arena and the index of it are, and the
    /// handle it keeps for the integer type stands for the integer type.
    pub closed spec fn wf(&self) -> bool {
        &&& self.interners.wf()
        &&& self@.wf()
        &&& self@.valid(self.common.integer)
        &&& self@.shape(self.common.integer) == Shape::Int
    }

    /// The handles kept for common types.
    pub closed spec fn spec_common(&self) -> CommonTypes {
        self.common
    }

    /// A context that holds the integer type and nothing else.
    pub fn new() -> (inner: TyCtxtInner)
        ensures
            inner.wf(),
            inner@ == (Arena { kinds: seq![Shape::Int], next_var: 0 }),
            inner.spec_common().integer().idx() == 0,
    {
        let mut interners = Interners::new();
        let interned = interners.intern_ty_kind(TyKind::Int);
        let inner = TyCtxtInner {
            interners,
            common: CommonTypes { integer: Ty { interned } },
            next_var_id: 0,
        };
        assert(inner@.kinds =~= seq![Shape::Int]);
        assert(Shape::Int.children() =~= Seq::<Ty>::empty());
        inner
    }

    /// Number of interned types.
    pub fn len(&self) -> (n: usize)
        ensures
            n == self@.kinds.len(),
    {
        self.interners.len()
    }

    /// The handle that stands for `kind`, if there is one.
    pub fn repr(&self, kind: &TyKind) -> (found: Option<usize>)
        requires
            self.wf(),
        ensures
            found is Some <==> self@.contains(kind@),
            found matches Some(i) ==> i == self@.position(kind@) && 0 <= i < self@.kinds.len()
                && self@.kinds[i as int] == kind@,
    {
        let found = self.interners.repr(kind);
        proof {
            if let Some(i) = found {
                lemma_position_unique(self@, kind@, i as int);
            }
        }
        found
    }

    /// The canonical handle of `kind`: the one it already has, or a new one.
    pub fn intern_ty_kind(&mut self, kind: TyKind) -> (repr: usize)
        requires
            old(self).wf(),
            old(self)@.admits(kind@),
        ensures
            final(self).wf(),
            final(self).spec_common() == old(self).spec_common(),
            (final(self)@, repr as int) == old(self)@.intern(kind@),
            repr < final(self)@.kinds.len(),
            final(self)@.kinds[repr as int] == kind@,
            old(self)@.extended_by(final(self)@),
    {
        match self.interners.repr(&kind) {
            Some(repr) => {
                proof {
                    lemma_position_unique(self@, kind@, repr as int);
                    lemma_intern_wf(self@, kind@);
                }
                repr
            },
            None => {
                let repr = self.interners.intern_ty_kind(kind);
                let n = self.interners.len();
                proof {
                    lemma_intern_wf(old(self)@, kind@);
                }
                repr
            },
        }
    }

    /// The description of the type with handle `repr`.
    pub fn ty_kind(&self, repr: usize) -> (kind: &TyKind)
        requires
            repr < self@.kinds.len(),
        ensures
            kind@ == self@.kinds[repr as int],
    {
        self.interners.ty_kind(repr)
    }

    /// Mints a variable and gives it a place in the arena.
    pub fn alloc_var_id(&mut self) -> (v: VarId)
        requires
            old(self).wf(),
        ensures
            final(self).wf(),
            final(self).spec_common() == old(self).spec_common(),
            (final(self)@, v) == old(self)@.mint(),
            old(self)@.extended_by(final(self)@),
    {
        let v = VarId(self.next_var_id);
        let ghost before = self@;
        self.interners.intern_ty_kind(TyKind::Var(v));
        let n = self.interners.len();
        proof {
            assert(n == before.kinds.len() + 1);
            lemma_mint_wf(before);
        }
        self.next_var_id = self.next_var_id + 1;
        v
    }
}

/// A type context.
pub struct TyCtxt {
    inner: TyCtxtInner,
}

impl View for TyCtxt {
    type V = Arena;

    closed spec fn view(&self) -> Arena {
        self.inner@
    }
}

impl TyCtxt {
    /// The context is well-formed: its arena is, and the handle it keeps for the
    /// integer type stands for the integer type.
    pub closed spec fn wf(&self) -> bool {
        self.inner.wf()
    }

    /// The handles kept for common types.
    pub closed spec fn spec_common(&self) -> CommonTypes {
        self.inner.spec_common()
    }

    /// Handle of the integer type.
    pub open spec fn int_ty(&self) -> Ty {
        self.spec_common().integer()
    }

    /// In a well-formed context the integer handle stands for the integer type.
    pub proof fn lemma_int_ty(&self)
        requires
            self.wf(),
        ensures
            self@.wf(),
            self@.valid(self.int_ty()),
            self@.shape(self.int_ty()) == Shape::Int,
    {
    }

    /// A context that holds the integer type and nothing else.
    pub fn new() -> (tcx: TyCtxt)
        ensures
            tcx.wf(),
            tcx@ == (Arena { kinds: seq![Shape::Int], next_var: 0 }),
            tcx.int_ty().idx() == 0,
    {
        TyCtxt { inner: TyCtxtInner::new() }
    }

    /// Number of interned types.
    pub fn len(&self) -> (n: usize)
        ensures
            n == self@.kinds.len(),
    {
        self.inner.len()
    }

    /// The canonical handle of `kind`: the one it already has, or a new one.
    pub fn intern_ty_kind(&mut self, kind: TyKind) -> (repr: usize)
        requires
            old(self).wf(),
            old(self)@.admits(kind@),
        ensures
            final(self).wf(),
            final(self).spec_common() == old(self).spec_common(),
            (final(self)@, repr as int) == old(self)@.intern(kind@),
            repr < final(self)@.kinds.len(),
            final(self)@.kinds[repr as int] == kind@,
            old(self)@.extended_by(final(self)@),
    {
        self.inner.intern_ty_kind(kind)
    }

    /// The handle that stands for `kind`, if there is one.
    pub fn repr(&self, kind: &TyKind) -> (found: Option<usize>)
        requires
            self.wf(),
        ensures
            found is Some <==> self@.contains(kind@),
            found matches Some(i) ==> i == self@.position(kind@) && 0 <= i < self@.kinds.len()
                && self@.kinds[i as int] == kind@,
    {
        self.inner.repr(kind)
    }

    /// The description of the type with handle `repr`.
    pub fn ty_kind(&self, repr: usize) -> (kind: &TyKind)
        requires
            repr < self@.kinds.len(),
        ensures
            kind@ == self@.kinds[repr as int],
    {
        self.inner.ty_kind(repr)
    }

    /// The handles kept for common types.
    pub fn common(&self) -> (common: &CommonTypes)
        ensures
            *common == self.spec_common(),
    {
        &self.inner.common
    }

    /// Mints a variable and gives it a place in the arena.
    pub fn alloc_var_id(&mut self) -> (v: VarId)
        requires
            old(self).wf(),
        ensures
            final(self).wf(),
            final(self).spec_common() == old(self).spec_common(),
            (final(self)@, v) == old(self)@.mint(),
            old(self)@.extended_by(final(self)@),
    {
        self.inner.alloc_var_id()
    }
}

impl TyKind {
    /// The kind of a newly minted variable.
    pub fn make_var(interner: &mut TyCtxt) -> (kind: TyKind)
        requires
            old(interner).wf(),
        ensures
            final(interner).wf(),
            final(interner).spec_common() == old(interner).spec_common(),
            final(interner)@ == old(interner)@.mint().0,
            kind@ == Shape::Var(old(interner)@.mint().1),
    {
        TyKind::Var(interner.alloc_var_id())
    }

    /// The canonical handle of this kind.
    pub fn intern(self, interner: &mut TyCtxt) -> (t: Ty)
        requires
            old(interner).wf(),
            old(interner)@.admits(self@),
        ensures
            final(interner).wf(),
            final(interner).spec_common() == old(interner).spec_common(),
            (final(interner)@, t.idx()) == old(interner)@.intern(self@),
            final(interner)@.valid(t),
            final(interner)@.shape(t) == self@,
            old(interner)@.extended_by(final(interner)@),
    {
        proof {
            interner.lemma_int_ty();
        }
        Ty { interned: interner.intern_ty_kind(self) }
    }
}

impl Ty {
    /// The canonical handle of `kind`.
    pub fn intern(interner: &mut TyCtxt, kind: TyKind) -> (t: Ty)
        requires
            old(interner).wf(),
            old(interner)@.admits(kind@),
        ensures
            final(interner).wf(),
            final(interner).spec_common() == old(interner).spec_common(),
            (final(interner)@, t.idx()) == old(interner)@.intern(kind@),
            final(interner)@.valid(t),
            final(interner)@.shape(t) == kind@,
            old(interner)@.extended_by(final(interner)@),
    {
        proof {
            interner.lemma_int_ty();
        }
        Ty { interned: interner.intern_ty_kind(kind) }
    }

    /// The handle of a kind that is already interned.
    pub fn for_kind(interner: &TyCtxt, kind: &TyKind) -> (t: Ty)
        requires
            interner.wf(),
            interner@.contains(kind@),
        ensures
            t.idx() == interner@.position(kind@),
            interner@.valid(t),
            interner@.shape(t) == kind@,
    {
        match interner.repr(kind) {
            Some(repr) => Ty { interned: repr },
            None => Ty { interned: 0 },
        }
    }

    /// The description of the type.
    pub fn kind(self, interner: &TyCtxt) -> (kind: &TyKind)
        requires
            interner@.valid(self),
        ensures
            kind@ == interner@.shape(self),
    {
        interner.ty_kind(self.interned)
    }

    /// A newly minted variable, as a handle.
    pub fn fresh(interner: &mut TyCtxt) -> (t: Ty)
        requires
            old(interner).wf(),
        ensures
            final(interner).wf(),
            final(interner).spec_common() == old(interner).spec_common(),
            final(interner)@ == old(interner)@.mint().0,
            t.idx() == old(interner)@.kinds.len(),
            final(interner)@.valid(t),
            final(interner)@.shape(t) == Shape::Var(old(interner)@.mint().1),
            old(interner)@.extended_by(final(interner)@),
    {
        interner.alloc_var_id();
        Ty { interned: interner.len() - 1 }
    }
}

} // verus!
