//! Type handles and the structural descriptions they stand for.

use vstd::prelude::*;

verus! {

/// Identifier of a unification variable. Identifiers are minted by the type
/// context in increasing order and never reused.
#[derive(Clone, Copy, PartialEq, Eq, Hash, Debug, Structural)]
pub struct VarId(pub usize);

/// Identifier of a variable that is generated anew at each use.
#[derive(Clone, Copy, PartialEq, Eq, Hash, Debug, Structural)]
pub struct FreshVarId(pub usize);

/// Handle of an interned type: the position of its description in the arena of
/// the context that produced it.
#[derive(Clone, Copy, Debug, PartialEq, Eq, PartialOrd, Ord, Default, Hash, Structural)]
pub struct Ty {
    pub interned: usize,
}

impl Ty {
    /// Position of the handle in the arena, as a mathematical integer.
    pub open spec fn idx(self) -> int {
        self.interned as int
    }

    /// The handle at position `x`.
    pub fn new(x: usize) -> (t: Ty)
        ensures
            t.idx() == x,
    {
        Ty { interned: x }
    }

    /// Position of the handle in the arena.
    pub fn index(&self) -> (i: usize)
        ensures
            i == self.idx(),
    {
        self.interned
    }
}

/// How a type behaves under unification.
#[derive(Clone, Copy, PartialEq, Eq, Hash, Debug, Structural)]
pub enum TermKind {
    /// A variable: unifies with anything.
    Var,
    /// A rigid constructor: unifies only with the same constructor.
    Cons,
    /// A recursive binder.
    Mu,
}

/// Structural description of a type. Sub-terms are handles.
#[derive(Clone, PartialEq, Eq, Hash, Debug)]
pub enum TyKind {
    Int,
    Function(Vec<Ty>, Ty),
    Pointer(Ty),
    Record(Vec<(String, Ty)>),
    AbsentField,
    Var(VarId),
    FreshVar(FreshVarId),
    Recursive(VarId, Ty),
}

/// Mathematical value of a [`TyKind`].
pub ghost enum Shape {
    Int,
    Function(Seq<Ty>, Ty),
    Pointer(Ty),
    Record(Seq<(Seq<char>, Ty)>),
    AbsentField,
    Var(VarId),
    FreshVar(FreshVarId),
    Recursive(VarId, Ty),
}

/// Field list of a record as names and handles.
pub open spec fn fields_view(fields: Seq<(String, Ty)>) -> Seq<(Seq<char>, Ty)> {
    Seq::new(fields.len(), |i: int| (fields[i].0@, fields[i].1))
}

/// Some field of `fields` is called `name`.
pub open spec fn has_field(fields: Seq<(Seq<char>, Ty)>, name: Seq<char>) -> bool {
    exists|j: int| 0 <= j < fields.len() && #[trigger] fields[j].0 == name
}

/// `j` is the first position of `fields` that holds a field called `name`.
pub open spec fn is_field_position(fields: Seq<(Seq<char>, Ty)>, name: Seq<char>, j: int) -> bool {
    &&& 0 <= j < fields.len()
    &&& fields[j].0 == name
    &&& forall|k: int| 0 <= k < j ==> (#[trigger] fields[k]).0 != name
}

/// The first position of `fields` that holds a field called `name`.
pub open spec fn field_position(fields: Seq<(Seq<char>, Ty)>, name: Seq<char>) -> int {
    choose|j: int| is_field_position(fields, name, j)
}

/// The first position with a given name is unique.
pub proof fn lemma_field_position(fields: Seq<(Seq<char>, Ty)>, name: Seq<char>, j: int)
    requires
        is_field_position(fields, name, j),
    ensures
        field_position(fields, name) == j,
        has_field(fields, name),
{
    let c = field_position(fields, name);
    if c < j {
        let _ = fields[c];
    } else if j < c {
        let _ = fields[j];
    }
}

/// Where some field has a given name, there is a first one.
pub proof fn lemma_first_field(fields: Seq<(Seq<char>, Ty)>, name: Seq<char>, w: int)
    requires
        0 <= w < fields.len(),
        fields[w].0 == name,
    ensures
        is_field_position(fields, name, field_position(fields, name)),
        field_position(fields, name) <= w,
    decreases w,
{
    if exists|k: int| 0 <= k < w && (#[trigger] fields[k]).0 == name {
        let k = choose|k: int| 0 <= k < w && (#[trigger] fields[k]).0 == name;
        lemma_first_field(fields, name, k);
    } else {
        assert(is_field_position(fields, name, w));
        lemma_field_position(fields, name, w);
    }
}

/// The first position of `fields` that holds a field called `name`, if any.
pub fn field_index(fields: &Vec<(String, Ty)>, name: &String) -> (found: Option<usize>)
    ensures
        found is Some <==> has_field(fields_view(fields@), name@),
        found matches Some(j) ==> j == field_position(fields_view(fields@), name@)
            && is_field_position(fields_view(fields@), name@, j as int),
{
    let mut j: usize = 0;
    while j < fields.len()
        invariant
            j <= fields.len(),
            forall|k: int| 0 <= k < j ==> (#[trigger] fields_view(fields@)[k]).0 != name@,
        decreases fields.len() - j,
    {
        if fields[j].0 == *name {
            proof {
                assert(fields_view(fields@)[j as int].0 == name@);
                lemma_field_position(fields_view(fields@), name@, j as int);
            }
            return Some(j);
        }
        j += 1;
    }
    None
}

impl View for TyKind {
    type V = Shape;

    open spec fn view(&self) -> Shape {
        match self {
            TyKind::Int => Shape::Int,
            TyKind::Function(params, ret) => Shape::Function(params@, *ret),
            TyKind::Pointer(inner) => Shape::Pointer(*inner),
            TyKind::Record(fields) => Shape::Record(fields_view(fields@)),
            TyKind::AbsentField => Shape::AbsentField,
            TyKind::Var(v) => Shape::Var(*v),
            TyKind::FreshVar(v) => Shape::FreshVar(*v),
            TyKind::Recursive(v, body) => Shape::Recursive(*v, *body),
        }
    }
}

impl Shape {
    /// Classification for unification.
    pub open spec fn term_kind(self) -> TermKind {
        match self {
            Shape::Var(_) | Shape::FreshVar(_) => TermKind::Var,
            Shape::Recursive(_, _) => TermKind::Mu,
            _ => TermKind::Cons,
        }
    }

    /// The handles of the direct sub-terms, in order.
    pub open spec fn children(self) -> Seq<Ty> {
        match self {
            Shape::Function(params, ret) => params.push(ret),
            Shape::Pointer(inner) => seq![inner],
            Shape::Record(fields) => Seq::new(fields.len(), |i: int| fields[i].1),
            Shape::Recursive(_, body) => seq![body],
            _ => Seq::empty(),
        }
    }

    /// Number of direct sub-terms of a constructor.
    pub open spec fn arity(self) -> nat {
        match self {
            Shape::Function(params, _) => params.len() + 1,
            Shape::Pointer(_) => 1,
            Shape::Record(fields) => fields.len(),
            _ => 0,
        }
    }

    /// Both shapes are built by the same constructor with the same number of
    /// sub-terms; two records, in addition, have the same field names.
    pub open spec fn matches(self, other: Shape) -> bool {
        match (self, other) {
            (Shape::Int, Shape::Int) => true,
            (Shape::AbsentField, Shape::AbsentField) => true,
            (Shape::Pointer(_), Shape::Pointer(_)) => true,
            (Shape::Function(ps, _), Shape::Function(qs, _)) => ps.len() == qs.len(),
            (Shape::Record(fs), Shape::Record(gs)) => fs.len() == gs.len() && forall|i: int|
                0 <= i < fs.len() ==> has_field(gs, #[trigger] fs[i].0),
            _ => false,
        }
    }

    /// The sub-terms of two matching shapes that correspond to each other, in
    /// the order of the first shape's sub-terms. Parameters correspond by
    /// position, record fields by name.
    pub open spec fn sub_pairs(self, other: Shape) -> Seq<(Ty, Ty)> {
        match (self, other) {
            (Shape::Pointer(a), Shape::Pointer(b)) => seq![(a, b)],
            (Shape::Function(ps, r), Shape::Function(qs, s)) => Seq::new(
                ps.len() + 1,
                |i: int|
                    if i < ps.len() {
                        (ps[i], qs[i])
                    } else {
                        (r, s)
                    },
            ),
            (Shape::Record(fs), Shape::Record(gs)) => Seq::new(
                fs.len(),
                |i: int| (fs[i].1, gs[field_position(gs, fs[i].0)].1),
            ),
            _ => Seq::empty(),
        }
    }

    /// No two fields of a record share a name.
    pub open spec fn distinct_names(self) -> bool {
        match self {
            Shape::Record(fields) => forall|i: int, j: int|
                #![trigger fields[i], fields[j]]
                0 <= i < j < fields.len() ==> fields[i].0 != fields[j].0,
            _ => true,
        }
    }

    /// The shape can be stored at position `bound` of an arena that has minted
    /// `next_var` variables: its sub-terms stand before it, its variable is
    /// minted, and its field names are distinct.
    pub open spec fn fits(self, bound: int, next_var: nat) -> bool {
        &&& forall|i: int|
            0 <= i < self.children().len() ==> 0 <= (#[trigger] self.children()[i]).idx() < bound
        &&& self.distinct_names()
        &&& match self {
            Shape::Var(v) => v.0 < next_var,
            Shape::Recursive(v, _) => v.0 < next_var,
            _ => true,
        }
    }
}

/// Shapes that match have the same number of sub-terms.
pub proof fn lemma_matches_arity(k: Shape, other: Shape)
    requires
        k.matches(other),
    ensures
        k.arity() == other.arity(),
        k.sub_pairs(other).len() == k.arity(),
        k.term_kind() == TermKind::Cons,
        other.term_kind() == TermKind::Cons,
{
}

impl TyKind {
    /// Classification of the kind for unification.
    pub fn term_kind(&self) -> (k: TermKind)
        ensures
            k == self@.term_kind(),
    {
        match self {
            TyKind::Var(_) | TyKind::FreshVar(_) => TermKind::Var,
            TyKind::Int
            | TyKind::Function(_, _)
            | TyKind::Pointer(_)
            | TyKind::Record(_)
            | TyKind::AbsentField => TermKind::Cons,
            TyKind::Recursive(_, _) => TermKind::Mu,
        }
    }

    /// Number of direct sub-terms of a constructor.
    pub fn arity(&self) -> (n: usize)
        requires
            self@.arity() <= usize::MAX,
        ensures
            n == self@.arity(),
    {
        match self {
            TyKind::Function(params, _) => params.len() + 1,
            TyKind::Pointer(_) => 1,
            TyKind::Record(fields) => fields.len(),
            _ => 0,
        }
    }

    /// Whether two kinds are built by the same constructor with the same number
    /// of sub-terms and, for records, the same field names.
    pub fn matches(&self, other: &TyKind) -> (b: bool)
        ensures
            b == self@.matches(other@),
    {
        match (self, other) {
            (TyKind::Int, TyKind::Int) => true,
            (TyKind::AbsentField, TyKind::AbsentField) => true,
            (TyKind::Pointer(_), TyKind::Pointer(_)) => true,
            (TyKind::Function(ps, _), TyKind::Function(qs, _)) => ps.len() == qs.len(),
            (TyKind::Record(fs), TyKind::Record(gs)) => {
                if fs.len() != gs.len() {
                    return false;
                }
                let mut i: usize = 0;
                while i < fs.len()
                    invariant
                        i <= fs.len(),
                        fs.len() == gs.len(),
                        self@ == Shape::Record(fields_view(fs@)),
                        other@ == Shape::Record(fields_view(gs@)),
                        forall|j: int|
                            0 <= j < i ==> has_field(
                                fields_view(gs@),
                                #[trigger] fields_view(fs@)[j].0,
                            ),
                    decreases fs.len() - i,
                {
                    if field_index(gs, &fs[i].0).is_none() {
                        assert(!has_field(fields_view(gs@), fields_view(fs@)[i as int].0));
                        return false;
                    }
                    i += 1;
                }
                true
            },
            _ => false,
        }
    }

    /// Structural equality.
    pub fn same(&self, other: &TyKind) -> (b: bool)
        ensures
            b == (self@ == other@),
    {
        match (self, other) {
            (TyKind::Int, TyKind::Int) => true,
            (TyKind::AbsentField, TyKind::AbsentField) => true,
            (TyKind::Pointer(a), TyKind::Pointer(b)) => a.interned == b.interned,
            (TyKind::Var(a), TyKind::Var(b)) => a.0 == b.0,
            (TyKind::FreshVar(a), TyKind::FreshVar(b)) => a.0 == b.0,
            (TyKind::Recursive(v, a), TyKind::Recursive(w, b)) => v.0 == w.0 && a.interned
                == b.interned,
            (TyKind::Function(ps, r), TyKind::Function(qs, s)) => {
                if r.interned != s.interned || ps.len() != qs.len() {
                    return false;
                }
                let mut i: usize = 0;
                while i < ps.len()
                    invariant
                        i <= ps.len(),
                        ps.len() == qs.len(),
                        forall|j: int| 0 <= j < i ==> ps[j] == qs[j],
                        self@ == Shape::Function(ps@, *r),
                        other@ == Shape::Function(qs@, *s),
                    decreases ps.len() - i,
                {
                    if ps[i].interned != qs[i].interned {
                        assert(ps@[i as int] != qs@[i as int]);
                        return false;
                    }
                    i += 1;
                }
                assert(ps@ =~= qs@);
                true
            },
            (TyKind::Record(fs), TyKind::Record(gs)) => {
                if fs.len() != gs.len() {
                    assert(fields_view(fs@).len() != fields_view(gs@).len());
                    return false;
                }
                let mut i: usize = 0;
                while i < fs.len()
                    invariant
                        i <= fs.len(),
                        fs.len() == gs.len(),
                        forall|j: int|
                            0 <= j < i ==> fields_view(fs@)[j] == fields_view(gs@)[j],
                        self@ == Shape::Record(fields_view(fs@)),
                        other@ == Shape::Record(fields_view(gs@)),
                    decreases fs.len() - i,
                {
                    if fs[i].1.interned != gs[i].1.interned || fs[i].0 != gs[i].0 {
                        assert(fields_view(fs@)[i as int] != fields_view(gs@)[i as int]);
                        return false;
                    }
                    i += 1;
                }
                assert(fields_view(fs@) =~= fields_view(gs@));
                true
            },
            _ => false,
        }
    }

    /// A copy of the kind.
    pub fn duplicate(&self) -> (k: TyKind)
        ensures
            k@ == self@,
    {
        match self {
            TyKind::Int => TyKind::Int,
            TyKind::AbsentField => TyKind::AbsentField,
            TyKind::Pointer(a) => TyKind::Pointer(*a),
            TyKind::Var(a) => TyKind::Var(*a),
            TyKind::FreshVar(a) => TyKind::FreshVar(*a),
            TyKind::Recursive(v, a) => TyKind::Recursive(*v, *a),
            TyKind::Function(ps, r) => {
                let mut qs: Vec<Ty> = Vec::new();
                let mut i: usize = 0;
                while i < ps.len()
                    invariant
                        i <= ps.len(),
                        qs@ == ps@.subrange(0, i as int),
                    decreases ps.len() - i,
                {
                    qs.push(ps[i]);
                    i += 1;
                    assert(qs@ =~= ps@.subrange(0, i as int));
                }
                assert(qs@ =~= ps@);
                TyKind::Function(qs, *r)
            },
            TyKind::Record(fs) => {
                let mut gs: Vec<(String, Ty)> = Vec::new();
                let mut i: usize = 0;
                while i < fs.len()
                    invariant
                        i <= fs.len(),
                        gs.len() == i,
                        forall|j: int| 0 <= j < i ==> gs[j] == fs[j],
                    decreases fs.len() - i,
                {
                    gs.push((fs[i].0.clone(), fs[i].1));
                    i += 1;
                }
                assert(fields_view(gs@) =~= fields_view(fs@));
                TyKind::Record(gs)
            },
        }
    }
}

} // verus!
