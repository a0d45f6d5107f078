//! Hashing of type descriptions, and a side table keyed by node identity.
//!
//! Node identities are already well-spread integers, so the table stores them
//! under a hasher that uses the key itself as its hash.

use crate::ty::Shape;
use crate::ty::Ty;
use crate::ty::TyKind;
use nohash_hasher::BuildNoHashHasher;
use nohash_hasher::NoHashHasher;
use std::collections::HashMap;
use std::collections::hash_map::DefaultHasher;
use std::hash::BuildHasherDefault;
use std::hash::Hasher;
use vstd::prelude::*;
use vstd::std_specs::hash::DefaultHasherAdditionalSpecFns;

verus! {

/// The `n` lowest digits of `x` to the base 256, the lowest first.
pub open spec fn digits(x: int, n: nat) -> Seq<u8>
    decreases n,
{
    if n == 0 {
        Seq::empty()
    } else {
        seq![(x % 256) as u8] + digits(x / 256, (n - 1) as nat)
    }
}

/// The positions of the first `n` handles of `ts`, eight digits each.
pub open spec fn codes(ts: Seq<Ty>, n: nat) -> Seq<u8>
    decreases n,
{
    if n == 0 {
        Seq::empty()
    } else {
        codes(ts, (n - 1) as nat) + digits(ts[n - 1].idx(), 8)
    }
}

/// A number for the constructor of `k`.
pub open spec fn tag(k: Shape) -> u8 {
    match k {
        Shape::Int => 0,
        Shape::Function(_, _) => 1,
        Shape::Pointer(_) => 2,
        Shape::Record(_) => 3,
        Shape::AbsentField => 4,
        Shape::Var(_) => 5,
        Shape::FreshVar(_) => 6,
        Shape::Recursive(_, _) => 7,
    }
}

/// The variable that `k` names, if it names one.
pub open spec fn label(k: Shape) -> int {
    match k {
        Shape::Var(v) => v.0 as int,
        Shape::FreshVar(v) => v.0 as int,
        Shape::Recursive(v, _) => v.0 as int,
        _ => 0,
    }
}

/// The bytes that are hashed for `k`: its constructor, its variable and its
/// sub-terms. Field names are left out.
pub open spec fn code(k: Shape) -> Seq<u8> {
    seq![tag(k)] + digits(label(k), 8) + codes(k.children(), k.children().len())
}

/// The hash of `k`: that of the standard hasher, fed the bytes of `k` in one
/// piece.
pub open spec fn hash_of(k: Shape) -> u64 {
    DefaultHasher::spec_finish(seq![code(k)])
}

/// Appends the eight lowest digits of `x` to `buf`.
fn push_digits(buf: &mut Vec<u8>, x: usize)
    ensures
        final(buf)@ == old(buf)@ + digits(x as int, 8),
{
    let mut rest: usize = x;
    let mut i: usize = 0;
    assert(buf@ + digits(rest as int, 8) =~= old(buf)@ + digits(x as int, 8));
    while i < 8
        invariant
            i <= 8,
            buf@ + digits(rest as int, (8 - i) as nat) == old(buf)@ + digits(x as int, 8),
        decreases 8 - i,
    {
        let ghost before = buf@;
        buf.push((rest % 256) as u8);
        proof {
            assert(before + digits(rest as int, (8 - i) as nat) =~= buf@ + digits(
                rest as int / 256,
                (8 - i - 1) as nat,
            ));
        }
        rest = rest / 256;
        i += 1;
    }
    assert(buf@ + digits(rest as int, 0) =~= buf@);
}

/// The hash of `kind`. Kinds that are structurally equal have the same hash.
#[verifier::rlimit(50)]
pub fn hash(kind: &TyKind) -> (h: u64)
    ensures
        h == hash_of(kind@),
{
    let mut buf: Vec<u8> = Vec::new();
    let ghost children = kind@.children();
    match kind {
        TyKind::Int => {
            buf.push(0);
            push_digits(&mut buf, 0);
        },
        TyKind::AbsentField => {
            buf.push(4);
            push_digits(&mut buf, 0);
        },
        TyKind::Var(v) => {
            buf.push(5);
            push_digits(&mut buf, v.0);
        },
        TyKind::FreshVar(v) => {
            buf.push(6);
            push_digits(&mut buf, v.0);
        },
        TyKind::Pointer(inner) => {
            buf.push(2);
            push_digits(&mut buf, 0);
            assert(codes(children, 0) =~= Seq::empty());
            push_digits(&mut buf, inner.interned);
            assert(children[0] == *inner);
            assert(codes(children, 1) =~= digits(inner.idx(), 8));
        },
        TyKind::Recursive(v, body) => {
            buf.push(7);
            push_digits(&mut buf, v.0);
            assert(codes(children, 0) =~= Seq::empty());
            push_digits(&mut buf, body.interned);
            assert(children[0] == *body);
            assert(codes(children, 1) =~= digits(body.idx(), 8));
        },
        TyKind::Function(params, ret) => {
            buf.push(1);
            push_digits(&mut buf, 0);
            let ghost head = buf@;
            let mut i: usize = 0;
            assert(buf@ =~= head + codes(children, 0));
            while i < params.len()
                invariant
                    i <= params.len(),
                    children == params@.push(*ret),
                    buf@ == head + codes(children, i as nat),
                decreases params.len() - i,
            {
                push_digits(&mut buf, params[i].interned);
                assert(children[i as int] == params@[i as int]);
                i += 1;
                assert(buf@ =~= head + codes(children, i as nat));
            }
            push_digits(&mut buf, ret.interned);
            assert(children[params.len() as int] == *ret);
            assert(buf@ =~= head + codes(children, children.len()));
        },
        TyKind::Record(fields) => {
            buf.push(3);
            push_digits(&mut buf, 0);
            let ghost head = buf@;
            let mut i: usize = 0;
            assert(buf@ =~= head + codes(children, 0));
            while i < fields.len()
                invariant
                    i <= fields.len(),
                    children == kind@.children(),
                    kind@ == Shape::Record(crate::ty::fields_view(fields@)),
                    buf@ == head + codes(children, i as nat),
                decreases fields.len() - i,
            {
                push_digits(&mut buf, fields[i].1.interned);
                assert(children[i as int] == fields@[i as int].1);
                i += 1;
                assert(buf@ =~= head + codes(children, i as nat));
            }
        },
    }
    assert(buf@ =~= code(kind@));
    let mut hasher = DefaultHasher::new();
    hasher.write(buf.as_slice());
    assert(hasher@ =~= seq![code(kind@)]);
    hasher.finish()
}

/// `nohash_hasher::NoHashHasher<T>`: a hasher whose hash is the integer it was
/// fed. Nothing is claimed of its inside.
#[verifier::external_type_specification]
#[verifier::external_body]
#[verifier::reject_recursive_types(T)]
pub struct ExNoHashHasher<T>(NoHashHasher<T>);

/// `std::hash::BuildHasherDefault<H>`: makes hashers of type `H` by their
/// `Default`. Nothing is claimed of its inside.
#[verifier::external_type_specification]
#[verifier::external_body]
#[verifier::reject_recursive_types(H)]
pub struct ExBuildHasherDefault<H>(BuildHasherDefault<H>);

/// `HashMap::insert` on a map whose hasher is `nohash_hasher::NoHashHasher<u64>`.
/// That hasher returns the `u64` key it was fed as the hash, so equal keys hash
/// alike and the map behaves as a map: afterwards it holds `v` under `k` and is
/// otherwise unchanged, and the value that `k` had before, if any, is returned.
#[verifier::external_body]
fn int_map_insert(m: &mut HashMap<u64, Ty, BuildNoHashHasher<u64>>, k: u64, v: Ty) -> (prev: Option<Ty>)
    ensures
        final(m)@ == old(m)@.insert(k, v),
        prev == (if old(m)@.contains_key(k) {
            Some(old(m)@[k])
        } else {
            None
        }),
{
    m.insert(k, v)
}

/// `HashMap::get` on a map whose hasher is `nohash_hasher::NoHashHasher<u64>`:
/// the value stored under `k`, if there is one.
#[verifier::external_body]
fn int_map_get<'a>(m: &'a HashMap<u64, Ty, BuildNoHashHasher<u64>>, k: u64) -> (found: Option<&'a Ty>)
    ensures
        found == (if m@.contains_key(k) {
            Some(&m@[k])
        } else {
            None
        }),
{
    m.get(&k)
}

/// Table from node identities to type handles.
pub struct RefMap {
    inner: HashMap<u64, Ty, BuildNoHashHasher<u64>>,
}

impl View for RefMap {
    type V = Map<u64, Ty>;

    closed spec fn view(&self) -> Map<u64, Ty> {
        self.inner@
    }
}

impl RefMap {
    /// The empty table.
    pub fn new() -> (m: RefMap)
        ensures
            m@ == Map::<u64, Ty>::empty(),
    {
        RefMap { inner: HashMap::default() }
    }

    /// Stores `v` under `k` and returns what `k` stood for before.
    pub fn insert(&mut self, k: u64, v: Ty) -> (prev: Option<Ty>)
        ensures
            final(self)@ == old(self)@.insert(k, v),
            prev == (if old(self)@.contains_key(k) {
                Some(old(self)@[k])
            } else {
                None
            }),
    {
        int_map_insert(&mut self.inner, k, v)
    }

    /// The handle stored under `k`, if any.
    pub fn get(&self, k: u64) -> (found: Option<Ty>)
        ensures
            found == (if self@.contains_key(k) {
                Some(self@[k])
            } else {
                None
            }),
    {
        match int_map_get(&self.inner, k) {
            Some(t) => Some(*t),
            None => None,
        }
    }
}

} // verus!
