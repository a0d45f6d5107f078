use rs_tip::context::TyCtxt;
use rs_tip::hash::hash;
use rs_tip::ty::FreshVarId;
use rs_tip::ty::Ty;
use rs_tip::ty::TyKind;
use rs_tip::ty::TermKind;

#[test]
fn a_new_context_holds_the_integer_type() {
    let tcx = TyCtxt::new();
    assert_eq!(tcx.len(), 1);
    let int = tcx.common().integer();
    assert_eq!(*tcx.ty_kind(int.index()), TyKind::Int);
    assert_eq!(tcx.repr(&TyKind::Int), Some(int.index()));
}

#[test]
fn interning_a_kind_twice_gives_one_handle() {
    let mut tcx = TyCtxt::new();
    let int = tcx.common().integer();
    let a = tcx.intern_ty_kind(TyKind::Pointer(int));
    let b = tcx.intern_ty_kind(TyKind::Pointer(int));
    assert_eq!(a, b);
    assert_eq!(tcx.len(), 2);
    assert_eq!(tcx.intern_ty_kind(TyKind::Int), int.index());
    assert_eq!(tcx.len(), 2);
}

#[test]
fn different_kinds_get_different_handles() {
    let mut tcx = TyCtxt::new();
    let int = tcx.common().integer();
    let pointer = Ty::intern(&mut tcx, TyKind::Pointer(int));
    let nested = Ty::intern(&mut tcx, TyKind::Pointer(pointer));
    let function = Ty::intern(&mut tcx, TyKind::Function(vec![int], int));
    let other = Ty::intern(&mut tcx, TyKind::Function(vec![int, int], int));
    let record = Ty::intern(&mut tcx, TyKind::Record(vec![("a".to_string(), int)]));
    let renamed = Ty::intern(&mut tcx, TyKind::Record(vec![("b".to_string(), int)]));
    let absent = Ty::intern(&mut tcx, TyKind::AbsentField);
    let fresh = Ty::intern(&mut tcx, TyKind::FreshVar(FreshVarId(0)));
    let all = [int, pointer, nested, function, other, record, renamed, absent, fresh];
    for i in 0..all.len() {
        for j in 0..all.len() {
            assert_eq!(all[i] == all[j], i == j);
        }
    }
    assert_eq!(*pointer.kind(&tcx), TyKind::Pointer(int));
    assert_eq!(*record.kind(&tcx), TyKind::Record(vec![("a".to_string(), int)]));
}

#[test]
fn a_kind_that_was_not_interned_has_no_handle() {
    let mut tcx = TyCtxt::new();
    let int = tcx.common().integer();
    assert_eq!(tcx.repr(&TyKind::Pointer(int)), None);
    let pointer = tcx.intern_ty_kind(TyKind::Pointer(int));
    assert_eq!(tcx.repr(&TyKind::Pointer(int)), Some(pointer));
    assert_eq!(Ty::for_kind(&tcx, &TyKind::Pointer(int)).index(), pointer);
}

#[test]
fn minted_variables_are_new_and_increase() {
    let mut tcx = TyCtxt::new();
    let a = tcx.alloc_var_id();
    let b = tcx.alloc_var_id();
    assert_eq!(a.0, 0);
    assert_eq!(b.0, 1);
    assert_eq!(tcx.len(), 3);
    let kind = TyKind::make_var(&mut tcx);
    assert_eq!(kind, TyKind::Var(rs_tip::ty::VarId(2)));
    let before = tcx.len();
    let handle = kind.intern(&mut tcx);
    assert_eq!(tcx.len(), before);
    assert_eq!(handle.index(), before - 1);
    let fresh = Ty::fresh(&mut tcx);
    assert_eq!(*fresh.kind(&tcx), TyKind::Var(rs_tip::ty::VarId(3)));
}

#[test]
fn kinds_are_classified_for_unification() {
    let mut tcx = TyCtxt::new();
    let int = tcx.common().integer();
    let v = tcx.alloc_var_id();
    assert!(TyKind::Var(v).term_kind() == TermKind::Var);
    assert!(TyKind::FreshVar(FreshVarId(4)).term_kind() == TermKind::Var);
    assert!(TyKind::Int.term_kind() == TermKind::Cons);
    assert!(TyKind::Pointer(int).term_kind() == TermKind::Cons);
    assert!(TyKind::Function(vec![], int).term_kind() == TermKind::Cons);
    assert!(TyKind::Record(vec![]).term_kind() == TermKind::Cons);
    assert!(TyKind::AbsentField.term_kind() == TermKind::Cons);
    assert!(TyKind::Recursive(v, int).term_kind() == TermKind::Mu);
}

#[test]
fn constructors_match_by_tag_arity_and_field_names() {
    let int = Ty::new(0);
    let other = Ty::new(1);
    assert!(TyKind::Int.matches(&TyKind::Int));
    assert!(TyKind::Pointer(int).matches(&TyKind::Pointer(other)));
    assert!(!TyKind::Pointer(int).matches(&TyKind::Int));
    assert!(TyKind::Function(vec![int], int).matches(&TyKind::Function(vec![other], other)));
    assert!(!TyKind::Function(vec![int], int).matches(&TyKind::Function(vec![], int)));
    let ab = TyKind::Record(vec![("a".to_string(), int), ("b".to_string(), int)]);
    let ba = TyKind::Record(vec![("b".to_string(), other), ("a".to_string(), other)]);
    let ac = TyKind::Record(vec![("a".to_string(), int), ("c".to_string(), int)]);
    assert!(ab.matches(&ba));
    assert!(!ab.matches(&ac));
    assert!(!ab.matches(&TyKind::Record(vec![("a".to_string(), int)])));
    assert!(!TyKind::AbsentField.matches(&TyKind::Int));
    assert!(TyKind::Pointer(int).same(&TyKind::Pointer(int)));
    assert!(!TyKind::Pointer(int).same(&TyKind::Pointer(other)));
    assert!(!ab.same(&ba));
    assert_eq!(ab.duplicate(), ab);
}

#[test]
fn the_arity_counts_the_sub_terms() {
    let int = Ty::new(0);
    assert_eq!(TyKind::Int.arity(), 0);
    assert_eq!(TyKind::Pointer(int).arity(), 1);
    assert_eq!(TyKind::Function(vec![int, int], int).arity(), 3);
    assert_eq!(TyKind::Function(vec![], int).arity(), 1);
    assert_eq!(TyKind::Record(vec![("a".to_string(), int)]).arity(), 1);
    assert_eq!(TyKind::AbsentField.arity(), 0);
}

#[test]
fn equal_kinds_have_equal_hashes() {
    let int = Ty::new(0);
    let other = Ty::new(1);
    assert_eq!(hash(&TyKind::Pointer(int)), hash(&TyKind::Pointer(int)));
    assert_eq!(
        hash(&TyKind::Function(vec![int, other], int)),
        hash(&TyKind::Function(vec![int, other], int))
    );
    assert_ne!(hash(&TyKind::Pointer(int)), hash(&TyKind::Pointer(other)));
    assert_ne!(hash(&TyKind::Int), hash(&TyKind::AbsentField));
}

#[test]
fn many_kinds_are_interned_canonically() {
    let mut tcx = TyCtxt::new();
    let mut last = tcx.common().integer();
    let mut chain = vec![last];
    for _ in 0..200 {
        last = Ty::intern(&mut tcx, TyKind::Pointer(last));
        chain.push(last);
    }
    assert_eq!(tcx.len(), 201);
    for i in 0..200 {
        assert_eq!(Ty::intern(&mut tcx, TyKind::Pointer(chain[i])), chain[i + 1]);
    }
    assert_eq!(tcx.len(), 201);
}
