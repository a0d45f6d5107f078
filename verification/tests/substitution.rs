use rs_tip::context::TyCtxt;
use rs_tip::ty::FreshVarId;
use rs_tip::ty::Ty;
use rs_tip::ty::TyKind;

#[test]
fn the_variable_becomes_the_type_and_other_variables_stay() {
    let mut tcx = TyCtxt::new();
    let int = tcx.common().integer();
    let v = tcx.alloc_var_id();
    let w = tcx.alloc_var_id();
    let tw = Ty::intern(&mut tcx, TyKind::Var(w));
    assert_eq!(TyKind::Var(v).substitute(&mut tcx, v, int), int);
    assert_eq!(TyKind::Var(w).substitute(&mut tcx, v, int), tw);
    assert_eq!(tw.substitute(&mut tcx, w, int), int);
    assert_eq!(TyKind::Int.substitute(&mut tcx, v, tw), int);
    let fresh = Ty::intern(&mut tcx, TyKind::FreshVar(FreshVarId(7)));
    assert_eq!(fresh.substitute(&mut tcx, v, int), fresh);
    let absent = TyKind::AbsentField.substitute(&mut tcx, v, int);
    assert_eq!(*absent.kind(&tcx), TyKind::AbsentField);
}

#[test]
fn substitution_reaches_every_sub_term() {
    let mut tcx = TyCtxt::new();
    let int = tcx.common().integer();
    let v = tcx.alloc_var_id();
    let w = tcx.alloc_var_id();
    let tv = Ty::intern(&mut tcx, TyKind::Var(v));
    let tw = Ty::intern(&mut tcx, TyKind::Var(w));
    let pointer = Ty::intern(&mut tcx, TyKind::Pointer(tv));
    let record = Ty::intern(
        &mut tcx,
        TyKind::Record(vec![("a".to_string(), tv), ("b".to_string(), tw)]),
    );
    let function = Ty::intern(&mut tcx, TyKind::Function(vec![pointer, tw], record));

    let result = function.substitute(&mut tcx, v, int);

    let int_pointer = Ty::for_kind(&tcx, &TyKind::Pointer(int));
    let int_record = Ty::for_kind(
        &tcx,
        &TyKind::Record(vec![("a".to_string(), int), ("b".to_string(), tw)]),
    );
    assert_eq!(*result.kind(&tcx), TyKind::Function(vec![int_pointer, tw], int_record));
    assert_eq!(function.substitute(&mut tcx, v, int), result);
    assert_eq!(*function.kind(&tcx), TyKind::Function(vec![pointer, tw], record));
}

#[test]
fn a_binder_of_the_variable_hides_it() {
    let mut tcx = TyCtxt::new();
    let int = tcx.common().integer();
    let v = tcx.alloc_var_id();
    let w = tcx.alloc_var_id();
    let tv = Ty::intern(&mut tcx, TyKind::Var(v));
    let tw = Ty::intern(&mut tcx, TyKind::Var(w));
    let body = Ty::intern(&mut tcx, TyKind::Function(vec![tv], tw));
    let binder = Ty::intern(&mut tcx, TyKind::Recursive(v, body));
    assert_eq!(binder.substitute(&mut tcx, v, int), binder);
    let result = binder.substitute(&mut tcx, w, int);
    let new_body = Ty::for_kind(&tcx, &TyKind::Function(vec![tv], int));
    assert_eq!(*result.kind(&tcx), TyKind::Recursive(v, new_body));
}
