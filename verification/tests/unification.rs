use rs_tip::context::TyCtxt;
use rs_tip::solvers::unionfind::UnionFind;
use rs_tip::solvers::unionfind::UnionFindSolver;
use rs_tip::ty::Ty;
use rs_tip::ty::TyKind;

#[test]
fn a_variable_joins_the_class_of_what_it_is_unified_with() {
    let mut tcx = TyCtxt::new();
    let int = tcx.common().integer();
    let v = Ty::fresh(&mut tcx);
    let mut solver = UnionFindSolver::new();
    assert!(!solver.equivalent(v, int));
    assert!(solver.unify(&tcx, v, int).is_ok());
    assert!(solver.equivalent(v, int));
    assert_eq!(solver.find(v), int);
    assert_eq!(solver.find(int), int);
}

#[test]
fn of_two_variables_the_earlier_one_represents_both() {
    let mut tcx = TyCtxt::new();
    let a = Ty::fresh(&mut tcx);
    let b = Ty::fresh(&mut tcx);
    let mut solver = UnionFindSolver::new();
    assert!(solver.unify(&tcx, b, a).is_ok());
    assert_eq!(solver.find(b), a);
    let mut other = UnionFindSolver::new();
    assert!(other.unify(&tcx, a, b).is_ok());
    assert_eq!(other.find(b), a);
    assert_eq!(other.find(a), a);
}

#[test]
fn the_integer_type_and_a_pointer_do_not_unify() {
    let mut tcx = TyCtxt::new();
    let int = tcx.common().integer();
    let pointer = Ty::intern(&mut tcx, TyKind::Pointer(int));
    let mut solver = UnionFindSolver::new();
    let clash = solver.unify(&tcx, int, pointer).unwrap_err();
    assert_eq!(clash.left, TyKind::Int);
    assert_eq!(clash.right, TyKind::Pointer(int));
    assert!(!solver.equivalent(int, pointer));
}

#[test]
fn a_variable_bound_to_a_pointer_does_not_unify_with_the_integer_type() {
    let mut tcx = TyCtxt::new();
    let int = tcx.common().integer();
    let pointer = Ty::intern(&mut tcx, TyKind::Pointer(int));
    let v = Ty::fresh(&mut tcx);
    let mut solver = UnionFindSolver::new();
    assert!(solver.unify(&tcx, v, pointer).is_ok());
    let clash = solver.unify(&tcx, v, int).unwrap_err();
    assert_eq!(clash.left, TyKind::Pointer(int));
    assert_eq!(clash.right, TyKind::Int);
    assert!(solver.equivalent(v, pointer));
    assert!(!solver.equivalent(v, int));
}

#[test]
fn unifying_constructors_unifies_their_sub_terms() {
    let mut tcx = TyCtxt::new();
    let int = tcx.common().integer();
    let a = Ty::fresh(&mut tcx);
    let b = Ty::fresh(&mut tcx);
    let c = Ty::fresh(&mut tcx);
    let left = Ty::intern(&mut tcx, TyKind::Function(vec![a, int], b));
    let pointer = Ty::intern(&mut tcx, TyKind::Pointer(c));
    let right = Ty::intern(&mut tcx, TyKind::Function(vec![int, c], pointer));
    let mut solver = UnionFindSolver::new();
    assert!(solver.unify(&tcx, left, right).is_ok());
    assert!(solver.equivalent(left, right));
    assert_eq!(solver.find(a), int);
    assert_eq!(solver.find(c), int);
    assert_eq!(solver.find(b), pointer);
}

#[test]
fn a_clash_below_the_top_leaves_nothing_unified() {
    let mut tcx = TyCtxt::new();
    let int = tcx.common().integer();
    let a = Ty::fresh(&mut tcx);
    let pointer = Ty::intern(&mut tcx, TyKind::Pointer(int));
    let left = Ty::intern(&mut tcx, TyKind::Function(vec![a, int], int));
    let right = Ty::intern(&mut tcx, TyKind::Function(vec![int, pointer], int));
    let mut solver = UnionFindSolver::new();
    let clash = solver.unify(&tcx, left, right).unwrap_err();
    assert_eq!(clash.left, TyKind::Int);
    assert_eq!(clash.right, TyKind::Pointer(int));
    assert!(!solver.equivalent(left, right));
    assert!(!solver.equivalent(a, int));
    assert_eq!(solver.find(a), a);
    assert_eq!(solver.find(left), left);
}

#[test]
fn functions_of_different_arity_do_not_unify() {
    let mut tcx = TyCtxt::new();
    let int = tcx.common().integer();
    let one = Ty::intern(&mut tcx, TyKind::Function(vec![int], int));
    let two = Ty::intern(&mut tcx, TyKind::Function(vec![int, int], int));
    let mut solver = UnionFindSolver::new();
    let clash = solver.unify(&tcx, one, two).unwrap_err();
    assert_eq!(clash.left, TyKind::Function(vec![int], int));
    assert_eq!(clash.right, TyKind::Function(vec![int, int], int));
}

#[test]
fn records_unify_field_by_field_whatever_the_order() {
    let mut tcx = TyCtxt::new();
    let int = tcx.common().integer();
    let a = Ty::fresh(&mut tcx);
    let b = Ty::fresh(&mut tcx);
    let pointer = Ty::intern(&mut tcx, TyKind::Pointer(int));
    let left = Ty::intern(
        &mut tcx,
        TyKind::Record(vec![("x".to_string(), a), ("y".to_string(), pointer)]),
    );
    let right = Ty::intern(
        &mut tcx,
        TyKind::Record(vec![("y".to_string(), b), ("x".to_string(), int)]),
    );
    let mut solver = UnionFindSolver::new();
    assert!(solver.unify(&tcx, left, right).is_ok());
    assert_eq!(solver.find(a), int);
    assert_eq!(solver.find(b), pointer);
    let other = Ty::intern(&mut tcx, TyKind::Record(vec![("x".to_string(), int)]));
    assert!(solver.unify(&tcx, left, other).is_err());
}

#[test]
fn a_pointer_to_itself_is_unified_in_finitely_many_steps() {
    let mut tcx = TyCtxt::new();
    let v = Ty::fresh(&mut tcx);
    let pointer = Ty::intern(&mut tcx, TyKind::Pointer(v));
    let deeper = Ty::intern(&mut tcx, TyKind::Pointer(pointer));
    let mut solver = UnionFindSolver::new();
    assert!(solver.unify(&tcx, v, pointer).is_ok());
    assert!(solver.unify(&tcx, pointer, deeper).is_ok());
    assert!(solver.unify(&tcx, deeper, v).is_ok());
    for _ in 0..3 {
        assert!(solver.equivalent(v, pointer));
        assert!(solver.equivalent(pointer, deeper));
        assert!(solver.equivalent(v, deeper));
    }
    let int = tcx.common().integer();
    assert!(solver.unify(&tcx, v, int).is_err());
    assert!(solver.equivalent(v, deeper));
    assert!(!solver.equivalent(v, int));
}

#[test]
fn a_recursive_type_is_unfolded_when_it_meets_a_constructor() {
    let mut tcx = TyCtxt::new();
    let int = tcx.common().integer();
    let id = tcx.alloc_var_id();
    let bound = Ty::intern(&mut tcx, TyKind::Var(id));
    let body = Ty::intern(&mut tcx, TyKind::Pointer(bound));
    let list = Ty::intern(&mut tcx, TyKind::Recursive(id, body));
    let x = Ty::fresh(&mut tcx);
    let other = Ty::intern(&mut tcx, TyKind::Pointer(x));
    let mut solver = UnionFindSolver::new();
    assert!(solver.unify(&tcx, list, other).is_ok());
    assert!(solver.equivalent(list, other));
    assert!(solver.equivalent(list, body));
    assert!(solver.equivalent(bound, list));
    assert!(solver.equivalent(x, list));
    assert!(solver.unify(&tcx, list, int).is_err());
    assert!(solver.equivalent(x, list));
}

#[test]
fn equivalence_is_reflexive_symmetric_and_transitive() {
    let mut tcx = TyCtxt::new();
    let a = Ty::fresh(&mut tcx);
    let b = Ty::fresh(&mut tcx);
    let c = Ty::fresh(&mut tcx);
    let d = Ty::fresh(&mut tcx);
    let mut solver = UnionFindSolver::new();
    assert!(solver.equivalent(a, a));
    assert!(solver.unify(&tcx, a, b).is_ok());
    assert!(solver.unify(&tcx, c, b).is_ok());
    assert!(solver.equivalent(a, b) && solver.equivalent(b, a));
    assert!(solver.equivalent(a, c) && solver.equivalent(c, a));
    assert!(!solver.equivalent(a, d));
    let rc = solver.find(c);
    assert_eq!(solver.find(rc), rc);
    assert!(solver.unify(&tcx, a, c).is_ok());
    assert!(!solver.equivalent(a, d));
}

#[test]
fn the_solver_grows_with_the_context() {
    let mut tcx = TyCtxt::new();
    let mut solver = UnionFindSolver::new();
    let mut all = Vec::new();
    for _ in 0..40 {
        all.push(Ty::fresh(&mut tcx));
    }
    for pair in all.windows(2) {
        assert!(solver.unify(&tcx, pair[1], pair[0]).is_ok());
    }
    assert_eq!(solver.find(all[39]), all[0]);
    let late = Ty::fresh(&mut tcx);
    assert!(!solver.equivalent(late, all[0]));
    assert!(solver.unify(&tcx, late, all[20]).is_ok());
    assert_eq!(solver.find(late), all[0]);
}

#[test]
fn a_forest_merges_classes_and_finds_their_representatives() {
    let mut forest = UnionFind::new(5);
    assert_eq!(forest.len(), 5);
    for i in 0..5 {
        assert_eq!(forest.find(Ty::new(i)), Ty::new(i));
    }
    assert!(forest.union(Ty::new(0), Ty::new(1)));
    assert!(forest.union(Ty::new(1), Ty::new(2)));
    assert!(!forest.union(Ty::new(0), Ty::new(2)));
    assert!(!forest.union(Ty::new(3), Ty::new(3)));
    assert_eq!(forest.find(Ty::new(0)), Ty::new(2));
    assert_eq!(forest.find_mut(Ty::new(0)), Ty::new(2));
    assert_eq!(forest.find(Ty::new(0)), Ty::new(2));
    assert!(forest.equiv(Ty::new(0), Ty::new(2)));
    assert!(!forest.equiv(Ty::new(0), Ty::new(3)));
    forest.grow(8);
    assert_eq!(forest.len(), 8);
    assert_eq!(forest.find(Ty::new(7)), Ty::new(7));
    forest.grow(3);
    assert_eq!(forest.len(), 8);
    assert!(forest.equiv(Ty::new(1), Ty::new(2)));
}

#[test]
fn a_default_solver_has_met_no_handle() {
    let mut solver = UnionFindSolver::default();
    assert_eq!(solver.find(Ty::new(3)), Ty::new(3));
    assert!(solver.equivalent(Ty::new(3), Ty::new(3)));
    assert!(!solver.equivalent(Ty::new(3), Ty::new(4)));
}
