use rs_tip::context::TyCtxt;
use rs_tip::errors::Span;
use rs_tip::infer::infer;
use rs_tip::infer::InferenceError;
use rs_tip::infer::InferenceResult;
use rs_tip::syntax::ast::AstExp;
use rs_tip::syntax::ast::AstFun;
use rs_tip::syntax::ast::AstProg;
use rs_tip::syntax::ast::AstStm;
use rs_tip::syntax::ast::AstString;
use rs_tip::syntax::ast::BinOp;
use rs_tip::syntax::ast::Exp;
use rs_tip::syntax::ast::Field;
use rs_tip::syntax::ast::Fun;
use rs_tip::syntax::ast::IntoSpanned;
use rs_tip::syntax::ast::Prog;
use rs_tip::syntax::ast::Stm;
use rs_tip::syntax::ast::UnOp;
use rs_tip::ty::Ty;
use rs_tip::ty::TyKind;

/// Hands out node identities and spans: node `n` gets identity `n` and the
/// span `10 n .. 10 n + 5`.
struct Builder {
    next: u64,
}

impl Builder {
    fn new() -> Builder {
        Builder { next: 0 }
    }

    fn node<T>(&mut self, node: T) -> rs_tip::syntax::ast::Spanned<T> {
        let id = self.next;
        self.next += 1;
        node.into_spanned(10 * id as usize, 10 * id as usize + 5, id)
    }

    fn name(&mut self, name: &str) -> AstString {
        self.node(name.to_string())
    }

    fn literal(&mut self, value: i32) -> AstExp {
        let literal = self.node(value);
        self.node(Exp::Int(literal))
    }

    fn var(&mut self, name: &str) -> AstExp {
        let name = self.name(name);
        self.node(Exp::Identifier(name))
    }

    fn cell(&mut self, init: AstExp) -> AstExp {
        self.node(Exp::Alloc(Box::new(init)))
    }

    fn call(&mut self, callee: AstExp, args: Vec<AstExp>) -> AstExp {
        self.node(Exp::Call(Box::new(callee), args))
    }

    fn assign(&mut self, name: &str, value: AstExp) -> AstStm {
        let name = self.name(name);
        self.node(Stm::IdentifierAssign(name, value))
    }

    fn fun(
        &mut self,
        name: &str,
        params: &[&str],
        vars: &[&str],
        stms: Vec<AstStm>,
        return_: AstExp,
    ) -> AstFun {
        let name = self.name(name);
        let params = params.iter().map(|p| self.name(p)).collect();
        let vars = vars.iter().map(|v| self.name(v)).collect();
        self.node(Fun { name, params, vars, stms, return_ })
    }

    fn prog(&mut self, funs: Vec<AstFun>) -> AstProg {
        self.node(Prog { funs })
    }
}

/// The description of the representative of `t`.
fn resolved(tcx: &TyCtxt, result: &mut InferenceResult, t: Ty) -> TyKind {
    result.solver.resolve(tcx, t).clone()
}

fn type_of(tcx: &TyCtxt, result: &mut InferenceResult, id: u64) -> TyKind {
    result.type_of(tcx, id).expect("the expression has a type").clone()
}

#[test]
fn assigning_an_integer_makes_the_variable_and_the_result_integers() {
    // main() { var x; x = 1; return x; }
    let mut b = Builder::new();
    let one = b.literal(1);
    let stm = b.assign("x", one);
    let ret = b.var("x");
    let ret_id = ret.id;
    let main = b.fun("main", &[], &["x"], vec![stm], ret);
    let prog = b.prog(vec![main]);

    let mut tcx = TyCtxt::new();
    let mut result = infer(&mut tcx, &prog);

    assert!(result.diagnostics.is_empty());
    assert_eq!(type_of(&tcx, &mut result, ret_id), TyKind::Int);
    // The function type of main: no parameters, and a return type that is Int.
    let main_ty = (0..tcx.len())
        .map(|i| tcx.ty_kind(i).clone())
        .find(|k| matches!(k, TyKind::Function(_, _)))
        .expect("main has a function type");
    match main_ty {
        TyKind::Function(params, ret) => {
            assert!(params.is_empty());
            assert_eq!(resolved(&tcx, &mut result, ret), TyKind::Int);
        }
        _ => unreachable!(),
    }
}

#[test]
fn assigning_an_integer_and_a_pointer_to_one_variable_is_one_mismatch() {
    // main() { var x; x = 1; x = alloc 1; return x; }
    let mut b = Builder::new();
    let one = b.literal(1);
    let first = b.assign("x", one);
    let one = b.literal(1);
    let cell = b.cell(one);
    let second = b.assign("x", cell);
    let second_span = Span::new(second.start, second.end);
    let ret = b.var("x");
    let main = b.fun("main", &[], &["x"], vec![first, second], ret);
    let prog = b.prog(vec![main]);

    let mut tcx = TyCtxt::new();
    let mut result = infer(&mut tcx, &prog);

    assert_eq!(result.diagnostics.len(), 1);
    assert_eq!(result.diagnostics[0].span, second_span);
    let (left, right) = match &result.diagnostics[0].message {
        InferenceError::TypeMismatch(left, right) => (left.clone(), right.clone()),
        other => panic!("expected a type mismatch, got {:?}", other),
    };
    assert_eq!(left, TyKind::Int);
    match right {
        TyKind::Pointer(inner) => assert_eq!(resolved(&tcx, &mut result, inner), TyKind::Int),
        other => panic!("expected a pointer, got {:?}", other),
    }
}

#[test]
fn calling_one_function_with_an_integer_and_a_pointer_is_a_mismatch() {
    // f(x) { return x; } main() { return f(1) + f(alloc 1); }
    let mut b = Builder::new();
    let x = b.var("x");
    let f = b.fun("f", &["x"], &[], vec![], x);
    let callee = b.var("f");
    let one = b.literal(1);
    let first = b.call(callee, vec![one]);
    let callee = b.var("f");
    let one = b.literal(1);
    let cell = b.cell(one);
    let second = b.call(callee, vec![cell]);
    let second_span = Span::new(second.start, second.end);
    let sum = b.node(Exp::Binary(Box::new(first), BinOp::Add, Box::new(second)));
    let main = b.fun("main", &[], &[], vec![], sum);
    let prog = b.prog(vec![f, main]);

    let mut tcx = TyCtxt::new();
    let mut result = infer(&mut tcx, &prog);

    assert_eq!(result.diagnostics.len(), 1);
    assert_eq!(result.diagnostics[0].span, second_span);
    match &result.diagnostics[0].message {
        InferenceError::TypeMismatch(TyKind::Int, TyKind::Pointer(inner)) => {
            let inner = *inner;
            assert_eq!(resolved(&tcx, &mut result, inner), TyKind::Int);
        }
        other => panic!("expected Int against a pointer, got {:?}", other),
    }
}

#[test]
fn a_local_shadows_a_function_of_the_same_name_inside_its_body_only() {
    // f() { var g; g = 1; return g; }  g() { return f; }  main() { return g; }
    let mut b = Builder::new();
    let one = b.literal(1);
    let stm = b.assign("g", one);
    let inner_use = b.var("g");
    let inner_id = inner_use.id;
    let f = b.fun("f", &[], &["g"], vec![stm], inner_use);
    let f_ref = b.var("f");
    let g = b.fun("g", &[], &[], vec![], f_ref);
    let outer_use = b.var("g");
    let outer_id = outer_use.id;
    let main = b.fun("main", &[], &[], vec![], outer_use);
    let prog = b.prog(vec![f, g, main]);

    let mut tcx = TyCtxt::new();
    let mut result = infer(&mut tcx, &prog);

    assert!(result.diagnostics.is_empty());
    assert_eq!(type_of(&tcx, &mut result, inner_id), TyKind::Int);
    assert!(matches!(type_of(&tcx, &mut result, outer_id), TyKind::Function(_, _)));
}

#[test]
fn a_name_declared_nowhere_is_reported_at_its_span() {
    // main() { return y; }
    let mut b = Builder::new();
    let y = b.var("y");
    let span = Span::new(y.start, y.end);
    let main = b.fun("main", &[], &[], vec![], y);
    let prog = b.prog(vec![main]);

    let mut tcx = TyCtxt::new();
    let result = infer(&mut tcx, &prog);

    assert_eq!(result.diagnostics.len(), 1);
    assert_eq!(result.diagnostics[0].span, span);
    match &result.diagnostics[0].message {
        InferenceError::UndefinedVariable(name) => assert_eq!(name, "y"),
        other => panic!("expected an undefined variable, got {:?}", other),
    }
    assert_eq!(result.first_problem().map(|d| d.span), Some(span));
}

#[test]
fn a_name_declared_twice_in_one_body_is_reported() {
    // main(a) { var a; return a; }
    let mut b = Builder::new();
    let a = b.var("a");
    let main = b.fun("main", &["a"], &["a"], vec![], a);
    let prog = b.prog(vec![main]);

    let mut tcx = TyCtxt::new();
    let result = infer(&mut tcx, &prog);

    assert_eq!(result.diagnostics.len(), 1);
    match &result.diagnostics[0].message {
        InferenceError::DuplicateDeclaration(name) => assert_eq!(name, "a"),
        other => panic!("expected a duplicate declaration, got {:?}", other),
    }
}

#[test]
fn functions_may_call_each_other_whatever_their_order() {
    // even(n) { return odd(n - 1); }  odd(n) { return even(n - 1); }
    let mut b = Builder::new();
    let mut body = |b: &mut Builder, callee: &str| {
        let callee = b.var(callee);
        let n = b.var("n");
        let one = b.literal(1);
        let less = b.node(Exp::Binary(Box::new(n), BinOp::Subtract, Box::new(one)));
        b.call(callee, vec![less])
    };
    let even_body = body(&mut b, "odd");
    let even = b.fun("even", &["n"], &[], vec![], even_body);
    let odd_body = body(&mut b, "even");
    let odd_id = odd_body.id;
    let odd = b.fun("odd", &["n"], &[], vec![], odd_body);
    let prog = b.prog(vec![even, odd]);

    let mut tcx = TyCtxt::new();
    let mut result = infer(&mut tcx, &prog);

    assert!(result.diagnostics.is_empty());
    assert!(matches!(type_of(&tcx, &mut result, odd_id), TyKind::Var(_)));
}

#[test]
fn constructs_get_the_types_of_the_table() {
    // main(p) { var r, s; r = {a: 1, b: null}; s = -(*p) > input; output r.a; *p = 3; return &s; }
    let mut b = Builder::new();
    let one = b.literal(1);
    let name_a = b.name("a");
    let field_a = b.node(Field { name: name_a, value: Box::new(one) });
    let null = b.node(Exp::Null);
    let name_b = b.name("b");
    let field_b = b.node(Field { name: name_b, value: Box::new(null) });
    let record = b.node(Exp::Record(vec![field_a, field_b]));
    let record_id = record.id;
    let s1 = b.assign("r", record);
    let p = b.var("p");
    let deref = b.node(Exp::Dereference(Box::new(p)));
    let neg = b.node(Exp::Unary(UnOp::Negative, Box::new(deref)));
    let input = b.node(Exp::Input);
    let cmp = b.node(Exp::Binary(Box::new(neg), BinOp::Greater, Box::new(input)));
    let cmp_id = cmp.id;
    let s2 = b.assign("s", cmp);
    let r = b.var("r");
    let a = b.name("a");
    let access = b.node(Exp::Field(Box::new(r), a));
    let access_id = access.id;
    let s3 = b.node(Stm::Output(access));
    let p = b.var("p");
    let p_id = p.id;
    let three = b.literal(3);
    let s4 = b.node(Stm::PointerAssign(p, three));
    let s_name = b.name("s");
    let addr = b.node(Exp::Pointer(s_name));
    let addr_id = addr.id;
    let main = b.fun("main", &["p"], &["r", "s"], vec![s1, s2, s3, s4], addr);
    let prog = b.prog(vec![main]);

    let mut tcx = TyCtxt::new();
    let mut result = infer(&mut tcx, &prog);

    assert!(result.diagnostics.is_empty(), "{:?}", result.diagnostics);
    assert_eq!(type_of(&tcx, &mut result, cmp_id), TyKind::Int);
    assert_eq!(type_of(&tcx, &mut result, access_id), TyKind::Int);
    match type_of(&tcx, &mut result, record_id) {
        TyKind::Record(fields) => {
            assert_eq!(fields.len(), 2);
            assert_eq!(fields[0].0, "a");
            assert_eq!(fields[1].0, "b");
            assert_eq!(resolved(&tcx, &mut result, fields[0].1), TyKind::Int);
            assert!(matches!(resolved(&tcx, &mut result, fields[1].1), TyKind::Var(_)));
        }
        other => panic!("expected a record, got {:?}", other),
    }
    match type_of(&tcx, &mut result, p_id) {
        TyKind::Pointer(inner) => assert_eq!(resolved(&tcx, &mut result, inner), TyKind::Int),
        other => panic!("expected a pointer, got {:?}", other),
    }
    match type_of(&tcx, &mut result, addr_id) {
        TyKind::Pointer(inner) => assert_eq!(resolved(&tcx, &mut result, inner), TyKind::Int),
        other => panic!("expected a pointer, got {:?}", other),
    }
}

#[test]
fn a_field_that_a_record_lacks_is_a_mismatch_with_the_absent_field() {
    // main() { return {a: 1}.b; }
    let mut b = Builder::new();
    let one = b.literal(1);
    let name_a = b.name("a");
    let field_a = b.node(Field { name: name_a, value: Box::new(one) });
    let record = b.node(Exp::Record(vec![field_a]));
    let name_b = b.name("b");
    let access = b.node(Exp::Field(Box::new(record), name_b));
    let span = Span::new(access.start, access.end);
    let main = b.fun("main", &[], &[], vec![], access);
    let prog = b.prog(vec![main]);

    let mut tcx = TyCtxt::new();
    let result = infer(&mut tcx, &prog);

    assert_eq!(result.diagnostics.len(), 1);
    assert_eq!(result.diagnostics[0].span, span);
    match &result.diagnostics[0].message {
        InferenceError::TypeMismatch(TyKind::Record(fields), TyKind::AbsentField) => {
            assert_eq!(fields.len(), 1);
            assert_eq!(fields[0].0, "a");
        }
        other => panic!("expected a record against the absent field, got {:?}", other),
    }
}

#[test]
fn a_variable_that_points_to_itself_gets_a_recursive_type() {
    // main() { var p; p = &p; *p = p; return 0; }
    let mut b = Builder::new();
    let name = b.name("p");
    let addr = b.node(Exp::Pointer(name));
    let s1 = b.assign("p", addr);
    let target = b.var("p");
    let value = b.var("p");
    let value_id = value.id;
    let s2 = b.node(Stm::PointerAssign(target, value));
    let zero = b.literal(0);
    let main = b.fun("main", &[], &["p"], vec![s1, s2], zero);
    let prog = b.prog(vec![main]);

    let mut tcx = TyCtxt::new();
    let mut result = infer(&mut tcx, &prog);

    assert!(result.diagnostics.is_empty(), "{:?}", result.diagnostics);
    match type_of(&tcx, &mut result, value_id) {
        TyKind::Pointer(inner) => {
            let p = result.expr_to_ty.get(value_id).unwrap();
            assert!(result.solver.equivalent(inner, p));
        }
        other => panic!("expected a pointer, got {:?}", other),
    }
}

#[test]
fn conditions_and_output_are_integers() {
    // main(p) { if (alloc 1) { output p; } else { while (p) { output 1; } } return 0; }
    let mut b = Builder::new();
    let one = b.literal(1);
    let cond = b.cell(one);
    let p = b.var("p");
    let out = b.node(Stm::Output(p));
    let p = b.var("p");
    let one = b.literal(1);
    let inner = b.node(Stm::Output(one));
    let looped = b.node(Stm::While(p, vec![inner]));
    let branch = b.node(Stm::If(cond, vec![out], Some(vec![looped])));
    let branch_span = Span::new(branch.start, branch.end);
    let zero = b.literal(0);
    let main = b.fun("main", &["p"], &[], vec![branch], zero);
    let prog = b.prog(vec![main]);

    let mut tcx = TyCtxt::new();
    let mut result = infer(&mut tcx, &prog);

    assert_eq!(result.diagnostics.len(), 1);
    assert_eq!(result.diagnostics[0].span, branch_span);
    match &result.diagnostics[0].message {
        InferenceError::TypeMismatch(TyKind::Pointer(_), TyKind::Int) => {}
        other => panic!("expected a pointer against Int, got {:?}", other),
    }
    let params = (0..tcx.len())
        .map(|i| tcx.ty_kind(i).clone())
        .find_map(|k| match k {
            TyKind::Function(params, _) => Some(params),
            _ => None,
        })
        .expect("main has a function type");
    assert_eq!(resolved(&tcx, &mut result, params[0]), TyKind::Int);
}

#[test]
fn a_call_with_too_many_arguments_is_a_mismatch_of_function_types() {
    // f(x) { return x; } main() { return f(1, 2); }
    let mut b = Builder::new();
    let x = b.var("x");
    let f = b.fun("f", &["x"], &[], vec![], x);
    let callee = b.var("f");
    let one = b.literal(1);
    let two = b.literal(2);
    let call = b.call(callee, vec![one, two]);
    let main = b.fun("main", &[], &[], vec![], call);
    let prog = b.prog(vec![f, main]);

    let mut tcx = TyCtxt::new();
    let result = infer(&mut tcx, &prog);

    assert_eq!(result.diagnostics.len(), 1);
    match &result.diagnostics[0].message {
        InferenceError::TypeMismatch(TyKind::Function(left, _), TyKind::Function(right, _)) => {
            assert_eq!(left.len(), 1);
            assert_eq!(right.len(), 2);
        }
        other => panic!("expected two function types, got {:?}", other),
    }
}

#[test]
fn fields_are_assigned_through_names_and_pointers() {
    // main(q) { var r; r = {a: 1}; r.a = input; (*q).a = r.a; return (*q).a; }
    let mut b = Builder::new();
    let one = b.literal(1);
    let name_a = b.name("a");
    let field_a = b.node(Field { name: name_a, value: Box::new(one) });
    let record = b.node(Exp::Record(vec![field_a]));
    let s1 = b.assign("r", record);
    let r = b.name("r");
    let a = b.name("a");
    let input = b.node(Exp::Input);
    let s2 = b.node(Stm::FieldAssign(r, a, input));
    let q = b.var("q");
    let a = b.name("a");
    let r = b.var("r");
    let ra = b.name("a");
    let read = b.node(Exp::Field(Box::new(r), ra));
    let s3 = b.node(Stm::DereferenceFieldAssign(q, a, read));
    let q = b.var("q");
    let q_id = q.id;
    let deref = b.node(Exp::Dereference(Box::new(q)));
    let a = b.name("a");
    let ret = b.node(Exp::Field(Box::new(deref), a));
    let ret_id = ret.id;
    let main = b.fun("main", &["q"], &["r"], vec![s1, s2, s3], ret);
    let prog = b.prog(vec![main]);

    let mut tcx = TyCtxt::new();
    let mut result = infer(&mut tcx, &prog);

    assert!(result.diagnostics.is_empty(), "{:?}", result.diagnostics);
    assert_eq!(type_of(&tcx, &mut result, ret_id), TyKind::Int);
    match type_of(&tcx, &mut result, q_id) {
        TyKind::Pointer(inner) => match resolved(&tcx, &mut result, inner) {
            TyKind::Record(fields) => {
                assert_eq!(fields.len(), 1);
                assert_eq!(fields[0].0, "a");
                assert_eq!(resolved(&tcx, &mut result, fields[0].1), TyKind::Int);
            }
            other => panic!("expected a record, got {:?}", other),
        },
        other => panic!("expected a pointer, got {:?}", other),
    }
}

#[test]
fn a_field_named_twice_in_one_record_is_reported_and_the_first_stands() {
    // main() { return {a: 1, a: null}; }
    let mut b = Builder::new();
    let one = b.literal(1);
    let name = b.name("a");
    let first = b.node(Field { name, value: Box::new(one) });
    let null = b.node(Exp::Null);
    let name = b.name("a");
    let second = b.node(Field { name, value: Box::new(null) });
    let second_span = Span::new(second.start, second.end);
    let record = b.node(Exp::Record(vec![first, second]));
    let record_id = record.id;
    let main = b.fun("main", &[], &[], vec![], record);
    let prog = b.prog(vec![main]);

    let mut tcx = TyCtxt::new();
    let mut result = infer(&mut tcx, &prog);

    assert_eq!(result.diagnostics.len(), 1);
    assert_eq!(result.diagnostics[0].span, second_span);
    assert!(matches!(
        &result.diagnostics[0].message,
        InferenceError::DuplicateDeclaration(name) if name == "a"
    ));
    match type_of(&tcx, &mut result, record_id) {
        TyKind::Record(fields) => {
            assert_eq!(fields.len(), 1);
            assert_eq!(resolved(&tcx, &mut result, fields[0].1), TyKind::Int);
        }
        other => panic!("expected a record, got {:?}", other),
    }
}

#[test]
fn every_expression_that_is_reached_gets_a_type() {
    // main() { return -(1 + input); }
    let mut b = Builder::new();
    let one = b.literal(1);
    let one_id = one.id;
    let input = b.node(Exp::Input);
    let input_id = input.id;
    let sum = b.node(Exp::Binary(Box::new(one), BinOp::Add, Box::new(input)));
    let sum_id = sum.id;
    let neg = b.node(Exp::Unary(UnOp::Negative, Box::new(sum)));
    let neg_id = neg.id;
    let main = b.fun("main", &[], &[], vec![], neg);
    let main_id = main.id;
    let prog = b.prog(vec![main]);

    let mut tcx = TyCtxt::new();
    let mut result = infer(&mut tcx, &prog);

    assert!(result.diagnostics.is_empty());
    assert!(result.first_problem().is_none());
    for id in [one_id, input_id, sum_id, neg_id] {
        assert_eq!(type_of(&tcx, &mut result, id), TyKind::Int);
    }
    assert_eq!(result.expr_to_ty.get(main_id), None);
}
