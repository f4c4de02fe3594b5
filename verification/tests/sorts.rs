use gjoin::primitive::PrimOp;
use gjoin::sorts::{Expr, FunctionSort, I64Sort, Literal, TypeError, TypeInfo};
use gjoin::value::Value;

const UNIT: u64 = 0;
const INT: u64 = 100;
const STRING: u64 = 101;
const OUT: u64 = 102;
const FN_SORT: u64 = 103;

#[test]
fn i64_sort_keeps_its_name() {
    let s = I64Sort::new(INT);
    assert_eq!(s.name(), INT);
}

#[test]
fn i64_sort_registers_all_primitives() {
    let s = I64Sort::new(INT);
    let mut ti = TypeInfo::new(UNIT);
    s.register_primitives(&mut ti);
    assert_eq!(ti.prims.len(), 18);
    assert_eq!(ti.prims[0].op, PrimOp::Add);
    assert_eq!(ti.prims[0].out_tag, INT);
    let lt = ti.prims.iter().find(|p| p.op == PrimOp::Lt).unwrap();
    assert_eq!(lt.out_tag, UNIT);
    let max = ti.prims.iter().find(|p| p.op == PrimOp::Max).unwrap();
    assert_eq!(max.out_tag, INT);
}

#[test]
fn i64_sort_renders_literals() {
    let s = I64Sort::new(INT);
    let e = s.make_expr(Value { tag: INT, bits: (-7i64) as u64 });
    assert!(matches!(e, Expr::Lit(Literal::Int(-7))));
}

#[test]
fn presort_names_are_fn_and_call() {
    let names = FunctionSort::presort_names();
    assert_eq!(names, vec!["fn".to_string(), "call".to_string()]);
}

#[test]
fn make_sort_collects_inputs_and_output() {
    let mut ti = TypeInfo::new(UNIT);
    ti.declare_sort(INT);
    ti.declare_sort(STRING);
    ti.declare_sort(OUT);
    let args = vec![Expr::Call(INT, vec![Expr::Var(STRING)]), Expr::Var(OUT)];
    let fs = FunctionSort::make_sort(&ti, FN_SORT, &args).unwrap();
    assert_eq!(fs.name, FN_SORT);
    assert_eq!(fs.inputs, vec![INT, STRING]);
    assert_eq!(fs.output, OUT);
}

#[test]
fn make_sort_rejects_undeclared_output() {
    let mut ti = TypeInfo::new(UNIT);
    ti.declare_sort(INT);
    let args = vec![Expr::Call(INT, vec![]), Expr::Var(OUT)];
    let r = FunctionSort::make_sort(&ti, FN_SORT, &args);
    assert!(matches!(r, Err(TypeError::UndefinedSort(s)) if s == OUT));
}

#[test]
fn make_sort_rejects_first_undeclared_input() {
    let mut ti = TypeInfo::new(UNIT);
    ti.declare_sort(INT);
    ti.declare_sort(OUT);
    let args = vec![Expr::Call(INT, vec![Expr::Var(STRING), Expr::Var(77)]), Expr::Var(OUT)];
    let r = FunctionSort::make_sort(&ti, FN_SORT, &args);
    assert!(matches!(r, Err(TypeError::UndefinedSort(s)) if s == STRING));
}

#[test]
fn type_info_tracks_declared_sorts() {
    let mut ti = TypeInfo::new(UNIT);
    assert!(!ti.has_sort(INT));
    ti.declare_sort(INT);
    assert!(ti.has_sort(INT));
    assert!(!ti.has_sort(STRING));
}
