use gjoin::primitive::{PrimOp, Primitive};
use gjoin::value::Value;

const INT: u64 = 100;
const UNIT: u64 = 0;

fn v(n: i64) -> Value {
    Value { tag: INT, bits: n as u64 }
}

fn unit() -> Value {
    Value { tag: UNIT, bits: 0 }
}

fn int_prim(op: PrimOp) -> Primitive {
    Primitive { op, out_tag: INT }
}

fn cmp_prim(op: PrimOp) -> Primitive {
    Primitive { op, out_tag: UNIT }
}

#[test]
fn addition_and_wrapping() {
    assert_eq!(int_prim(PrimOp::Add).apply(&[v(2), v(3)]), Some(v(5)));
    assert_eq!(int_prim(PrimOp::Add).apply(&[v(i64::MAX), v(1)]), Some(v(i64::MIN)));
    assert_eq!(int_prim(PrimOp::Sub).apply(&[v(2), v(5)]), Some(v(-3)));
    assert_eq!(int_prim(PrimOp::Mul).apply(&[v(-4), v(6)]), Some(v(-24)));
}

#[test]
fn division_truncates_and_guards() {
    assert_eq!(int_prim(PrimOp::Div).apply(&[v(7), v(2)]), Some(v(3)));
    assert_eq!(int_prim(PrimOp::Div).apply(&[v(-7), v(2)]), Some(v(-3)));
    assert_eq!(int_prim(PrimOp::Div).apply(&[v(1), v(0)]), None);
    assert_eq!(int_prim(PrimOp::Div).apply(&[v(i64::MIN), v(-1)]), None);
    assert_eq!(int_prim(PrimOp::Rem).apply(&[v(-7), v(2)]), Some(v(-1)));
    assert_eq!(int_prim(PrimOp::Rem).apply(&[v(7), v(0)]), None);
}

#[test]
fn bitwise_operations() {
    assert_eq!(int_prim(PrimOp::BitAnd).apply(&[v(6), v(3)]), Some(v(2)));
    assert_eq!(int_prim(PrimOp::BitOr).apply(&[v(6), v(3)]), Some(v(7)));
    assert_eq!(int_prim(PrimOp::BitXor).apply(&[v(6), v(3)]), Some(v(5)));
    assert_eq!(int_prim(PrimOp::Not).apply(&[v(0)]), Some(v(-1)));
}

#[test]
fn shifts_reject_out_of_range_amounts() {
    assert_eq!(int_prim(PrimOp::Shl).apply(&[v(1), v(4)]), Some(v(16)));
    assert_eq!(int_prim(PrimOp::Shr).apply(&[v(-16), v(2)]), Some(v(-4)));
    assert_eq!(int_prim(PrimOp::Shl).apply(&[v(1), v(64)]), None);
    assert_eq!(int_prim(PrimOp::Shl).apply(&[v(1), v(-1)]), None);
    assert_eq!(int_prim(PrimOp::Shr).apply(&[v(1), v(64)]), None);
}

#[test]
fn base_two_logarithm() {
    assert_eq!(int_prim(PrimOp::Log2).apply(&[v(1)]), Some(v(0)));
    assert_eq!(int_prim(PrimOp::Log2).apply(&[v(8)]), Some(v(3)));
    assert_eq!(int_prim(PrimOp::Log2).apply(&[v(9)]), Some(v(3)));
    assert_eq!(int_prim(PrimOp::Log2).apply(&[v(i64::MAX)]), Some(v(62)));
    assert_eq!(int_prim(PrimOp::Log2).apply(&[v(0)]), None);
    assert_eq!(int_prim(PrimOp::Log2).apply(&[v(-5)]), None);
}

#[test]
fn comparisons_yield_unit_or_nothing() {
    assert_eq!(cmp_prim(PrimOp::Lt).apply(&[v(1), v(2)]), Some(unit()));
    assert_eq!(cmp_prim(PrimOp::Lt).apply(&[v(2), v(2)]), None);
    assert_eq!(cmp_prim(PrimOp::Gt).apply(&[v(3), v(2)]), Some(unit()));
    assert_eq!(cmp_prim(PrimOp::Le).apply(&[v(2), v(2)]), Some(unit()));
    assert_eq!(cmp_prim(PrimOp::Ge).apply(&[v(1), v(2)]), None);
}

#[test]
fn minimum_and_maximum() {
    assert_eq!(int_prim(PrimOp::Min).apply(&[v(3), v(-5)]), Some(v(-5)));
    assert_eq!(int_prim(PrimOp::Max).apply(&[v(3), v(-5)]), Some(v(3)));
}

#[test]
fn wrong_arity_yields_nothing() {
    assert_eq!(int_prim(PrimOp::Add).apply(&[v(1)]), None);
    assert_eq!(int_prim(PrimOp::Not).apply(&[v(1), v(2)]), None);
    assert_eq!(int_prim(PrimOp::Add).apply(&[]), None);
}

#[test]
fn results_carry_the_registered_output_tag() {
    let p = Primitive { op: PrimOp::Add, out_tag: 42 };
    assert_eq!(p.apply(&[v(1), v(1)]), Some(Value { tag: 42, bits: 2 }));
}
