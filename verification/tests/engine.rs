use gjoin::egraph::{EGraph, Function, Row};
use gjoin::gj::CompileError;
use gjoin::primitive::{PrimOp, Primitive};
use gjoin::query::{Atom, AtomTerm, PrimitiveAtom, Query};
use gjoin::value::Value;

const INT: u64 = 100;
const UNIT: u64 = 0;
const R: u64 = 1;
const S: u64 = 2;
const X: u64 = 10;
const Y: u64 = 11;
const Z: u64 = 12;

fn v(n: i64) -> Value {
    Value { tag: INT, bits: n as u64 }
}

fn unit() -> Value {
    Value { tag: UNIT, bits: 0 }
}

fn row(vals: &[i64], ts: u32) -> Row {
    Row { vals: vals.iter().map(|&n| v(n)).collect(), timestamp: ts }
}

fn func(arity: usize, rows: Vec<Row>) -> Function {
    Function { arity, rows }
}

fn var(s: u64) -> AtomTerm {
    AtomTerm::Var(s)
}

fn lit(n: i64) -> AtomTerm {
    AtomTerm::Value(v(n))
}

fn atom(head: u64, args: Vec<AtomTerm>) -> Atom {
    Atom { head, args }
}

fn run(eg: &EGraph, q: Query, t: u32) -> Vec<Vec<Value>> {
    let cq = eg.compile_gj_query(q);
    eg.run_query(&cq, t).unwrap()
}

fn two_rel_egraph() -> EGraph {
    EGraph {
        functions: vec![
            (R, func(2, vec![row(&[1, 2], 0), row(&[2, 3], 0)])),
            (S, func(2, vec![row(&[2, 4], 0), row(&[3, 5], 0)])),
        ],
    }
}

#[test]
fn simple_equality_join() {
    let eg = two_rel_egraph();
    let q = Query {
        atoms: vec![atom(R, vec![var(X), var(Y)]), atom(S, vec![var(Y), var(Z)])],
        filters: vec![],
    };
    let out = run(&eg, q, 0);
    assert_eq!(out.len(), 2);
    assert!(out.contains(&vec![v(1), v(2), v(4)]));
    assert!(out.contains(&vec![v(2), v(3), v(5)]));
}

#[test]
fn self_equality_constraint() {
    let eg = EGraph {
        functions: vec![(R, func(2, vec![row(&[1, 1], 0), row(&[1, 2], 0), row(&[3, 3], 0)]))],
    };
    let q = Query { atoms: vec![atom(R, vec![var(X), var(X)])], filters: vec![] };
    let out = run(&eg, q, 0);
    assert_eq!(out.len(), 2);
    assert!(out.contains(&vec![v(1)]));
    assert!(out.contains(&vec![v(3)]));
}

#[test]
fn literal_constraint() {
    let eg = EGraph {
        functions: vec![(R, func(2, vec![row(&[1, 2], 0), row(&[1, 3], 0), row(&[2, 3], 0)]))],
    };
    let q = Query { atoms: vec![atom(R, vec![lit(1), var(Y)])], filters: vec![] };
    let out = run(&eg, q, 0);
    assert_eq!(out.len(), 2);
    assert!(out.contains(&vec![v(2)]));
    assert!(out.contains(&vec![v(3)]));
}

#[test]
fn primitive_assignment() {
    let eg = EGraph { functions: vec![(R, func(2, vec![row(&[1, 2], 0), row(&[10, 20], 0)]))] };
    let q = Query {
        atoms: vec![atom(R, vec![var(X), var(Y)])],
        filters: vec![PrimitiveAtom {
            head: Primitive { op: PrimOp::Add, out_tag: INT },
            args: vec![var(X), var(Y), var(Z)],
        }],
    };
    let out = run(&eg, q, 0);
    assert_eq!(out.len(), 2);
    assert!(out.contains(&vec![v(1), v(2), v(3)]));
    assert!(out.contains(&vec![v(10), v(20), v(30)]));
}

#[test]
fn primitive_check_filter() {
    let eg = EGraph {
        functions: vec![(R, func(2, vec![row(&[1, 2], 0), row(&[3, 3], 0), row(&[5, 4], 0)]))],
    };
    let q = Query {
        atoms: vec![atom(R, vec![var(X), var(Y)])],
        filters: vec![PrimitiveAtom {
            head: Primitive { op: PrimOp::Lt, out_tag: UNIT },
            args: vec![var(X), var(Y), AtomTerm::Value(unit())],
        }],
    };
    let out = run(&eg, q, 0);
    assert_eq!(out, vec![vec![v(1), v(2)]]);
}

#[test]
fn seminaive_emits_new_matches_once() {
    let eg = EGraph {
        functions: vec![
            (R, func(2, vec![row(&[1, 2], 0), row(&[2, 3], 5)])),
            (S, func(2, vec![row(&[2, 4], 0), row(&[3, 5], 5)])),
        ],
    };
    let q = Query {
        atoms: vec![atom(R, vec![var(X), var(Y)]), atom(S, vec![var(Y), var(Z)])],
        filters: vec![],
    };
    let out = run(&eg, q, 5);
    assert_eq!(out, vec![vec![v(2), v(3), v(5)]]);
}

#[test]
fn timestamp_at_infinity_emits_nothing() {
    let eg = two_rel_egraph();
    let q = Query {
        atoms: vec![atom(R, vec![var(X), var(Y)]), atom(S, vec![var(Y), var(Z)])],
        filters: vec![],
    };
    let out = run(&eg, q, u32::MAX);
    assert!(out.is_empty());
}

#[test]
fn no_rows_at_or_after_timestamp_emits_nothing() {
    let eg = two_rel_egraph();
    let q = Query {
        atoms: vec![atom(R, vec![var(X), var(Y)]), atom(S, vec![var(Y), var(Z)])],
        filters: vec![],
    };
    let out = run(&eg, q, 1);
    assert!(out.is_empty());
}

#[test]
fn empty_relation_short_circuits() {
    let eg = EGraph {
        functions: vec![
            (R, func(2, vec![row(&[1, 2], 0), row(&[2, 3], 0)])),
            (S, func(2, vec![])),
        ],
    };
    let q = Query {
        atoms: vec![atom(R, vec![var(X), var(Y)]), atom(S, vec![var(Y), var(Z)])],
        filters: vec![],
    };
    let out = run(&eg, q, 0);
    assert!(out.is_empty());
}

#[test]
fn unsatisfiable_literal_constraint_emits_nothing() {
    let eg = EGraph { functions: vec![(R, func(2, vec![row(&[1, 2], 0), row(&[2, 3], 0)]))] };
    let q = Query { atoms: vec![atom(R, vec![lit(7), var(Y)])], filters: vec![] };
    let out = run(&eg, q, 0);
    assert!(out.is_empty());
}

#[test]
fn atom_order_does_not_change_the_answer_set() {
    let eg = two_rel_egraph();
    let q1 = Query {
        atoms: vec![atom(R, vec![var(X), var(Y)]), atom(S, vec![var(Y), var(Z)])],
        filters: vec![],
    };
    let q2 = Query {
        atoms: vec![atom(S, vec![var(Y), var(Z)]), atom(R, vec![var(X), var(Y)])],
        filters: vec![],
    };
    let cq1 = eg.compile_gj_query(q1);
    let cq2 = eg.compile_gj_query(q2);
    let out1 = eg.run_query(&cq1, 0).unwrap();
    let out2 = eg.run_query(&cq2, 0).unwrap();
    let assigned = |cq: &gjoin::gj::CompiledQuery, out: Vec<Vec<Value>>| {
        let xi = cq.vars.get_index_of(X).unwrap();
        let yi = cq.vars.get_index_of(Y).unwrap();
        let zi = cq.vars.get_index_of(Z).unwrap();
        let mut rows: Vec<(Value, Value, Value)> =
            out.iter().map(|t| (t[xi], t[yi], t[zi])).collect();
        rows.sort_by_key(|r| (r.0.bits, r.1.bits, r.2.bits));
        rows
    };
    assert_eq!(assigned(&cq1, out1), assigned(&cq2, out2));
}

#[test]
fn primitive_only_query_computes_once() {
    let eg = EGraph { functions: vec![] };
    let q = Query {
        atoms: vec![],
        filters: vec![PrimitiveAtom {
            head: Primitive { op: PrimOp::Add, out_tag: INT },
            args: vec![lit(2), lit(3), var(Z)],
        }],
    };
    let out = run(&eg, q, 0);
    assert_eq!(out, vec![vec![v(5)]]);
}

#[test]
fn failing_primitive_prunes_the_branch() {
    let eg = EGraph { functions: vec![] };
    let q = Query {
        atoms: vec![],
        filters: vec![PrimitiveAtom {
            head: Primitive { op: PrimOp::Div, out_tag: INT },
            args: vec![lit(1), lit(0), var(Z)],
        }],
    };
    let out = run(&eg, q, 0);
    assert!(out.is_empty());
}

#[test]
fn cyclic_primitives_are_reported() {
    let eg = EGraph { functions: vec![] };
    let q = Query {
        atoms: vec![],
        filters: vec![PrimitiveAtom {
            head: Primitive { op: PrimOp::Add, out_tag: INT },
            args: vec![var(Z), var(Z), var(Z)],
        }],
    };
    let cq = eg.compile_gj_query(q);
    assert_eq!(eg.run_query(&cq, 0), Err(CompileError::CyclicPrimitives));
}

#[test]
fn chained_primitive_outputs_are_scheduled() {
    // y := x + x, then z := y * x, with x drawn from a relation.
    let eg = EGraph { functions: vec![(R, func(1, vec![row(&[3], 0)]))] };
    let q = Query {
        atoms: vec![atom(R, vec![var(X)])],
        filters: vec![
            PrimitiveAtom {
                head: Primitive { op: PrimOp::Mul, out_tag: INT },
                args: vec![var(Y), var(X), var(Z)],
            },
            PrimitiveAtom {
                head: Primitive { op: PrimOp::Add, out_tag: INT },
                args: vec![var(X), var(X), var(Y)],
            },
        ],
    };
    let out = run(&eg, q, 0);
    // layout order: x, y, z
    assert_eq!(out, vec![vec![v(3), v(6), v(18)]]);
}

#[test]
fn emitted_tuples_are_owned_copies() {
    let eg = two_rel_egraph();
    let q = Query {
        atoms: vec![atom(R, vec![var(X), var(Y)]), atom(S, vec![var(Y), var(Z)])],
        filters: vec![],
    };
    let cq = eg.compile_gj_query(q);
    let mut out1 = eg.run_query(&cq, 0).unwrap();
    out1[0][0] = v(999);
    let out2 = eg.run_query(&cq, 0).unwrap();
    assert_eq!(out2.len(), 2);
    assert!(out2.contains(&vec![v(1), v(2), v(4)]));
    assert!(out2.contains(&vec![v(2), v(3), v(5)]));
}

#[test]
fn tuple_layout_is_first_sight_order() {
    let eg = two_rel_egraph();
    let q = Query {
        atoms: vec![atom(S, vec![var(Y), var(Z)]), atom(R, vec![var(X), var(Y)])],
        filters: vec![],
    };
    let cq = eg.compile_gj_query(q);
    assert_eq!(cq.vars.get_index_of(Y), Some(0));
    assert_eq!(cq.vars.get_index_of(Z), Some(1));
    assert_eq!(cq.vars.get_index_of(X), Some(2));
    assert_eq!(cq.vars.len(), 3);
    assert_eq!(cq.vars.get_index_of(77), None);
}

#[test]
fn triangle_join() {
    // R(x,y), S(y,z), T(z,x) over a small triangle.
    const T: u64 = 3;
    let eg = EGraph {
        functions: vec![
            (R, func(2, vec![row(&[1, 2], 0), row(&[1, 3], 0)])),
            (S, func(2, vec![row(&[2, 3], 0), row(&[3, 1], 0)])),
            (T, func(2, vec![row(&[3, 1], 0), row(&[2, 2], 0)])),
        ],
    };
    let q = Query {
        atoms: vec![
            atom(R, vec![var(X), var(Y)]),
            atom(S, vec![var(Y), var(Z)]),
            atom(T, vec![var(Z), var(X)]),
        ],
        filters: vec![],
    };
    let out = run(&eg, q, 0);
    assert_eq!(out, vec![vec![v(1), v(2), v(3)]]);
}

#[test]
fn all_literal_atom_acts_as_existence_filter() {
    // S(1,2) holds, so the all-literal atom keeps the split alive and the
    // join over R is emitted; with S empty it suppresses everything.
    let eg = EGraph {
        functions: vec![
            (R, func(2, vec![row(&[1, 2], 0), row(&[2, 3], 0)])),
            (S, func(2, vec![row(&[1, 2], 0)])),
        ],
    };
    let q = Query {
        atoms: vec![atom(R, vec![var(X), var(Y)]), atom(S, vec![lit(1), lit(2)])],
        filters: vec![],
    };
    let out = run(&eg, q, 0);
    assert_eq!(out.len(), 2);
    assert!(out.contains(&vec![v(1), v(2)]));
    assert!(out.contains(&vec![v(2), v(3)]));

    let eg2 = EGraph {
        functions: vec![
            (R, func(2, vec![row(&[1, 2], 0), row(&[2, 3], 0)])),
            (S, func(2, vec![row(&[7, 7], 0)])),
        ],
    };
    let q2 = Query {
        atoms: vec![atom(R, vec![var(X), var(Y)]), atom(S, vec![lit(1), lit(2)])],
        filters: vec![],
    };
    let out2 = run(&eg2, q2, 0);
    assert!(out2.is_empty());
}
