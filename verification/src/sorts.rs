//! Value sorts as this engine models them: sorts are named by symbols, and a
//! sort contributes primitives to the type environment. Interning of names
//! and the container registries live outside this crate; here a sort carries
//! the symbol it was declared under.

use vstd::prelude::*;
use crate::value::{Symbol, Value};
use crate::primitive::{PrimOp, Primitive, payload};

verus! {

/// A literal of the surface language.
#[derive(Clone, Copy, PartialEq, Eq, Structural, Debug)]
pub enum Literal {
    Int(i64),
}

/// A surface expression, as far as sort declarations need it.
#[derive(Debug)]
pub enum Expr {
    Lit(Literal),
    Var(Symbol),
    Call(Symbol, Vec<Expr>),
}

#[derive(Clone, Copy, PartialEq, Eq, Structural, Debug)]
pub enum TypeError {
    UndefinedSort(Symbol),
}

/// The type environment: the declared sort names, the registered
/// primitives, and the name of the unit sort that comparison primitives
/// return.
#[derive(Clone, Debug)]
pub struct TypeInfo {
    pub sorts: Vec<Symbol>,
    pub prims: Vec<Primitive>,
    pub unit_name: Symbol,
}

impl TypeInfo {
    pub fn new(unit_name: Symbol) -> (r: TypeInfo)
        ensures
            r.sorts@ == Seq::<Symbol>::empty(),
            r.prims@ == Seq::<Primitive>::empty(),
            r.unit_name == unit_name,
    {
        TypeInfo { sorts: Vec::new(), prims: Vec::new(), unit_name }
    }

    pub open spec fn declares(self, s: Symbol) -> bool {
        self.sorts@.contains(s)
    }

    pub fn declare_sort(&mut self, s: Symbol)
        ensures
            final(self).sorts@ == old(self).sorts@.push(s),
            final(self).prims@ == old(self).prims@,
            final(self).unit_name == old(self).unit_name,
    {
        self.sorts.push(s);
    }

    pub fn has_sort(&self, s: Symbol) -> (r: bool)
        ensures
            r == self.declares(s),
    {
        let mut i: usize = 0;
        while i < self.sorts.len()
            invariant
                i <= self.sorts@.len(),
                forall|j: int| 0 <= j < i ==> self.sorts@[j] != s,
            decreases self.sorts@.len() - i,
        {
            if self.sorts[i] == s {
                return true;
            }
            i = i + 1;
        }
        false
    }

    pub fn add_primitive(&mut self, p: Primitive)
        ensures
            final(self).prims@ == old(self).prims@.push(p),
            final(self).sorts@ == old(self).sorts@,
            final(self).unit_name == old(self).unit_name,
    {
        self.prims.push(p);
    }
}

/// The primitives the integer sort provides, in registration order:
/// arithmetic and bitwise operations tagged with the integer sort's name,
/// then comparisons tagged with the unit sort's name, then min and max.
pub open spec fn i64_prims(int_name: Symbol, unit_name: Symbol) -> Seq<Primitive> {
    seq![
        Primitive { op: PrimOp::Add, out_tag: int_name },
        Primitive { op: PrimOp::Sub, out_tag: int_name },
        Primitive { op: PrimOp::Mul, out_tag: int_name },
        Primitive { op: PrimOp::Div, out_tag: int_name },
        Primitive { op: PrimOp::Rem, out_tag: int_name },
        Primitive { op: PrimOp::BitAnd, out_tag: int_name },
        Primitive { op: PrimOp::BitOr, out_tag: int_name },
        Primitive { op: PrimOp::BitXor, out_tag: int_name },
        Primitive { op: PrimOp::Shl, out_tag: int_name },
        Primitive { op: PrimOp::Shr, out_tag: int_name },
        Primitive { op: PrimOp::Not, out_tag: int_name },
        Primitive { op: PrimOp::Log2, out_tag: int_name },
        Primitive { op: PrimOp::Lt, out_tag: unit_name },
        Primitive { op: PrimOp::Gt, out_tag: unit_name },
        Primitive { op: PrimOp::Le, out_tag: unit_name },
        Primitive { op: PrimOp::Ge, out_tag: unit_name },
        Primitive { op: PrimOp::Min, out_tag: int_name },
        Primitive { op: PrimOp::Max, out_tag: int_name },
    ]
}

/// The sort of 64-bit signed integers, stored as a value's payload bits.
#[derive(Clone, Copy, PartialEq, Eq, Structural, Debug)]
pub struct I64Sort {
    pub name: Symbol,
}

impl I64Sort {
    pub fn new(name: Symbol) -> (r: Self)
        ensures
            r.name == name,
    {
        I64Sort { name }
    }

    pub fn name(&self) -> (r: Symbol)
        ensures
            r == self.name,
    {
        self.name
    }

    /// Register the integer primitives with the type environment, in order.
    pub fn register_primitives(&self, typeinfo: &mut TypeInfo)
        ensures
            final(typeinfo).prims@ == old(typeinfo).prims@ + i64_prims(
                self.name,
                old(typeinfo).unit_name,
            ),
            final(typeinfo).sorts@ == old(typeinfo).sorts@,
            final(typeinfo).unit_name == old(typeinfo).unit_name,
    {
        let int_name = self.name;
        let unit_name = typeinfo.unit_name;
        typeinfo.add_primitive(Primitive { op: PrimOp::Add, out_tag: int_name });
        typeinfo.add_primitive(Primitive { op: PrimOp::Sub, out_tag: int_name });
        typeinfo.add_primitive(Primitive { op: PrimOp::Mul, out_tag: int_name });
        typeinfo.add_primitive(Primitive { op: PrimOp::Div, out_tag: int_name });
        typeinfo.add_primitive(Primitive { op: PrimOp::Rem, out_tag: int_name });
        typeinfo.add_primitive(Primitive { op: PrimOp::BitAnd, out_tag: int_name });
        typeinfo.add_primitive(Primitive { op: PrimOp::BitOr, out_tag: int_name });
        typeinfo.add_primitive(Primitive { op: PrimOp::BitXor, out_tag: int_name });
        typeinfo.add_primitive(Primitive { op: PrimOp::Shl, out_tag: int_name });
        typeinfo.add_primitive(Primitive { op: PrimOp::Shr, out_tag: int_name });
        typeinfo.add_primitive(Primitive { op: PrimOp::Not, out_tag: int_name });
        typeinfo.add_primitive(Primitive { op: PrimOp::Log2, out_tag: int_name });
        typeinfo.add_primitive(Primitive { op: PrimOp::Lt, out_tag: unit_name });
        typeinfo.add_primitive(Primitive { op: PrimOp::Gt, out_tag: unit_name });
        typeinfo.add_primitive(Primitive { op: PrimOp::Le, out_tag: unit_name });
        typeinfo.add_primitive(Primitive { op: PrimOp::Ge, out_tag: unit_name });
        typeinfo.add_primitive(Primitive { op: PrimOp::Min, out_tag: int_name });
        typeinfo.add_primitive(Primitive { op: PrimOp::Max, out_tag: int_name });
        proof {
            assert(typeinfo.prims@ =~= old(typeinfo).prims@ + i64_prims(
                self.name,
                old(typeinfo).unit_name,
            ));
        }
    }

    /// An integer value of this sort, rendered as a literal expression.
    pub fn make_expr(&self, value: Value) -> (r: Expr)
        requires
            value.tag == self.name,
        ensures
            r == Expr::Lit(Literal::Int(payload(value))),
    {
        Expr::Lit(Literal::Int(#[verifier::truncate] (value.bits as i64)))
    }
}

/// A sort of function values: the input sorts and the output sort, each
/// referred to by name.
#[derive(Clone, Debug)]
pub struct FunctionSort {
    pub name: Symbol,
    pub inputs: Vec<Symbol>,
    pub output: Symbol,
}

/// The input sort names a function-sort declaration lists: the head of its
/// first argument, then each remaining variable.
pub open spec fn declared_inputs(first: Symbol, rest: Seq<Expr>) -> Seq<Symbol> {
    seq![first] + rest.map_values(|e: Expr| e->Var_0)
}

/// The first of the listed sort names that the environment does not
/// declare, if any.
pub open spec fn first_undeclared(ti: TypeInfo, syms: Seq<Symbol>) -> Option<Symbol>
    decreases syms.len(),
{
    if syms.len() == 0 {
        None
    } else if !ti.declares(syms[0]) {
        Some(syms[0])
    } else {
        first_undeclared(ti, syms.skip(1))
    }
}

impl FunctionSort {
    /// The names under which this presort's primitives are registered: one
    /// to build a function value, one to apply it.
    pub fn presort_names() -> (r: Vec<String>)
        ensures
            r@.len() == 2,
            r@[0]@ == "fn"@,
            r@[1]@ == "call"@,
    {
        let mut r: Vec<String> = Vec::new();
        r.push("fn".to_string());
        r.push("call".to_string());
        r
    }

    /// Make a function sort from a declaration of the shape
    /// `(<first> <rest-of-inputs...>) <output>`: every named sort must be
    /// declared, and the first sort left undeclared is the error.
    pub fn make_sort(typeinfo: &TypeInfo, name: Symbol, args: &Vec<Expr>) -> (r: Result<
        FunctionSort,
        TypeError,
    >)
        requires
            args@.len() == 2,
            args@[0] is Call,
            args@[1] is Var,
            forall|i: int| 0 <= i < args@[0]->Call_1@.len() ==> (#[trigger] args@[0]->Call_1@[i])
                is Var,
        ensures
            ({
                let output = args@[1]->Var_0;
                let ins = declared_inputs(args@[0]->Call_0, args@[0]->Call_1@);
                if !typeinfo.declares(output) {
                    r == Err::<FunctionSort, TypeError>(TypeError::UndefinedSort(output))
                } else {
                    match first_undeclared(*typeinfo, ins) {
                        Some(s) => r == Err::<FunctionSort, TypeError>(
                            TypeError::UndefinedSort(s),
                        ),
                        None => {
                            &&& r is Ok
                            &&& r->Ok_0.name == name
                            &&& r->Ok_0.inputs@ == ins
                            &&& r->Ok_0.output == output
                        },
                    }
                }
            }),
    {
        let output: Symbol = match &args[1] {
            Expr::Var(v) => *v,
            _ => vstd::pervasive::unreached(),
        };
        if !typeinfo.has_sort(output) {
            return Err(TypeError::UndefinedSort(output));
        }
        let (first, rest): (Symbol, &Vec<Expr>) = match &args[0] {
            Expr::Call(h, rs) => (*h, rs),
            _ => vstd::pervasive::unreached(),
        };
        let ghost ins = declared_inputs(args@[0]->Call_0, args@[0]->Call_1@);
        let mut inputs: Vec<Symbol> = Vec::new();
        if !typeinfo.has_sort(first) {
            proof {
                assert(ins[0] == first);
                assert(first_undeclared(*typeinfo, ins) == Some(first));
            }
            return Err(TypeError::UndefinedSort(first));
        }
        inputs.push(first);
        let mut i: usize = 0;
        proof {
            assert(ins.skip(1) =~= rest@.map_values(|e: Expr| e->Var_0));
        }
        while i < rest.len()
            invariant
                i <= rest@.len(),
                ins == declared_inputs(args@[0]->Call_0, args@[0]->Call_1@),
                args@.len() == 2,
                args@[1] is Var,
                typeinfo.declares(args@[1]->Var_0),
                rest@ == args@[0]->Call_1@,
                ins.len() == 1 + rest@.len(),
                typeinfo.declares(ins[0]),
                forall|j: int| 0 <= j < rest@.len() ==> (#[trigger] rest@[j]) is Var,
                forall|j: int| 1 <= j < 1 + i ==> typeinfo.declares(#[trigger] ins[j]),
                inputs@.len() == 1 + i,
                forall|j: int| 0 <= j < 1 + i ==> (#[trigger] inputs@[j]) == ins[j],
            decreases rest@.len() - i,
        {
            let s: Symbol = match &rest[i] {
                Expr::Var(v) => *v,
                _ => vstd::pervasive::unreached(),
            };
            proof {
                assert(ins[1 + i] == s);
            }
            if !typeinfo.has_sort(s) {
                proof {
                    lemma_first_undeclared_at(*typeinfo, ins, 1 + i);
                }
                return Err(TypeError::UndefinedSort(s));
            }
            inputs.push(s);
            i = i + 1;
        }
        proof {
            lemma_first_undeclared_none(*typeinfo, ins);
            assert(inputs@ =~= ins);
        }
        Ok(FunctionSort { name, inputs, output })
    }
}

/// If everything before position `i` is declared and `i` is not, `i` holds
/// the first undeclared name.
proof fn lemma_first_undeclared_at(ti: TypeInfo, syms: Seq<Symbol>, i: int)
    requires
        0 <= i < syms.len(),
        !ti.declares(syms[i]),
        forall|j: int| 0 <= j < i ==> ti.declares(#[trigger] syms[j]),
    ensures
        first_undeclared(ti, syms) == Some(syms[i]),
    decreases i,
{
    if i > 0 {
        assert(forall|j: int| 0 <= j < i - 1 ==> ti.declares(#[trigger] syms.skip(1)[j]));
        assert(syms.skip(1)[i - 1] == syms[i]);
        lemma_first_undeclared_at(ti, syms.skip(1), i - 1);
    }
}

/// If every listed name is declared, none is the first undeclared one.
proof fn lemma_first_undeclared_none(ti: TypeInfo, syms: Seq<Symbol>)
    requires
        forall|j: int| 0 <= j < syms.len() ==> ti.declares(#[trigger] syms[j]),
    ensures
        first_undeclared(ti, syms) is None,
    decreases syms.len(),
{
    if syms.len() > 0 {
        lemma_first_undeclared_none(ti, syms.skip(1));
    }
}

} // verus!
