//! Primitives: pure partial functions from values to an optional value,
//! used inside a query as filters or assignments.
//!
//! A primitive reads its arguments' payloads as signed 64-bit integers and
//! writes its result under a fixed output tag. Operations that the machine
//! cannot perform (division by zero, an out-of-range shift, the logarithm of
//! a non-positive number, overflowing division) yield no value, which prunes
//! the enumeration branch that asked for them.

use vstd::prelude::*;
use crate::value::{Symbol, Value};

verus! {

#[derive(Clone, Copy, PartialEq, Eq, Structural, Debug)]
pub enum PrimOp {
    Add,
    Sub,
    Mul,
    Div,
    Rem,
    BitAnd,
    BitOr,
    BitXor,
    Shl,
    Shr,
    Not,
    Log2,
    Lt,
    Gt,
    Le,
    Ge,
    Min,
    Max,
}

/// A primitive operation together with the sort tag its results carry.
/// Arithmetic primitives are registered with the integer sort's name as
/// `out_tag`; comparison primitives with the unit sort's name.
#[derive(Clone, Copy, PartialEq, Eq, Structural, Debug)]
pub struct Primitive {
    pub op: PrimOp,
    pub out_tag: Symbol,
}

/// The payload of a value, read as a signed 64-bit integer.
pub open spec fn payload(v: Value) -> i64 {
    v.bits as i64
}

/// Floor of the base-two logarithm of a positive number.
pub open spec fn ilog2_spec(n: int) -> int
    decreases n,
{
    if n < 2 {
        0
    } else {
        1 + ilog2_spec(n / 2)
    }
}

impl PrimOp {
    /// How many input arguments the operation takes.
    pub open spec fn arity(self) -> int {
        match self {
            PrimOp::Not => 1,
            PrimOp::Log2 => 1,
            _ => 2,
        }
    }
}

impl Primitive {
    pub open spec fn int_val(self, n: i64) -> Value {
        Value { tag: self.out_tag, bits: n as u64 }
    }

    pub open spec fn unit_val(self) -> Value {
        Value { tag: self.out_tag, bits: 0 }
    }

    pub open spec fn unit_if(self, b: bool) -> Option<Value> {
        if b {
            Some(self.unit_val())
        } else {
            None
        }
    }

    /// What `apply` returns: a function of the operation and the argument
    /// values alone.
    pub open spec fn apply_spec(self, values: Seq<Value>) -> Option<Value> {
        if values.len() != self.op.arity() {
            None
        } else {
            let a = payload(values[0]);
            match self.op {
                PrimOp::Not => Some(self.int_val(!a)),
                PrimOp::Log2 => if a <= 0 {
                    None
                } else {
                    Some(self.int_val(ilog2_spec(a as int) as i64))
                },
                _ => self.apply_binary_spec(a, payload(values[1])),
            }
        }
    }

    pub open spec fn apply_binary_spec(self, a: i64, b: i64) -> Option<Value> {
        match self.op {
            PrimOp::Add => Some(self.int_val(a.wrapping_add(b))),
            PrimOp::Sub => Some(self.int_val(a.wrapping_sub(b))),
            PrimOp::Mul => Some(self.int_val(a.wrapping_mul(b))),
            PrimOp::Div => match a.checked_div(b) {
                Some(q) => Some(self.int_val(q)),
                None => None,
            },
            PrimOp::Rem => match a.checked_rem(b) {
                Some(r) => Some(self.int_val(r)),
                None => None,
            },
            PrimOp::BitAnd => Some(self.int_val(a & b)),
            PrimOp::BitOr => Some(self.int_val(a | b)),
            PrimOp::BitXor => Some(self.int_val(a ^ b)),
            PrimOp::Shl => if 0 <= b && b < 64 {
                Some(self.int_val(a.wrapping_shl(b as u32)))
            } else {
                None
            },
            PrimOp::Shr => if 0 <= b && b < 64 {
                Some(self.int_val(a.wrapping_shr(b as u32)))
            } else {
                None
            },
            PrimOp::Lt => self.unit_if(a < b),
            PrimOp::Gt => self.unit_if(a > b),
            PrimOp::Le => self.unit_if(a <= b),
            PrimOp::Ge => self.unit_if(a >= b),
            PrimOp::Min => Some(self.int_val(if a < b { a } else { b })),
            PrimOp::Max => Some(self.int_val(if a > b { a } else { b })),
            _ => None,
        }
    }

    /// Evaluate the primitive on argument values. Pure: the result depends on
    /// `self` and `values` alone, as `apply_spec` states.
    pub fn apply(&self, values: &[Value]) -> (r: Option<Value>)
        ensures
            r == self.apply_spec(values@),
    {
        let arity: usize = match self.op {
            PrimOp::Not => 1,
            PrimOp::Log2 => 1,
            _ => 2,
        };
        if values.len() != arity {
            return None;
        }
        let a: i64 = #[verifier::truncate] (values[0].bits as i64);
        match self.op {
            PrimOp::Not => Some(self.make_int(!a)),
            PrimOp::Log2 => if a <= 0 {
                None
            } else {
                Some(self.make_int(ilog2_exec(a)))
            },
            _ => {
                let b: i64 = #[verifier::truncate] (values[1].bits as i64);
                self.apply_binary(a, b)
            },
        }
    }

    fn apply_binary(&self, a: i64, b: i64) -> (r: Option<Value>)
        requires
            self.op.arity() == 2,
        ensures
            r == self.apply_binary_spec(a, b),
    {
        match self.op {
            PrimOp::Add => Some(self.make_int(a.wrapping_add(b))),
            PrimOp::Sub => Some(self.make_int(a.wrapping_sub(b))),
            PrimOp::Mul => Some(self.make_int(a.wrapping_mul(b))),
            PrimOp::Div => match a.checked_div(b) {
                Some(q) => Some(self.make_int(q)),
                None => None,
            },
            PrimOp::Rem => match a.checked_rem(b) {
                Some(r) => Some(self.make_int(r)),
                None => None,
            },
            PrimOp::BitAnd => Some(self.make_int(a & b)),
            PrimOp::BitOr => Some(self.make_int(a | b)),
            PrimOp::BitXor => Some(self.make_int(a ^ b)),
            PrimOp::Shl => if 0 <= b && b < 64 {
                Some(self.make_int(a.wrapping_shl(b as u32)))
            } else {
                None
            },
            PrimOp::Shr => if 0 <= b && b < 64 {
                Some(self.make_int(a.wrapping_shr(b as u32)))
            } else {
                None
            },
            PrimOp::Lt => self.make_unit_if(a < b),
            PrimOp::Gt => self.make_unit_if(a > b),
            PrimOp::Le => self.make_unit_if(a <= b),
            PrimOp::Ge => self.make_unit_if(a >= b),
            PrimOp::Min => Some(self.make_int(if a < b { a } else { b })),
            PrimOp::Max => Some(self.make_int(if a > b { a } else { b })),
            PrimOp::Not => None,
            PrimOp::Log2 => None,
        }
    }

    fn make_int(&self, n: i64) -> (r: Value)
        ensures
            r == self.int_val(n),
    {
        Value { tag: self.out_tag, bits: #[verifier::truncate] (n as u64) }
    }

    fn make_unit_if(&self, b: bool) -> (r: Option<Value>)
        ensures
            r == self.unit_if(b),
    {
        if b {
            Some(Value { tag: self.out_tag, bits: 0 })
        } else {
            None
        }
    }
}

proof fn lemma_ilog2_nonneg(n: int)
    ensures
        ilog2_spec(n) >= 0,
    decreases n,
{
    if n >= 2 {
        lemma_ilog2_nonneg(n / 2);
    }
}

proof fn lemma_ilog2_le_self(n: int)
    requires
        n >= 0,
    ensures
        ilog2_spec(n) <= n,
    decreases n,
{
    if n >= 2 {
        lemma_ilog2_le_self(n / 2);
    }
}

/// Floor of the base-two logarithm of a positive integer.
fn ilog2_exec(a: i64) -> (r: i64)
    requires
        a > 0,
    ensures
        r == ilog2_spec(a as int),
{
    let mut v: u64 = a as u64;
    let mut r: u64 = 0;
    while v >= 2
        invariant
            1 <= v <= a,
            r + ilog2_spec(v as int) == ilog2_spec(a as int),
            r <= a,
        decreases v,
    {
        proof {
            lemma_ilog2_nonneg((v as int) / 2);
            lemma_ilog2_le_self(a as int);
        }
        v = v / 2;
        r = r + 1;
    }
    r as i64
}

} // verus!
