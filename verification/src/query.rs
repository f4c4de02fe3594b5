//! The compiled query model: relational atoms over variables and literals,
//! plus primitive filters.

use vstd::prelude::*;
use crate::value::{Symbol, Value};
use crate::primitive::Primitive;

verus! {

/// One argument of an atom: a variable or a literal value.
#[derive(Clone, Copy, PartialEq, Eq, Structural, Debug)]
pub enum AtomTerm {
    Var(Symbol),
    Value(Value),
}

/// A relational atom: `head(args...)`. The head names a function relation
/// whose rows have arity `args.len()`.
#[derive(Clone, Debug)]
pub struct Atom {
    pub head: Symbol,
    pub args: Vec<AtomTerm>,
}

/// A primitive filter or assignment. By convention the last argument is the
/// output; the earlier ones are inputs.
#[derive(Clone, Debug)]
pub struct PrimitiveAtom {
    pub head: Primitive,
    pub args: Vec<AtomTerm>,
}

/// A conjunctive query: relational atoms plus primitive filters.
#[derive(Clone, Debug)]
pub struct Query {
    pub atoms: Vec<Atom>,
    pub filters: Vec<PrimitiveAtom>,
}

/// The variables among a list of argument terms, in order, one entry per
/// occurrence.
pub open spec fn term_vars(args: Seq<AtomTerm>) -> Seq<Symbol>
    decreases args.len(),
{
    if args.len() == 0 {
        Seq::empty()
    } else {
        (match args[0] {
            AtomTerm::Var(v) => seq![v],
            AtomTerm::Value(_) => Seq::empty(),
        }) + term_vars(args.skip(1))
    }
}

/// The variables of a list of terms, as an executable vector.
fn collect_term_vars(args: &Vec<AtomTerm>) -> (r: Vec<Symbol>)
    ensures
        r@ == term_vars(args@),
{
    let mut r: Vec<Symbol> = Vec::new();
    let mut i: usize = 0;
    proof {
        assert(args@.skip(0) =~= args@);
        assert(r@ + term_vars(args@) =~= term_vars(args@));
    }
    while i < args.len()
        invariant
            i <= args.len(),
            term_vars(args@) == r@ + term_vars(args@.skip(i as int)),
        decreases args.len() - i,
    {
        proof {
            assert(args@.skip(i as int).skip(1) =~= args@.skip(i + 1));
            assert(args@.skip(i as int)[0] == args@[i as int]);
        }
        let ghost old_r = r@;
        match args[i] {
            AtomTerm::Var(v) => {
                r.push(v);
                proof {
                    assert(old_r + (seq![v] + term_vars(args@.skip(i + 1))) =~= r@ + term_vars(
                        args@.skip(i + 1),
                    ));
                }
            },
            AtomTerm::Value(_) => {
                proof {
                    assert(old_r + (Seq::<Symbol>::empty() + term_vars(args@.skip(i + 1))) =~= r@
                        + term_vars(args@.skip(i + 1)));
                }
            },
        }
        i = i + 1;
    }
    proof {
        assert(args@.skip(args@.len() as int) =~= Seq::<AtomTerm>::empty());
        assert(r@ + Seq::<Symbol>::empty() =~= r@);
    }
    r
}

impl Atom {
    /// Does the variable occur among this atom's arguments?
    pub open spec fn has_var(self, v: Symbol) -> bool {
        term_vars(self.args@).contains(v)
    }

    /// The variables of this atom, one entry per occurrence, in order.
    pub fn vars(&self) -> (r: Vec<Symbol>)
        ensures
            r@ == term_vars(self.args@),
    {
        collect_term_vars(&self.args)
    }
}

impl PrimitiveAtom {
    /// The variables of this filter (inputs and output alike), one entry per
    /// occurrence, in order.
    pub fn vars(&self) -> (r: Vec<Symbol>)
        ensures
            r@ == term_vars(self.args@),
    {
        collect_term_vars(&self.args)
    }
}

impl Query {
    /// Every filter has at least an output argument.
    pub open spec fn filters_wf(self) -> bool {
        forall|i: int| 0 <= i < self.filters@.len() ==> (#[trigger] self.filters@[i]).args@.len() >= 1
    }

    /// Does the variable occur in some atom of the query?
    pub open spec fn atoms_have_var(self, v: Symbol) -> bool {
        exists|i: int| 0 <= i < self.atoms@.len() && (#[trigger] self.atoms@[i]).has_var(v)
    }
}

} // verus!
