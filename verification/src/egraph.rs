//! The e-graph as this engine sees it: a collection of function relations,
//! each a set of canonicalized rows stamped with the timestamp at which they
//! were added.

use vstd::prelude::*;
use crate::value::{Symbol, Value};

verus! {

/// A half-open range `[lo, hi)` of timestamps.
#[derive(Clone, Copy, PartialEq, Eq, Structural, Debug)]
pub struct TsRange {
    pub lo: u32,
    pub hi: u32,
}

impl TsRange {
    pub open spec fn contains_ts(self, ts: u32) -> bool {
        self.lo <= ts < self.hi
    }

    pub open spec fn is_empty_spec(self) -> bool {
        self.lo >= self.hi
    }
}

/// One canonicalized row of a relation and the time it was added.
#[derive(Clone, Debug)]
pub struct Row {
    pub vals: Vec<Value>,
    pub timestamp: u32,
}

/// A function relation: rows of a fixed arity.
#[derive(Clone, Debug)]
pub struct Function {
    pub arity: usize,
    pub rows: Vec<Row>,
}

impl Function {
    pub open spec fn wf(self) -> bool {
        forall|i: int| 0 <= i < self.rows@.len() ==> (#[trigger] self.rows@[i]).vals@.len() == self.arity
    }

    /// Does some row of this relation fall in the timestamp range?
    pub open spec fn has_row_in(self, range: TsRange) -> bool {
        exists|i: int| 0 <= i < self.rows@.len() && range.contains_ts((#[trigger] self.rows@[i]).timestamp)
    }

    /// The number of rows whose timestamp lies in `[lo, hi)`.
    pub open spec fn count_in(rows: Seq<Row>, range: TsRange) -> int
        decreases rows.len(),
    {
        if rows.len() == 0 {
            0
        } else {
            (if range.contains_ts(rows[0].timestamp) { 1int } else { 0int })
                + Function::count_in(rows.skip(1), range)
        }
    }

    /// Size estimate for one timestamp range: how many rows fall in it.
    pub fn get_size(&self, range: TsRange) -> (r: usize)
        ensures
            r == Function::count_in(self.rows@, range),
    {
        let mut r: usize = 0;
        let mut i: usize = 0;
        proof {
            assert(self.rows@.skip(0) =~= self.rows@);
        }
        while i < self.rows.len()
            invariant
                i <= self.rows@.len(),
                r <= i,
                Function::count_in(self.rows@, range) == r + Function::count_in(
                    self.rows@.skip(i as int),
                    range,
                ),
            decreases self.rows@.len() - i,
        {
            proof {
                assert(self.rows@.skip(i as int).skip(1) =~= self.rows@.skip(i + 1));
            }
            let ts = self.rows[i].timestamp;
            if range.lo <= ts && ts < range.hi {
                r = r + 1;
            }
            i = i + 1;
        }
        proof {
            assert(self.rows@.skip(self.rows@.len() as int) =~= Seq::<Row>::empty());
        }
        r
    }
}

/// The e-graph: function relations keyed by symbol.
#[derive(Clone, Debug)]
pub struct EGraph {
    pub functions: Vec<(Symbol, Function)>,
}

/// The first position at which a relation named `sym` stands, if any.
pub open spec fn find_function(s: Seq<(Symbol, Function)>, sym: Symbol) -> Option<int>
    decreases s.len(),
{
    if s.len() == 0 {
        None
    } else if s[0].0 == sym {
        Some(0int)
    } else {
        match find_function(s.skip(1), sym) {
            Some(i) => Some(i + 1),
            None => None,
        }
    }
}

impl EGraph {
    pub open spec fn wf(self) -> bool {
        &&& forall|i: int|
            0 <= i < self.functions@.len() ==> (#[trigger] self.functions@[i]).1.wf()
        &&& forall|i: int, j: int|
            0 <= i < j < self.functions@.len() ==> self.functions@[i].0 != self.functions@[j].0
    }

    pub open spec fn has_function(self, sym: Symbol) -> bool {
        find_function(self.functions@, sym) is Some
    }

    /// The relation named `sym`; meaningful only when `has_function` holds.
    pub open spec fn function_spec(self, sym: Symbol) -> Function {
        self.functions@[find_function(self.functions@, sym)->Some_0].1
    }

    /// Does any relation of the e-graph hold a row with timestamp at or
    /// after `t`?
    pub open spec fn has_row_at_or_after(self, t: u32) -> bool {
        exists|i: int|
            0 <= i < self.functions@.len() && (#[trigger] self.functions@[i]).1.has_row_in(
                TsRange { lo: t, hi: u32::MAX },
            )
    }

    /// Look a relation up by its symbol.
    pub fn get_function(&self, sym: Symbol) -> (r: Option<&Function>)
        ensures
            match r {
                Some(f) => {
                    &&& self.has_function(sym)
                    &&& *f == self.function_spec(sym)
                },
                None => !self.has_function(sym),
            },
    {
        let mut i: usize = 0;
        while i < self.functions.len()
            invariant
                i <= self.functions@.len(),
                forall|j: int| 0 <= j < i ==> (#[trigger] self.functions@[j]).0 != sym,
            decreases self.functions@.len() - i,
        {
            if self.functions[i].0 == sym {
                proof {
                    lemma_find_function_prefix(self.functions@, sym, i as int);
                }
                return Some(&self.functions[i].1);
            }
            i = i + 1;
        }
        proof {
            lemma_find_function_prefix(self.functions@, sym, self.functions@.len() as int);
        }
        None
    }
}

/// A found relation lies in range and carries the symbol looked for.
pub proof fn lemma_find_function_bounds(s: Seq<(Symbol, Function)>, sym: Symbol)
    ensures
        find_function(s, sym) matches Some(k) ==> 0 <= k < s.len() && s[k].0 == sym,
    decreases s.len(),
{
    if s.len() > 0 && s[0].0 != sym {
        lemma_find_function_bounds(s.skip(1), sym);
    }
}

/// If no key before position `i` matches, the first match is at `i` when the
/// key stands there, and there is none when `i` is the end of the list.
proof fn lemma_find_function_prefix(s: Seq<(Symbol, Function)>, sym: Symbol, i: int)
    requires
        0 <= i <= s.len(),
        forall|j: int| 0 <= j < i ==> (#[trigger] s[j]).0 != sym,
    ensures
        i < s.len() && s[i].0 == sym ==> find_function(s, sym) == Some(i),
        i == s.len() ==> find_function(s, sym) is None,
    decreases i,
{
    if i > 0 {
        assert(s[0].0 != sym);
        assert(forall|j: int| 0 <= j < i - 1 ==> (#[trigger] s.skip(1)[j]).0 != sym);
        lemma_find_function_prefix(s.skip(1), sym, i - 1);
        if i < s.len() {
            assert(s.skip(1)[i - 1] == s[i]);
        }
    }
}

} // verus!
