//! The generic-join engine: query compilation, trie building, the
//! intersection executor, and the seminaive driver.

use vstd::prelude::*;
use crate::value::{Symbol, Value};
use crate::query::{Atom, AtomTerm, PrimitiveAtom, Query, term_vars};
use crate::primitive::Primitive;
use crate::egraph::{EGraph, TsRange};
use crate::trie::{Trie, TrieEdge, ROOT, EMPTY, keys_of, find_child, project, walk};

verus! {

/// Where one variable occurs.
#[derive(Clone, Debug)]
pub struct VarInfo {
    /// Indexes into the `atoms` field of the compiled query.
    pub occurences: Vec<usize>,
}

/// An insertion-ordered map from variables to their occurrence lists. The
/// position of a variable in the map is its slot in the output tuple.
#[derive(Clone, Debug)]
pub struct VarMap {
    pub entries: Vec<(Symbol, VarInfo)>,
}

/// The mathematical content of a `VarMap`: keys with their occurrence lists,
/// in insertion order.
pub open spec fn vm_view(s: Seq<(Symbol, VarInfo)>) -> Seq<(Symbol, Seq<usize>)> {
    s.map_values(|e: (Symbol, VarInfo)| (e.0, e.1.occurences@))
}

/// The position of a key, if present.
pub open spec fn find_key(s: Seq<(Symbol, Seq<usize>)>, v: Symbol) -> Option<int>
    decreases s.len(),
{
    if s.len() == 0 {
        None
    } else if s[0].0 == v {
        Some(0int)
    } else {
        match find_key(s.skip(1), v) {
            Some(i) => Some(i + 1),
            None => None,
        }
    }
}

/// Record one occurrence of `v`: extend its list, or append a fresh entry.
pub open spec fn upsert(s: Seq<(Symbol, Seq<usize>)>, v: Symbol, i: int) -> Seq<
    (Symbol, Seq<usize>),
> {
    match find_key(s, v) {
        None => s.push((v, seq![i as usize])),
        Some(k) => s.update(k, (v, s[k].1.push(i as usize))),
    }
}

/// Make sure `v` has an entry, with no occurrences if it is new.
pub open spec fn ensure_key_spec(s: Seq<(Symbol, Seq<usize>)>, v: Symbol) -> Seq<
    (Symbol, Seq<usize>),
> {
    match find_key(s, v) {
        None => s.push((v, Seq::empty())),
        Some(_) => s,
    }
}

/// Record an occurrence in atom `i` for each variable in `vs`, in order.
pub open spec fn add_occs(s: Seq<(Symbol, Seq<usize>)>, vs: Seq<Symbol>, i: int) -> Seq<
    (Symbol, Seq<usize>),
>
    decreases vs.len(),
{
    if vs.len() == 0 {
        s
    } else {
        add_occs(upsert(s, vs[0], i), vs.skip(1), i)
    }
}

/// Walk the atoms from index `i` on, recording every variable occurrence.
pub open spec fn add_atom_occs(s: Seq<(Symbol, Seq<usize>)>, atoms: Seq<Atom>, i: int) -> Seq<
    (Symbol, Seq<usize>),
>
    decreases atoms.len(),
{
    if atoms.len() == 0 {
        s
    } else {
        add_atom_occs(add_occs(s, term_vars(atoms[0].args@), i), atoms.skip(1), i + 1)
    }
}

/// Make sure every variable in `vs` has an entry.
pub open spec fn ensure_keys(s: Seq<(Symbol, Seq<usize>)>, vs: Seq<Symbol>) -> Seq<
    (Symbol, Seq<usize>),
>
    decreases vs.len(),
{
    if vs.len() == 0 {
        s
    } else {
        ensure_keys(ensure_key_spec(s, vs[0]), vs.skip(1))
    }
}

/// Make sure every variable of every filter has an entry.
pub open spec fn add_filter_vars(s: Seq<(Symbol, Seq<usize>)>, fs: Seq<PrimitiveAtom>) -> Seq<
    (Symbol, Seq<usize>),
>
    decreases fs.len(),
{
    if fs.len() == 0 {
        s
    } else {
        add_filter_vars(ensure_keys(s, term_vars(fs[0].args@)), fs.skip(1))
    }
}

/// The tuple layout of a query: each atom variable on first sight with its
/// occurrences, then each filter-only variable with none.
pub open spec fn compiled_vars_spec(q: Query) -> Seq<(Symbol, Seq<usize>)> {
    add_filter_vars(add_atom_occs(Seq::empty(), q.atoms@, 0), q.filters@)
}

impl VarMap {
    pub fn new() -> (r: VarMap)
        ensures
            vm_view(r.entries@) == Seq::<(Symbol, Seq<usize>)>::empty(),
            r.entries@.len() == 0,
    {
        let r = VarMap { entries: Vec::new() };
        proof {
            assert(vm_view(r.entries@) =~= Seq::<(Symbol, Seq<usize>)>::empty());
        }
        r
    }

    pub fn len(&self) -> (r: usize)
        ensures
            r == self.entries@.len(),
    {
        self.entries.len()
    }

    /// The tuple slot of variable `v`, if it is in the map.
    pub fn get_index_of(&self, v: Symbol) -> (r: Option<usize>)
        ensures
            match find_key(vm_view(self.entries@), v) {
                Some(k) => r == Some(k as usize) && 0 <= k < self.entries@.len(),
                None => r is None,
            },
    {
        let ghost view = vm_view(self.entries@);
        proof {
            lemma_find_key_bounds(view, v);
        }
        let mut i: usize = 0;
        while i < self.entries.len()
            invariant
                i <= self.entries@.len(),
                view == vm_view(self.entries@),
                forall|j: int| 0 <= j < i ==> (#[trigger] view[j]).0 != v,
            decreases self.entries@.len() - i,
        {
            if self.entries[i].0 == v {
                proof {
                    lemma_find_key_prefix(view, v, i as int);
                }
                return Some(i);
            }
            i = i + 1;
        }
        proof {
            lemma_find_key_prefix(view, v, view.len() as int);
        }
        None
    }

    /// Record that `v` occurs in atom `atom_i`.
    pub fn push_occurrence(&mut self, v: Symbol, atom_i: usize)
        ensures
            vm_view(final(self).entries@) == upsert(vm_view(old(self).entries@), v, atom_i as int),
    {
        let ghost view0 = vm_view(self.entries@);
        match self.get_index_of(v) {
            Some(k) => {
                proof {
                    lemma_find_key_bounds(view0, v);
                }
                let (sym, mut info) = self.entries.remove(k);
                info.occurences.push(atom_i);
                self.entries.insert(k, (sym, info));
                proof {
                    assert(self.entries@ =~= old(self).entries@.update(k as int, (sym, info)));
                    assert(vm_view(self.entries@) =~~= upsert(view0, v, atom_i as int));
                }
            },
            None => {
                self.entries.push((v, VarInfo { occurences: vec![atom_i] }));
                proof {
                    assert(vm_view(self.entries@) =~~= upsert(view0, v, atom_i as int));
                }
            },
        }
    }

    /// Make sure `v` has an entry, with no occurrences if it is new.
    pub fn ensure_key(&mut self, v: Symbol)
        ensures
            vm_view(final(self).entries@) == ensure_key_spec(vm_view(old(self).entries@), v),
    {
        let ghost view0 = vm_view(self.entries@);
        match self.get_index_of(v) {
            Some(_) => {},
            None => {
                self.entries.push((v, VarInfo { occurences: Vec::new() }));
                proof {
                    assert(vm_view(self.entries@) =~~= ensure_key_spec(view0, v));
                }
            },
        }
    }
}

/// A found key lies in range and carries the key looked for.
proof fn lemma_find_key_bounds(s: Seq<(Symbol, Seq<usize>)>, v: Symbol)
    ensures
        find_key(s, v) matches Some(k) ==> 0 <= k < s.len() && s[k].0 == v,
    decreases s.len(),
{
    if s.len() > 0 && s[0].0 != v {
        lemma_find_key_bounds(s.skip(1), v);
    }
}

/// If no key before position `i` matches, the first match is at `i` when the
/// key stands there, and there is none when `i` is the end of the list.
proof fn lemma_find_key_prefix(s: Seq<(Symbol, Seq<usize>)>, v: Symbol, i: int)
    requires
        0 <= i <= s.len(),
        forall|j: int| 0 <= j < i ==> (#[trigger] s[j]).0 != v,
    ensures
        i < s.len() && s[i].0 == v ==> find_key(s, v) == Some(i),
        i == s.len() ==> find_key(s, v) is None,
    decreases i,
{
    if i > 0 {
        assert(s[0].0 != v);
        assert(forall|j: int| 0 <= j < i - 1 ==> (#[trigger] s.skip(1)[j]).0 != v);
        lemma_find_key_prefix(s.skip(1), v, i - 1);
        if i < s.len() {
            assert(s.skip(1)[i - 1] == s[i]);
        }
    }
}


/// Every occurrence index in the map is below `b`.
pub open spec fn occ_bounded(s: Seq<(Symbol, Seq<usize>)>, b: int) -> bool {
    forall|a: int, t: int|
        0 <= a < s.len() && 0 <= t < (#[trigger] s[a]).1.len() ==> #[trigger] s[a].1[t] < b
}

/// Every entry of the map has at least one occurrence.
pub open spec fn occs_nonempty(s: Seq<(Symbol, Seq<usize>)>) -> bool {
    forall|a: int| 0 <= a < s.len() ==> (#[trigger] s[a]).1.len() >= 1
}

/// Recording an occurrence below the bound keeps the map bounded and its
/// entries non-empty.
proof fn lemma_upsert_preserves(s: Seq<(Symbol, Seq<usize>)>, v: Symbol, i: int, b: int)
    requires
        occ_bounded(s, b),
        occs_nonempty(s),
        0 <= i < b,
    ensures
        occ_bounded(upsert(s, v, i), b),
        occs_nonempty(upsert(s, v, i)),
{
    lemma_find_key_bounds(s, v);
}

/// Walk the atoms, recording each variable occurrence; the first-sight order
/// of the variables is the map order.
fn build_atom_occs(atoms: &Vec<Atom>) -> (r: VarMap)
    ensures
        vm_view(r.entries@) == add_atom_occs(Seq::<(Symbol, Seq<usize>)>::empty(), atoms@, 0),
        occ_bounded(vm_view(r.entries@), atoms@.len() as int),
        occs_nonempty(vm_view(r.entries@)),
{
    let mut vars = VarMap::new();
    let ghost empty_view = Seq::<(Symbol, Seq<usize>)>::empty();
    let mut i: usize = 0;
    proof {
        assert(atoms@.skip(0) =~= atoms@);
    }
    while i < atoms.len()
        invariant
            i <= atoms@.len(),
            add_atom_occs(vm_view(vars.entries@), atoms@.skip(i as int), i as int)
                == add_atom_occs(empty_view, atoms@, 0),
            occ_bounded(vm_view(vars.entries@), i as int),
            occs_nonempty(vm_view(vars.entries@)),
        decreases atoms@.len() - i,
    {
        proof {
            assert(atoms@.skip(i as int).skip(1) =~= atoms@.skip(i + 1));
            assert(atoms@.skip(i as int)[0] == atoms@[i as int]);
        }
        let vs = atoms[i].vars();
        let ghost start_view = vm_view(vars.entries@);
        let mut j: usize = 0;
        proof {
            assert(vs@.skip(0) =~= vs@);
        }
        while j < vs.len()
            invariant
                j <= vs@.len(),
                i < atoms@.len(),
                add_occs(vm_view(vars.entries@), vs@.skip(j as int), i as int) == add_occs(
                    start_view,
                    vs@,
                    i as int,
                ),
                occ_bounded(vm_view(vars.entries@), i + 1),
                occs_nonempty(vm_view(vars.entries@)),
            decreases vs@.len() - j,
        {
            proof {
                assert(vs@.skip(j as int).skip(1) =~= vs@.skip(j + 1));
                assert(vs@.skip(j as int)[0] == vs@[j as int]);
                lemma_upsert_preserves(vm_view(vars.entries@), vs@[j as int], i as int, i + 1);
            }
            vars.push_occurrence(vs[j], i);
            j = j + 1;
        }
        proof {
            assert(vs@.skip(vs@.len() as int) =~= Seq::<Symbol>::empty());
        }
        i = i + 1;
    }
    proof {
        assert(atoms@.skip(atoms@.len() as int) =~= Seq::<Atom>::empty());
    }
    vars
}

/// A compiled query: the query itself and its tuple layout. The order of
/// `vars` is the tuple layout order, not the elimination order.
#[derive(Clone, Debug)]
pub struct CompiledQuery {
    pub query: Query,
    pub vars: VarMap,
}

impl EGraph {
    /// Fix the tuple layout of a query: walk the atoms in order, giving each
    /// variable a slot on first sight and recording its occurrences; then
    /// give every filter-only variable a slot with no occurrences.
    pub fn compile_gj_query(&self, query: Query) -> (cq: CompiledQuery)
        ensures
            cq.query == query,
            vm_view(cq.vars.entries@) == compiled_vars_spec(query),
    {
        let mut vars = build_atom_occs(&query.atoms);
        let ghost after_atoms = vm_view(vars.entries@);
        let mut f: usize = 0;
        proof {
            assert(query.filters@.skip(0) =~= query.filters@);
        }
        while f < query.filters.len()
            invariant
                f <= query.filters@.len(),
                add_filter_vars(vm_view(vars.entries@), query.filters@.skip(f as int))
                    == add_filter_vars(after_atoms, query.filters@),
            decreases query.filters@.len() - f,
        {
            proof {
                assert(query.filters@.skip(f as int).skip(1) =~= query.filters@.skip(f + 1));
                assert(query.filters@.skip(f as int)[0] == query.filters@[f as int]);
            }
            let vs = query.filters[f].vars();
            let ghost start_view = vm_view(vars.entries@);
            let mut j: usize = 0;
            proof {
                assert(vs@.skip(0) =~= vs@);
            }
            while j < vs.len()
                invariant
                    j <= vs@.len(),
                    ensure_keys(vm_view(vars.entries@), vs@.skip(j as int)) == ensure_keys(
                        start_view,
                        vs@,
                    ),
                decreases vs@.len() - j,
            {
                proof {
                    assert(vs@.skip(j as int).skip(1) =~= vs@.skip(j + 1));
                    assert(vs@.skip(j as int)[0] == vs@[j as int]);
                }
                vars.ensure_key(vs[j]);
                j = j + 1;
            }
            proof {
                assert(vs@.skip(vs@.len() as int) =~= Seq::<Symbol>::empty());
            }
            f = f + 1;
        }
        proof {
            assert(query.filters@.skip(query.filters@.len() as int) =~= Seq::<
                PrimitiveAtom,
            >::empty());
        }
        CompiledQuery { query, vars }
    }
}

/// The executor's instruction set.
#[derive(Clone, Debug)]
pub enum Instr {
    /// Bind `tuple[idx]` to each key in the intersection of the listed
    /// atoms' current trie levels, descending into all of them.
    Intersect { idx: usize, trie_indices: Vec<usize> },
    /// Evaluate a primitive; check or assign its output.
    Call { prim: Primitive, args: Vec<AtomTerm>, check: bool },
}

/// The mathematical content of an instruction.
#[verifier::ext_equal]
pub enum InstrView {
    Intersect { idx: int, trie_indices: Seq<usize> },
    Call { prim: Primitive, args: Seq<AtomTerm>, check: bool },
}

pub open spec fn instr_view(i: Instr) -> InstrView {
    match i {
        Instr::Intersect { idx, trie_indices } => InstrView::Intersect {
            idx: idx as int,
            trie_indices: trie_indices@,
        },
        Instr::Call { prim, args, check } => InstrView::Call { prim, args: args@, check },
    }
}

pub open spec fn prog_view(p: Seq<Instr>) -> Seq<InstrView> {
    p.map_values(|i: Instr| instr_view(i))
}

/// Compilation fails only on a cyclic primitive dependency.
#[derive(Clone, Copy, PartialEq, Eq, Structural, Debug)]
pub enum CompileError {
    CyclicPrimitives,
}

/// One variable of the elimination-order map: its occurrences and the size
/// of the smallest relation it occurs in.
struct Var2 {
    sym: Symbol,
    occurences: Vec<usize>,
    size_guess: usize,
}

spec fn var2_view(x: Var2) -> (Symbol, Seq<usize>, usize) {
    (x.sym, x.occurences@, x.size_guess)
}

spec fn items_view(s: Seq<Var2>) -> Seq<(Symbol, Seq<usize>, usize)> {
    s.map_values(|x: Var2| var2_view(x))
}

/// Does `a` come no later than `b` in the elimination order? More
/// occurrences first; ties broken by smaller size guess; further ties keep
/// insertion order.
pub open spec fn order_le(a: (Symbol, Seq<usize>, usize), b: (Symbol, Seq<usize>, usize)) -> bool {
    a.1.len() > b.1.len() || (a.1.len() == b.1.len() && a.2 <= b.2)
}

/// Insert `x` behind every element that orders no later than it (a stable
/// insertion).
pub open spec fn insert_sorted(
    s: Seq<(Symbol, Seq<usize>, usize)>,
    x: (Symbol, Seq<usize>, usize),
) -> Seq<(Symbol, Seq<usize>, usize)>
    decreases s.len(),
{
    if s.len() == 0 {
        seq![x]
    } else if order_le(s[0], x) {
        seq![s[0]] + insert_sorted(s.skip(1), x)
    } else {
        seq![x] + s
    }
}

/// Stable insertion sort by the elimination-order heuristic.
pub open spec fn sort_items_spec(s: Seq<(Symbol, Seq<usize>, usize)>) -> Seq<
    (Symbol, Seq<usize>, usize),
>
    decreases s.len(),
{
    if s.len() == 0 {
        Seq::empty()
    } else {
        insert_sorted(sort_items_spec(s.drop_last()), s.last())
    }
}

/// The smallest size estimate among the relations listed in `occ`.
pub open spec fn min_size(occ: Seq<usize>, sizes: Seq<usize>) -> usize
    decreases occ.len(),
{
    if occ.len() == 0 {
        usize::MAX
    } else {
        let s0 = if occ[0] < sizes.len() {
            sizes[occ[0] as int]
        } else {
            usize::MAX
        };
        let rest = min_size(occ.skip(1), sizes);
        if s0 <= rest {
            s0
        } else {
            rest
        }
    }
}

/// The per-atom relation sizes for one set of timestamp ranges.
pub open spec fn sizes_spec(eg: EGraph, atoms: Seq<Atom>, ranges: Seq<TsRange>) -> Seq<usize> {
    Seq::new(atoms.len(), |i: int| crate::egraph::Function::count_in(eg.function_spec(atoms[i].head).rows@, ranges[i]) as usize)
}

/// The elimination-order map before sorting: each atom variable with its
/// occurrences and size guess.
pub open spec fn phase_b_items(atoms: Seq<Atom>, sizes: Seq<usize>) -> Seq<
    (Symbol, Seq<usize>, usize),
> {
    add_atom_occs(Seq::empty(), atoms, 0).map_values(
        |e: (Symbol, Seq<usize>)| (e.0, e.1, min_size(e.1, sizes)),
    )
}

/// Are all of a filter's input arguments literals or bound variables?
pub open spec fn pickable(f: PrimitiveAtom, m: Seq<(Symbol, Seq<usize>)>) -> bool {
    forall|j: int|
        0 <= j < f.args@.len() - 1 ==> match #[trigger] f.args@[j] {
            AtomTerm::Var(v) => find_key(m, v) is Some,
            AtomTerm::Value(_) => true,
        }
}

/// The first unscheduled filter whose inputs are all available, looking from
/// position `i` on.
pub open spec fn pick_from(
    fs: Seq<PrimitiveAtom>,
    done: Seq<bool>,
    m: Seq<(Symbol, Seq<usize>)>,
    i: int,
) -> Option<int>
    decreases fs.len() - i,
{
    if i < 0 || i >= fs.len() {
        None
    } else if !done[i] && pickable(fs[i], m) {
        Some(i)
    } else {
        pick_from(fs, done, m, i + 1)
    }
}

pub open spec fn no_undone(done: Seq<bool>) -> bool {
    forall|j: int| 0 <= j < done.len() ==> done[j]
}

pub open spec fn count_false(done: Seq<bool>) -> int
    decreases done.len(),
{
    if done.len() == 0 {
        0
    } else {
        (if done[0] {
            0int
        } else {
            1int
        }) + count_false(done.skip(1))
    }
}

/// Scheduling one filter: the emitted instruction and the map afterwards. A
/// fresh output variable is added to the map and assigned (`check` false); a
/// bound or literal output is checked.
pub open spec fn call_step(f: PrimitiveAtom, m: Seq<(Symbol, Seq<usize>)>) -> (
    InstrView,
    Seq<(Symbol, Seq<usize>)>,
) {
    match f.args@.last() {
        AtomTerm::Value(_) => (
            InstrView::Call { prim: f.head, args: f.args@, check: true },
            m,
        ),
        AtomTerm::Var(v) => if find_key(m, v) is Some {
            (InstrView::Call { prim: f.head, args: f.args@, check: true }, m)
        } else {
            (
                InstrView::Call { prim: f.head, args: f.args@, check: false },
                ensure_key_spec(m, v),
            )
        },
    }
}

/// Greedy filter scheduling: repeatedly emit the first filter whose inputs
/// are available. `None` means the remaining filters form a cycle.
pub open spec fn sched(
    fs: Seq<PrimitiveAtom>,
    done: Seq<bool>,
    m: Seq<(Symbol, Seq<usize>)>,
    fuel: nat,
) -> Option<(Seq<InstrView>, Seq<(Symbol, Seq<usize>)>)>
    decreases fuel,
{
    if no_undone(done) {
        Some((Seq::empty(), m))
    } else if fuel == 0 {
        None
    } else {
        match pick_from(fs, done, m, 0) {
            None => None,
            Some(i) => {
                let (instr, m2) = call_step(fs[i], m);
                match sched(fs, done.update(i, true), m2, (fuel - 1) as nat) {
                    None => None,
                    Some((rest, mf)) => Some((seq![instr] + rest, mf)),
                }
            },
        }
    }
}

/// What `compile_program` produces for a query under given relation sizes:
/// the instruction sequence, the elimination order, and the final variable
/// map, or `None` on a primitive cycle.
pub open spec fn program_spec(q: Query, sizes: Seq<usize>) -> Option<
    (Seq<InstrView>, Seq<Symbol>),
> {
    let m0 = add_atom_occs(Seq::empty(), q.atoms@, 0);
    let sorted = sort_items_spec(phase_b_items(q.atoms@, sizes));
    let layout = compiled_vars_spec(q);
    let intersects = Seq::new(
        sorted.len(),
        |j: int|
            InstrView::Intersect {
                idx: find_key(layout, sorted[j].0)->Some_0,
                trie_indices: sorted[j].1,
            },
    );
    match sched(q.filters@, Seq::new(q.filters@.len(), |j: int| false), m0, q.filters@.len() as nat) {
        None => None,
        Some((calls, mf)) => Some(
            (
                intersects + calls,
                sorted.map_values(|x: (Symbol, Seq<usize>, usize)| x.0) + mf.skip(
                    m0.len() as int,
                ).map_values(|e: (Symbol, Seq<usize>)| e.0),
            ),
        ),
    }
}

/// Appending an entry leaves earlier lookups alone and makes its key found.
proof fn lemma_find_key_push(s: Seq<(Symbol, Seq<usize>)>, e: (Symbol, Seq<usize>), v: Symbol)
    ensures
        find_key(s.push(e), v) == if find_key(s, v) is Some {
            find_key(s, v)
        } else if e.0 == v {
            Some(s.len() as int)
        } else {
            None
        },
    decreases s.len(),
{
    if s.len() == 0 {
        assert(s.push(e)[0] == e);
        assert(s.push(e).skip(1) =~= Seq::<(Symbol, Seq<usize>)>::empty());
        assert(find_key(s, v) is None);
        if e.0 == v {
            assert(find_key(s.push(e), v) == Some(0int));
        } else {
            assert(find_key(Seq::<(Symbol, Seq<usize>)>::empty(), v) is None);
            assert(find_key(s.push(e), v) is None);
        }
    } else {
        assert(s.push(e)[0] == s[0]);
        assert(s.push(e).skip(1) =~= s.skip(1).push(e));
        lemma_find_key_push(s.skip(1), e, v);
        if s[0].0 == v {
            assert(find_key(s.push(e), v) == Some(0int));
            assert(find_key(s, v) == Some(0int));
        } else {
            assert(find_key(s.push(e), v) == match find_key(s.skip(1).push(e), v) {
                Some(i) => Some(i + 1),
                None => None::<int>,
            });
            assert(find_key(s, v) == match find_key(s.skip(1), v) {
                Some(i) => Some(i + 1),
                None => None::<int>,
            });
        }
    }
}

/// After making sure `v` has an entry, a key is present exactly when it was
/// present before or is `v` itself.
proof fn lemma_ensure_contains(s: Seq<(Symbol, Seq<usize>)>, v: Symbol, w: Symbol)
    ensures
        find_key(ensure_key_spec(s, v), w) is Some <==> (find_key(s, w) is Some || w == v),
{
    lemma_find_key_bounds(s, v);
    match find_key(s, v) {
        None => {
            lemma_find_key_push(s, (v, Seq::empty()), w);
            lemma_find_key_bounds(s, w);
        },
        Some(_) => {},
    }
}

/// Making sure several variables have entries loses no key.
proof fn lemma_ensure_keys_mono(s: Seq<(Symbol, Seq<usize>)>, vs: Seq<Symbol>, w: Symbol)
    requires
        find_key(s, w) is Some,
    ensures
        find_key(ensure_keys(s, vs), w) is Some,
    decreases vs.len(),
{
    if vs.len() > 0 {
        lemma_ensure_contains(s, vs[0], w);
        lemma_ensure_keys_mono(ensure_key_spec(s, vs[0]), vs.skip(1), w);
    }
}

/// Adding the filters' variables loses no key.
proof fn lemma_add_filter_vars_mono(
    s: Seq<(Symbol, Seq<usize>)>,
    fs: Seq<PrimitiveAtom>,
    w: Symbol,
)
    requires
        find_key(s, w) is Some,
    ensures
        find_key(add_filter_vars(s, fs), w) is Some,
    decreases fs.len(),
{
    if fs.len() > 0 {
        lemma_ensure_keys_mono(s, term_vars(fs[0].args@), w);
        lemma_add_filter_vars_mono(ensure_keys(s, term_vars(fs[0].args@)), fs.skip(1), w);
    }
}

/// A key standing at some position is found.
proof fn lemma_key_present(s: Seq<(Symbol, Seq<usize>)>, k: int)
    requires
        0 <= k < s.len(),
    ensures
        find_key(s, s[k].0) is Some,
    decreases k,
{
    if s[0].0 != s[k].0 {
        assert(s.skip(1)[k - 1] == s[k]);
        lemma_key_present(s.skip(1), k - 1);
    }
}

/// A stable insertion adds the new element and keeps the old ones.
proof fn lemma_insert_sorted_membership(
    s: Seq<(Symbol, Seq<usize>, usize)>,
    x: (Symbol, Seq<usize>, usize),
    y: (Symbol, Seq<usize>, usize),
)
    requires
        insert_sorted(s, x).contains(y),
    ensures
        s.contains(y) || y == x,
    decreases s.len(),
{
    if s.len() > 0 && order_le(s[0], x) {
        let t = insert_sorted(s, x);
        let j = choose|j: int| 0 <= j < t.len() && t[j] == y;
        if j == 0 {
            assert(s[0] == y);
        } else {
            assert(insert_sorted(s.skip(1), x)[j - 1] == y);
            lemma_insert_sorted_membership(s.skip(1), x, y);
            if s.skip(1).contains(y) {
                let k = choose|k: int| 0 <= k < s.skip(1).len() && s.skip(1)[k] == y;
                assert(s[k + 1] == y);
            }
        }
    } else if s.len() > 0 {
        let t = seq![x] + s;
        let j = choose|j: int| 0 <= j < t.len() && t[j] == y;
        if j > 0 {
            assert(s[j - 1] == y);
        }
    }
}

/// Sorting keeps exactly the elements given to it.
proof fn lemma_sort_membership(s: Seq<(Symbol, Seq<usize>, usize)>, y: (Symbol, Seq<usize>, usize))
    requires
        sort_items_spec(s).contains(y),
    ensures
        s.contains(y),
    decreases s.len(),
{
    if s.len() > 0 {
        lemma_insert_sorted_membership(sort_items_spec(s.drop_last()), s.last(), y);
        if sort_items_spec(s.drop_last()).contains(y) {
            lemma_sort_membership(s.drop_last(), y);
            let k = choose|k: int| 0 <= k < s.drop_last().len() && s.drop_last()[k] == y;
            assert(s[k] == y);
        } else {
            assert(s[s.len() - 1] == y);
        }
    }
}

/// Scheduling a filter lowers the number still unscheduled by one.
proof fn lemma_count_false_update(done: Seq<bool>, i: int)
    requires
        0 <= i < done.len(),
        !done[i],
    ensures
        count_false(done.update(i, true)) == count_false(done) - 1,
        count_false(done) >= 1,
    decreases done.len(),
{
    lemma_count_false_nonneg(done);
    if i == 0 {
        assert(done.update(0, true).skip(1) =~= done.skip(1));
        lemma_count_false_nonneg(done.skip(1));
    } else {
        assert(done.update(i, true).skip(1) =~= done.skip(1).update(i - 1, true));
        lemma_count_false_update(done.skip(1), i - 1);
    }
}

proof fn lemma_count_false_nonneg(done: Seq<bool>)
    ensures
        count_false(done) >= 0,
    decreases done.len(),
{
    if done.len() > 0 {
        lemma_count_false_nonneg(done.skip(1));
    }
}

/// A copy of a vector of indices.
fn copy_usizes(v: &Vec<usize>) -> (r: Vec<usize>)
    ensures
        r@ == v@,
{
    let mut r: Vec<usize> = Vec::new();
    let mut i: usize = 0;
    while i < v.len()
        invariant
            i <= v@.len(),
            r@ == v@.take(i as int),
        decreases v@.len() - i,
    {
        r.push(v[i]);
        proof {
            assert(v@.take(i + 1) =~= v@.take(i as int).push(v@[i as int]));
        }
        i = i + 1;
    }
    proof {
        assert(v@.take(v@.len() as int) =~= v@);
    }
    r
}

/// A copy of a vector of argument terms.
fn copy_terms(v: &Vec<AtomTerm>) -> (r: Vec<AtomTerm>)
    ensures
        r@ == v@,
{
    let mut r: Vec<AtomTerm> = Vec::new();
    let mut i: usize = 0;
    while i < v.len()
        invariant
            i <= v@.len(),
            r@ == v@.take(i as int),
        decreases v@.len() - i,
    {
        r.push(v[i]);
        proof {
            assert(v@.take(i + 1) =~= v@.take(i as int).push(v@[i as int]));
        }
        i = i + 1;
    }
    proof {
        assert(v@.take(v@.len() as int) =~= v@);
    }
    r
}

/// Does `a` order no later than `b`?
fn order_le_exec(a: &Var2, b: &Var2) -> (r: bool)
    ensures
        r == order_le(var2_view(*a), var2_view(*b)),
{
    a.occurences.len() > b.occurences.len() || (a.occurences.len() == b.occurences.len()
        && a.size_guess <= b.size_guess)
}

/// A stable insertion lands exactly behind the elements ordering no later
/// than the new one.
proof fn lemma_insert_sorted_at(
    s: Seq<(Symbol, Seq<usize>, usize)>,
    x: (Symbol, Seq<usize>, usize),
    p: int,
)
    requires
        0 <= p <= s.len(),
        forall|q: int| 0 <= q < p ==> order_le(#[trigger] s[q], x),
        p < s.len() ==> !order_le(s[p], x),
    ensures
        insert_sorted(s, x) == s.insert(p, x),
    decreases p,
{
    if p == 0 {
        if s.len() == 0 {
            assert(insert_sorted(s, x) =~= s.insert(0, x));
        } else {
            assert(insert_sorted(s, x) =~= s.insert(0, x));
        }
    } else {
        assert(order_le(s[0], x));
        assert(forall|q: int| 0 <= q < p - 1 ==> order_le(#[trigger] s.skip(1)[q], x));
        lemma_insert_sorted_at(s.skip(1), x, p - 1);
        assert(insert_sorted(s, x) == seq![s[0]] + s.skip(1).insert(p - 1, x));
        assert(seq![s[0]] + s.skip(1).insert(p - 1, x) =~= s.insert(p, x));
    }
}

/// Stable insertion sort of the elimination-order map.
fn sort_items(items0: Vec<Var2>) -> (r: Vec<Var2>)
    ensures
        items_view(r@) == sort_items_spec(items_view(items0@)),
{
    let ghost orig = items_view(items0@);
    let mut items = items0;
    let mut out: Vec<Var2> = Vec::new();
    proof {
        assert(items_view(items@) =~~= orig.skip(0));
        assert(items_view(out@) =~~= sort_items_spec(orig.take(0)));
        assert(orig.take(0) =~= Seq::<(Symbol, Seq<usize>, usize)>::empty());
    }
    while items.len() > 0
        invariant
            items@.len() <= orig.len(),
            items_view(items@) == orig.skip(orig.len() - items@.len()),
            items_view(out@) == sort_items_spec(orig.take(orig.len() - items@.len())),
        decreases items@.len(),
    {
        let ghost g = orig.len() - items@.len();
        let ghost pre = items@;
        let x = items.remove(0);
        proof {
            assert(items@ =~= pre.remove(0));
            assert(pre.remove(0) =~= pre.skip(1));
            assert(items_view(items@) =~~= items_view(pre).skip(1));
            assert(items_view(pre).skip(1) =~~= orig.skip(g + 1));
            assert(x == pre[0]);
            assert(items_view(pre)[0] == var2_view(x));
            assert(items_view(pre) == orig.skip(g));
            assert(orig.skip(g)[0] == orig[g]);
        }
        let mut p: usize = 0;
        while p < out.len() && order_le_exec(&out[p], &x)
            invariant
                p <= out@.len(),
                forall|q: int| 0 <= q < p ==> order_le(#[trigger] items_view(out@)[q], var2_view(x)),
            decreases out@.len() - p,
        {
            p = p + 1;
        }
        let ghost outv = items_view(out@);
        out.insert(p, x);
        proof {
            lemma_insert_sorted_at(outv, var2_view(x), p as int);
            assert(items_view(out@) =~~= outv.insert(p as int, var2_view(x)));
            assert(orig.take(g + 1).drop_last() =~= orig.take(g));
            assert(orig.take(g + 1).last() == orig[g]);
            assert(items_view(items@) =~~= orig.skip(g + 1));
        }
    }
    proof {
        assert(orig.take(orig.len() as int) =~= orig);
    }
    out
}

/// An instruction the executor can run safely: slots in range, at least one
/// trie per intersection, every named variable in the layout, and a literal
/// output only ever checked.
pub open spec fn instr_wf(iv: InstrView, q: Query, layout: Seq<(Symbol, Seq<usize>)>) -> bool {
    match iv {
        InstrView::Intersect { idx, trie_indices } => {
            &&& 0 <= idx < layout.len()
            &&& trie_indices.len() >= 1
            &&& forall|t: int|
                0 <= t < trie_indices.len() ==> (#[trigger] trie_indices[t]) < q.atoms@.len()
        },
        InstrView::Call { prim, args, check } => {
            &&& args.len() >= 1
            &&& (args.last() matches AtomTerm::Value(_) ==> check)
            &&& forall|j: int|
                0 <= j < args.len() ==> match #[trigger] args[j] {
                    AtomTerm::Var(v) => find_key(layout, v) is Some,
                    AtomTerm::Value(_) => true,
                }
        },
    }
}

pub open spec fn prog_wf(pv: Seq<InstrView>, q: Query, layout: Seq<(Symbol, Seq<usize>)>) -> bool {
    forall|k: int| 0 <= k < pv.len() ==> instr_wf(#[trigger] pv[k], q, layout)
}

/// A variable argument stands among the term list's variables.
proof fn lemma_term_vars_contains(args: Seq<AtomTerm>, j: int)
    requires
        0 <= j < args.len(),
        args[j] is Var,
    ensures
        term_vars(args).contains(args[j]->Var_0),
    decreases j,
{
    if j == 0 {
        assert(term_vars(args)[0] == args[0]->Var_0);
    } else {
        assert(args.skip(1)[j - 1] == args[j]);
        lemma_term_vars_contains(args.skip(1), j - 1);
        let v = args[j]->Var_0;
        let k = choose|k: int|
            0 <= k < term_vars(args.skip(1)).len() && term_vars(args.skip(1))[k] == v;
        match args[0] {
            AtomTerm::Var(w) => {
                assert(term_vars(args)[k + 1] == v);
            },
            AtomTerm::Value(_) => {
                assert(term_vars(args)[k] == v);
            },
        }
    }
}

/// After making sure each of `vs` has an entry, each of them is present.
proof fn lemma_ensure_keys_present(s: Seq<(Symbol, Seq<usize>)>, vs: Seq<Symbol>, j: int)
    requires
        0 <= j < vs.len(),
    ensures
        find_key(ensure_keys(s, vs), vs[j]) is Some,
    decreases j,
{
    if j == 0 {
        lemma_ensure_contains(s, vs[0], vs[0]);
        lemma_ensure_keys_mono(ensure_key_spec(s, vs[0]), vs.skip(1), vs[0]);
    } else {
        assert(vs.skip(1)[j - 1] == vs[j]);
        lemma_ensure_keys_present(ensure_key_spec(s, vs[0]), vs.skip(1), j - 1);
    }
}

/// Every variable of every filter is present after the filter pass.
proof fn lemma_filter_vars_present(
    s: Seq<(Symbol, Seq<usize>)>,
    fs: Seq<PrimitiveAtom>,
    fi: int,
    j: int,
)
    requires
        0 <= fi < fs.len(),
        0 <= j < term_vars(fs[fi].args@).len(),
    ensures
        find_key(add_filter_vars(s, fs), term_vars(fs[fi].args@)[j]) is Some,
    decreases fi,
{
    if fi == 0 {
        lemma_ensure_keys_present(s, term_vars(fs[0].args@), j);
        lemma_add_filter_vars_mono(
            ensure_keys(s, term_vars(fs[0].args@)),
            fs.skip(1),
            term_vars(fs[0].args@)[j],
        );
    } else {
        assert(fs.skip(1)[fi - 1] == fs[fi]);
        lemma_filter_vars_present(ensure_keys(s, term_vars(fs[0].args@)), fs.skip(1), fi - 1, j);
    }
}

/// Scheduling emits call instructions only.
proof fn lemma_sched_calls(
    fs: Seq<PrimitiveAtom>,
    done: Seq<bool>,
    m: Seq<(Symbol, Seq<usize>)>,
    fuel: nat,
)
    ensures
        sched(fs, done, m, fuel) matches Some(p) ==> forall|k: int|
            0 <= k < p.0.len() ==> (#[trigger] p.0[k]) is Call,
    decreases fuel,
{
    if !no_undone(done) && fuel > 0 {
        match pick_from(fs, done, m, 0) {
            None => {},
            Some(i) => {
                let (instr, m2) = call_step(fs[i], m);
                lemma_sched_calls(fs, done.update(i, true), m2, (fuel - 1) as nat);
                match sched(fs, done.update(i, true), m2, (fuel - 1) as nat) {
                    None => {},
                    Some(rest) => {
                        let p = sched(fs, done, m, fuel)->Some_0;
                        assert(p.0 == seq![instr] + rest.0);
                        assert(instr is Call);
                        assert(forall|k: int|
                            1 <= k < p.0.len() ==> p.0[k] == #[trigger] rest.0[k - 1]);
                    },
                }
            },
        }
    }
}

/// With nothing scheduled yet, the whole filter list is outstanding.
proof fn lemma_count_false_all(done: Seq<bool>)
    requires
        forall|j: int| 0 <= j < done.len() ==> !(#[trigger] done[j]),
    ensures
        count_false(done) == done.len(),
    decreases done.len(),
{
    if done.len() > 0 {
        lemma_count_false_all(done.skip(1));
    }
}

/// Are all of the filter's input arguments literals or bound variables?
fn filter_pickable(f: &PrimitiveAtom, vars2: &VarMap) -> (r: bool)
    requires
        f.args@.len() >= 1,
    ensures
        r == pickable(*f, vm_view(vars2.entries@)),
{
    let n = f.args.len() - 1;
    let mut j: usize = 0;
    while j < n
        invariant
            j <= n,
            n == f.args@.len() - 1,
            forall|q: int|
                0 <= q < j ==> match #[trigger] f.args@[q] {
                    AtomTerm::Var(v) => find_key(vm_view(vars2.entries@), v) is Some,
                    AtomTerm::Value(_) => true,
                },
        decreases n - j,
    {
        match f.args[j] {
            AtomTerm::Var(v) => {
                match vars2.get_index_of(v) {
                    None => {
                        proof {
                            assert(!pickable(*f, vm_view(vars2.entries@)));
                        }
                        return false;
                    },
                    Some(_) => {},
                }
            },
            AtomTerm::Value(_) => {},
        }
        j = j + 1;
    }
    true
}

impl EGraph {
    /// Compile one seminaive split: choose the elimination order by the
    /// occurrence/size heuristic, emit one `Intersect` per ordered variable,
    /// then greedily schedule the filters; fail when the remaining filters
    /// depend on one another's outputs in a cycle.
    #[verifier::rlimit(60)]
    fn compile_program(&self, cq: &CompiledQuery, ranges: &Vec<TsRange>) -> (r: Result<
        (Vec<Instr>, Vec<Symbol>),
        CompileError,
    >)
        requires
            vm_view(cq.vars.entries@) == compiled_vars_spec(cq.query),
            ranges@.len() == cq.query.atoms@.len(),
            forall|i: int|
                0 <= i < cq.query.atoms@.len() ==> self.has_function(
                    (#[trigger] cq.query.atoms@[i]).head,
                ),
            cq.query.filters_wf(),
        ensures
            match r {
                Ok(po) => {
                    &&& program_spec(cq.query, sizes_spec(*self, cq.query.atoms@, ranges@))
                        matches Some(ps) && prog_view(po.0@) == ps.0 && po.1@ == ps.1
                    &&& prog_wf(prog_view(po.0@), cq.query, vm_view(cq.vars.entries@))
                },
                Err(e) => {
                    &&& e == CompileError::CyclicPrimitives
                    &&& program_spec(cq.query, sizes_spec(*self, cq.query.atoms@, ranges@))
                        is None
                },
            },
    {
        let ghost sizes_g = sizes_spec(*self, cq.query.atoms@, ranges@);
        let ghost layout = vm_view(cq.vars.entries@);
        let mut vars2 = build_atom_occs(&cq.query.atoms);
        let ghost m0 = vm_view(vars2.entries@);

        let mut sizes: Vec<usize> = Vec::new();
        let mut i: usize = 0;
        while i < cq.query.atoms.len()
            invariant
                i <= cq.query.atoms@.len(),
                ranges@.len() == cq.query.atoms@.len(),
                forall|t: int|
                    0 <= t < cq.query.atoms@.len() ==> self.has_function(
                        (#[trigger] cq.query.atoms@[t]).head,
                    ),
                sizes_g == sizes_spec(*self, cq.query.atoms@, ranges@),
                sizes@.len() == i,
                forall|t: int| 0 <= t < i ==> sizes@[t] == sizes_g[t],
            decreases cq.query.atoms@.len() - i,
        {
            let f = match self.get_function(cq.query.atoms[i].head) {
                Some(f) => f,
                None => vstd::pervasive::unreached(),
            };
            let sz = f.get_size(ranges[i]);
            sizes.push(sz);
            i = i + 1;
        }
        proof {
            assert(sizes@ =~= sizes_g);
        }

        let mut items: Vec<Var2> = Vec::new();
        let ghost pbi = phase_b_items(cq.query.atoms@, sizes_g);
        let mut j: usize = 0;
        while j < vars2.len()
            invariant
                j <= vars2.entries@.len(),
                vm_view(vars2.entries@) == m0,
                m0 == add_atom_occs(Seq::<(Symbol, Seq<usize>)>::empty(), cq.query.atoms@, 0),
                pbi == phase_b_items(cq.query.atoms@, sizes_g),
                pbi.len() == m0.len(),
                sizes@ == sizes_g,
                items_view(items@).len() == j,
                forall|t: int| 0 <= t < j ==> items_view(items@)[t] == pbi[t],
            decreases vars2.entries@.len() - j,
        {
            let sym = vars2.entries[j].0;
            let occ = copy_usizes(&vars2.entries[j].1.occurences);
            let ghost occv = occ@;
            let mut msz: usize = usize::MAX;
            let mut t: usize = 0;
            proof {
                assert(occ@.skip(0) =~= occ@);
            }
            while t < occ.len()
                invariant
                    t <= occ@.len(),
                    sizes@ == sizes_g,
                    min_size(occ@, sizes@) == (if msz <= min_size(occ@.skip(t as int), sizes@) {
                        msz
                    } else {
                        min_size(occ@.skip(t as int), sizes@)
                    }),
                decreases occ@.len() - t,
            {
                proof {
                    assert(occ@.skip(t as int).skip(1) =~= occ@.skip(t + 1));
                    assert(occ@.skip(t as int)[0] == occ@[t as int]);
                }
                let o = occ[t];
                let st = if o < sizes.len() {
                    sizes[o]
                } else {
                    usize::MAX
                };
                if st < msz {
                    msz = st;
                }
                t = t + 1;
            }
            proof {
                assert(occ@.skip(occ@.len() as int) =~= Seq::<usize>::empty());
            }
            proof {
                assert(min_size(Seq::<usize>::empty(), sizes@) == usize::MAX);
                assert(occ@.skip(occ@.len() as int) =~= Seq::<usize>::empty());
                assert(msz == min_size(occv, sizes_g));
            }
            items.push(Var2 { sym, occurences: occ, size_guess: msz });
            proof {
                assert(items_view(items@)[j as int] == var2_view(items@[j as int]));
                assert(var2_view(items@[j as int]) == (sym, occv, msz));
                assert(pbi[j as int] == (m0[j as int].0, m0[j as int].1, min_size(m0[j as int].1, sizes_g)));
                assert(m0[j as int].0 == sym && m0[j as int].1 == occv);
                assert(items_view(items@)[j as int] == pbi[j as int]);
            }
            j = j + 1;
        }
        proof {
            assert(items_view(items@) =~~= pbi);
        }

        let sorted = sort_items(items);
        let ghost sortedv = sort_items_spec(pbi);
        let ghost ns = sortedv.len();
        let ghost intersects = Seq::new(
            ns,
            |q: int|
                InstrView::Intersect {
                    idx: find_key(layout, sortedv[q].0)->Some_0,
                    trie_indices: sortedv[q].1,
                },
        );

        let mut program: Vec<Instr> = Vec::new();
        let mut order: Vec<Symbol> = Vec::new();
        let mut k: usize = 0;
        while k < sorted.len()
            invariant
                k <= sorted@.len(),
                items_view(sorted@) == sortedv,
                ns == sortedv.len(),
                layout == vm_view(cq.vars.entries@),
                layout == compiled_vars_spec(cq.query),
                m0 == add_atom_occs(Seq::<(Symbol, Seq<usize>)>::empty(), cq.query.atoms@, 0),
                pbi == phase_b_items(cq.query.atoms@, sizes_g),
                sortedv == sort_items_spec(pbi),
                occ_bounded(m0, cq.query.atoms@.len() as int),
                occs_nonempty(m0),
                intersects.len() == ns,
                forall|q: int|
                    0 <= q < ns ==> #[trigger] intersects[q] == (InstrView::Intersect {
                        idx: find_key(layout, sortedv[q].0)->Some_0,
                        trie_indices: sortedv[q].1,
                    }),
                prog_view(program@).len() == k,
                forall|t: int| 0 <= t < k ==> prog_view(program@)[t] == intersects[t],
                prog_wf(prog_view(program@), cq.query, layout),
                order@.len() == k,
                forall|t: int| 0 <= t < k ==> order@[t] == sortedv[t].0,
            decreases sorted@.len() - k,
        {
            let sym = sorted[k].sym;
            proof {
                assert(items_view(sorted@)[k as int] == var2_view(sorted@[k as int]));
                assert(sortedv[k as int].0 == sym);
                assert(sortedv.contains(sortedv[k as int]));
                lemma_sort_membership(pbi, sortedv[k as int]);
                let w = choose|w: int| 0 <= w < pbi.len() && pbi[w] == sortedv[k as int];
                assert(pbi[w].0 == m0[w].0 && pbi[w].1 == m0[w].1);
                lemma_key_present(m0, w);
                lemma_add_filter_vars_mono(m0, cq.query.filters@, sym);
            }
            proof {
                assert(find_key(vm_view(cq.vars.entries@), sym) is Some);
            }
            let el = cq.vars.len();
            let gio = cq.vars.get_index_of(sym);
            proof {
                lemma_find_key_bounds(layout, sym);
                assert(layout.len() == cq.vars.entries@.len());
                assert(0 <= find_key(layout, sym)->Some_0 < el);
                assert(gio == Some(find_key(vm_view(cq.vars.entries@), sym)->Some_0 as usize));
            }
            let idx = match gio {
                Some(x) => x,
                None => vstd::pervasive::unreached(),
            };
            let ti = copy_usizes(&sorted[k].occurences);
            let ghost tiv = ti@;
            let ghost prog_pre = program@;
            program.push(Instr::Intersect { idx, trie_indices: ti });
            order.push(sym);
            proof {
                assert(idx as int == find_key(layout, sym)->Some_0);
                assert(tiv == var2_view(sorted@[k as int]).1);
                assert(tiv == sortedv[k as int].1);
                let w = choose|w: int| 0 <= w < pbi.len() && pbi[w] == sortedv[k as int];
                assert(pbi[w].1 == m0[w].1);
                assert(occs_nonempty(m0) && 0 <= w < m0.len());
                assert(m0[w].1.len() >= 1);
                assert(forall|t: int| 0 <= t < tiv.len() ==> #[trigger] tiv[t] == m0[w].1[t]);
                assert(forall|t: int|
                    0 <= t < tiv.len() ==> #[trigger] tiv[t] < cq.query.atoms@.len());
                assert(program@ == prog_pre.push(Instr::Intersect { idx, trie_indices: ti }));
                assert(forall|t: int|
                    0 <= t < k ==> prog_view(program@)[t] == #[trigger] prog_view(prog_pre)[t]);
                assert(prog_view(program@)[k as int] == instr_view(program@[k as int]));
                assert(prog_view(program@)[k as int] =~~= intersects[k as int]);
                assert(instr_wf(prog_view(program@)[k as int], cq.query, layout));
                assert forall|t: int| 0 <= t < prog_view(program@).len() implies instr_wf(
                    #[trigger] prog_view(program@)[t],
                    cq.query,
                    layout,
                ) by {
                    if t < k {
                        assert(prog_view(program@)[t] == prog_view(prog_pre)[t]);
                        assert(instr_wf(prog_view(prog_pre)[t], cq.query, layout));
                    }
                }
            }
            k = k + 1;
        }

        let nf = cq.query.filters.len();
        let mut done: Vec<bool> = Vec::new();
        let mut d: usize = 0;
        while d < nf
            invariant
                d <= nf,
                done@.len() == d,
                forall|t: int| 0 <= t < d ==> !(#[trigger] done@[t]),
            decreases nf - d,
        {
            done.push(false);
            d = d + 1;
        }
        proof {
            assert(done@ =~= Seq::new(cq.query.filters@.len(), |q: int| false));
            lemma_count_false_all(done@);
        }
        let ghost init_done = done@;
        let ghost target = sched(cq.query.filters@, done@, m0, nf as nat);

        loop
            invariant
                nf == cq.query.filters@.len(),
                done@.len() == nf,
                layout == vm_view(cq.vars.entries@),
                layout == compiled_vars_spec(cq.query),
                m0 == add_atom_occs(Seq::<(Symbol, Seq<usize>)>::empty(), cq.query.atoms@, 0),
                init_done.len() == nf,
                forall|t: int| 0 <= t < nf ==> !(#[trigger] init_done[t]),
                target == sched(cq.query.filters@, init_done, m0, nf as nat),
                sizes_g == sizes_spec(*self, cq.query.atoms@, ranges@),
                ranges@.len() == cq.query.atoms@.len(),
                pbi == phase_b_items(cq.query.atoms@, sizes_g),
                sortedv == sort_items_spec(pbi),
                intersects.len() == ns,
                forall|q: int|
                    0 <= q < ns ==> #[trigger] intersects[q] == (InstrView::Intersect {
                        idx: find_key(layout, sortedv[q].0)->Some_0,
                        trie_indices: sortedv[q].1,
                    }),
                cq.query.filters_wf(),
                ns == sortedv.len(),
                vm_view(vars2.entries@).len() >= m0.len(),
                vm_view(vars2.entries@).take(m0.len() as int) == m0,
                prog_view(program@).len() >= ns,
                prog_view(program@).take(ns as int) == intersects,
                prog_wf(prog_view(program@), cq.query, layout),
                order@.len() == ns + vm_view(vars2.entries@).len() - m0.len(),
                forall|t: int| 0 <= t < ns ==> order@[t] == sortedv[t].0,
                forall|t: int|
                    ns <= t < order@.len() ==> order@[t] == vm_view(vars2.entries@)[t - ns
                        + m0.len()].0,
                match sched(
                    cq.query.filters@,
                    done@,
                    vm_view(vars2.entries@),
                    count_false(done@) as nat,
                ) {
                    None => target is None,
                    Some((rest, mf)) => target matches Some(tp) && tp.0 == prog_view(
                        program@,
                    ).skip(ns as int) + rest && tp.1 == mf,
                },
                count_false(done@) >= 0,
            decreases count_false(done@),
        {
            let ghost m_now = vm_view(vars2.entries@);
            let mut found: Option<usize> = None;
            let mut any_undone = false;
            let mut si: usize = 0;
            while si < nf
                invariant
                    si <= nf,
                    nf == cq.query.filters@.len(),
                    done@.len() == nf,
                    m_now == vm_view(vars2.entries@),
                    cq.query.filters_wf(),
                    any_undone <==> exists|q: int| 0 <= q < si && !(#[trigger] done@[q]),
                    match found {
                        Some(fi) => {
                            &&& fi < nf
                            &&& !done@[fi as int]
                            &&& pick_from(cq.query.filters@, done@, m_now, 0) == Some(fi as int)
                        },
                        None => pick_from(cq.query.filters@, done@, m_now, 0) == pick_from(
                            cq.query.filters@,
                            done@,
                            m_now,
                            si as int,
                        ),
                    },
                decreases nf - si,
            {
                if !done[si] {
                    any_undone = true;
                    if found.is_none() {
                        let pk = filter_pickable(&cq.query.filters[si], &vars2);
                        if pk {
                            found = Some(si);
                        }
                    }
                } else {
                }
                si = si + 1;
            }
            if !any_undone {
                proof {
                    assert(no_undone(done@));
                    assert(sched(
                        cq.query.filters@,
                        done@,
                        m_now,
                        count_false(done@) as nat,
                    ) == Some((Seq::<InstrView>::empty(), m_now)));
                    assert(target matches Some(tp) && tp.0 == prog_view(program@).skip(ns as int)
                        + Seq::<InstrView>::empty() && tp.1 == m_now);
                    assert(prog_view(program@).skip(ns as int) + Seq::<InstrView>::empty()
                        =~= prog_view(program@).skip(ns as int));
                    assert(prog_view(program@) =~= prog_view(program@).take(ns as int)
                        + prog_view(program@).skip(ns as int));
                    assert(m_now.skip(m0.len() as int).map_values(
                        |e: (Symbol, Seq<usize>)| e.0,
                    ).len() == m_now.len() - m0.len());
                    assert(order@ =~= sortedv.map_values(|x: (Symbol, Seq<usize>, usize)| x.0)
                        + m_now.skip(m0.len() as int).map_values(|e: (Symbol, Seq<usize>)| e.0));
                    assert(init_done =~= Seq::new(cq.query.filters@.len(), |q: int| false));
                    assert(Seq::new(
                        sortedv.len(),
                        |q: int|
                            InstrView::Intersect {
                                idx: find_key(compiled_vars_spec(cq.query), sortedv[q].0)->Some_0,
                                trie_indices: sortedv[q].1,
                            },
                    ) =~~= intersects);
                    assert(program_spec(cq.query, sizes_g) matches Some(ps) && ps.0 == intersects
                        + prog_view(program@).skip(ns as int) && ps.1 == order@);
                    assert(prog_view(program@) =~= intersects + prog_view(program@).skip(
                        ns as int,
                    ));
                }
                return Ok((program, order));
            }
            match found {
                None => {
                    proof {
                        assert(pick_from(cq.query.filters@, done@, m_now, nf as int) is None);
                        assert(sched(
                            cq.query.filters@,
                            done@,
                            m_now,
                            count_false(done@) as nat,
                        ) is None);
                        assert(init_done =~= Seq::new(cq.query.filters@.len(), |q: int| false));
                        assert(target is None);
                        assert(program_spec(cq.query, sizes_g) is None);
                    }
                    return Err(CompileError::CyclicPrimitives);
                },
                Some(fi) => {
                    proof {
                        lemma_count_false_update(done@, fi as int);
                    }
                    let fargs = copy_terms(&cq.query.filters[fi].args);
                    let ghost m_pre = vm_view(vars2.entries@);
                    let check: bool;
                    match fargs[fargs.len() - 1] {
                        AtomTerm::Value(_) => {
                            check = true;
                        },
                        AtomTerm::Var(v) => {
                            match vars2.get_index_of(v) {
                                Some(_) => {
                                    check = true;
                                },
                                None => {
                                    vars2.ensure_key(v);
                                    order.push(v);
                                    check = false;
                                },
                            }
                        },
                    }
                    let prim = cq.query.filters[fi].head;
                    let ghost prog_pre = prog_view(program@);
                    program.push(Instr::Call { prim, args: fargs, check });
                    done.set(fi, true);
                    proof {
                        let fv = cq.query.filters@[fi as int];
                        let (instr_g, m2_g) = call_step(fv, m_pre);
                        assert(fargs@.last() == fv.args@.last());
                        assert(instr_view(Instr::Call { prim, args: fargs, check }) =~~= instr_g);
                        assert(vm_view(vars2.entries@) =~~= m2_g);
                        assert(prog_view(program@) =~= prog_pre.push(instr_g));
                        assert(prog_view(program@).take(ns as int) =~= prog_pre.take(ns as int));
                        assert(prog_view(program@).skip(ns as int) =~= prog_pre.skip(
                            ns as int,
                        ).push(instr_g));
                        assert forall|t: int|
                            ns <= t < order@.len() implies order@[t] == vm_view(
                            vars2.entries@,
                        )[t - ns + m0.len()].0 by {
                        }
                        assert(vm_view(vars2.entries@).take(m0.len() as int) =~= m0);
                        // the new call instruction is well-formed
                        assert forall|jj: int| 0 <= jj < fargs@.len() implies match #[trigger] fargs@[jj] {
                            AtomTerm::Var(v) => find_key(layout, v) is Some,
                            AtomTerm::Value(_) => true,
                        } by {
                            if fargs@[jj] is Var {
                                lemma_term_vars_contains(fv.args@, jj);
                                let v = fargs@[jj]->Var_0;
                                let w = choose|w: int|
                                    0 <= w < term_vars(fv.args@).len() && term_vars(fv.args@)[w]
                                        == v;
                                lemma_filter_vars_present(m0, cq.query.filters@, fi as int, w);
                            }
                        }
                        assert(instr_wf(instr_g, cq.query, layout));
                    }
                },
            }
        }
    }
}


/// The tuple at the start of an enumeration: a placeholder in every slot.
pub open spec fn initial_tuple(n: nat) -> Seq<Value> {
    Seq::new(n, |j: int| Value::fake_spec())
}

/// The value an argument term denotes under a tuple: a literal itself, a
/// variable the value in its slot.
pub open spec fn term_value(
    t: AtomTerm,
    tuple: Seq<Value>,
    layout: Seq<(Symbol, Seq<usize>)>,
) -> Value {
    match t {
        AtomTerm::Value(v) => v,
        AtomTerm::Var(x) => tuple[find_key(layout, x)->Some_0],
    }
}

/// The input values of a call: every argument but the last, resolved.
pub open spec fn resolve_inputs(
    args: Seq<AtomTerm>,
    tuple: Seq<Value>,
    layout: Seq<(Symbol, Seq<usize>)>,
) -> Seq<Value> {
    Seq::new((args.len() - 1) as nat, |j: int| term_value(args[j], tuple, layout))
}

/// Straight-line execution of an all-call program suffix: the tuples
/// emitted and the tuple afterwards. A primitive that yields nothing, or
/// contradicts a checked output, prunes the run; an exhausted program emits
/// the tuple.
pub open spec fn run_calls(
    p: Seq<InstrView>,
    pc: int,
    tuple: Seq<Value>,
    layout: Seq<(Symbol, Seq<usize>)>,
) -> (Seq<Seq<Value>>, Seq<Value>)
    decreases p.len() - pc,
{
    if pc < 0 || pc >= p.len() {
        (seq![tuple], tuple)
    } else {
        match p[pc] {
            InstrView::Call { prim, args, check } => {
                match prim.apply_spec(resolve_inputs(args, tuple, layout)) {
                    None => (Seq::empty(), tuple),
                    Some(res) => match args.last() {
                        AtomTerm::Value(v) => if v == res {
                            run_calls(p, pc + 1, tuple, layout)
                        } else {
                            (Seq::empty(), tuple)
                        },
                        AtomTerm::Var(x) => {
                            let slot = find_key(layout, x)->Some_0;
                            if check && tuple[slot] != res {
                                (Seq::empty(), tuple)
                            } else {
                                run_calls(p, pc + 1, tuple.update(slot, res), layout)
                            }
                        },
                    },
                }
            },
            InstrView::Intersect { idx, trie_indices } => (Seq::empty(), tuple),
        }
    }
}


/// Two call instructions that agree on everything but the primitive itself,
/// whose primitives have the same input/output behavior.
pub open spec fn same_behavior_call(a: InstrView, b: InstrView) -> bool {
    match (a, b) {
        (
            InstrView::Call { prim: p1, args: a1, check: c1 },
            InstrView::Call { prim: p2, args: a2, check: c2 },
        ) => {
            &&& a1 == a2
            &&& c1 == c2
            &&& forall|vals: Seq<Value>| #[trigger] p1.apply_spec(vals) == p2.apply_spec(vals)
        },
        _ => false,
    }
}

/// Law of primitive purity: a primitive contributes to an enumeration only
/// through its input/output behavior. Replacing every primitive of a
/// straight-line program by one of the same behavior leaves both the
/// emitted tuples and the final tuple unchanged.
pub proof fn lemma_primitive_purity(
    p1: Seq<InstrView>,
    p2: Seq<InstrView>,
    pc: int,
    tuple: Seq<Value>,
    layout: Seq<(Symbol, Seq<usize>)>,
)
    requires
        p1.len() == p2.len(),
        forall|k: int| pc <= k < p1.len() ==> same_behavior_call(#[trigger] p1[k], p2[k]),
    ensures
        run_calls(p1, pc, tuple, layout) == run_calls(p2, pc, tuple, layout),
    decreases p1.len() - pc,
{
    if 0 <= pc < p1.len() {
        assert(same_behavior_call(p1[pc], p2[pc]));
        match (p1[pc], p2[pc]) {
            (
                InstrView::Call { prim: q1, args: a1, check: c1 },
                InstrView::Call { prim: q2, args: a2, check: c2 },
            ) => {
                let vals = resolve_inputs(a1, tuple, layout);
                assert(q1.apply_spec(vals) == q2.apply_spec(vals));
                match q1.apply_spec(vals) {
                    None => {},
                    Some(res) => {
                        match a1.last() {
                            AtomTerm::Value(v) => {
                                if v == res {
                                    lemma_primitive_purity(p1, p2, pc + 1, tuple, layout);
                                }
                            },
                            AtomTerm::Var(x) => {
                                let slot = find_key(layout, x)->Some_0;
                                if !(c1 && tuple[slot] != res) {
                                    lemma_primitive_purity(
                                        p1,
                                        p2,
                                        pc + 1,
                                        tuple.update(slot, res),
                                        layout,
                                    );
                                }
                            },
                        }
                    },
                }
            },
            _ => {},
        }
    }
}


/// The leader scan from position `p` on, with the best position and key
/// count seen so far: the first listed trie level with the fewest keys.
pub open spec fn leader_from(
    tries: Seq<Trie>,
    cursors: Seq<usize>,
    indices: Seq<usize>,
    p: int,
    best: int,
    best_len: int,
) -> int
    decreases indices.len() - p,
{
    if p < 0 || p >= indices.len() {
        best
    } else {
        let l = keys_of(
            tries[indices[p] as int].edges@,
            cursors[indices[p] as int] as int,
        ).len() as int;
        if l < best_len {
            leader_from(tries, cursors, indices, p + 1, p, l)
        } else {
            leader_from(tries, cursors, indices, p + 1, best, best_len)
        }
    }
}

/// The position, among the listed atoms, of the intersection's leader.
pub open spec fn leader_pos(tries: Seq<Trie>, cursors: Seq<usize>, indices: Seq<usize>) -> int {
    leader_from(tries, cursors, indices, 0, 0, usize::MAX as int)
}

/// The keys of the leader's level that are present in every other listed
/// level, in the leader's order.
pub open spec fn filter_keys(
    keys: Seq<Value>,
    tries: Seq<Trie>,
    cursors: Seq<usize>,
    indices: Seq<usize>,
    jm: int,
) -> Seq<Value>
    decreases keys.len(),
{
    if keys.len() == 0 {
        Seq::empty()
    } else {
        let keep = forall|q: int|
            0 <= q < indices.len() && q != jm ==> find_child(
                tries[(#[trigger] indices[q]) as int].edges@,
                cursors[indices[q] as int] as int,
                keys[0],
            ) is Some;
        if keep {
            seq![keys[0]] + filter_keys(keys.skip(1), tries, cursors, indices, jm)
        } else {
            filter_keys(keys.skip(1), tries, cursors, indices, jm)
        }
    }
}


/// All listed cursors descended by key `v`: each listed atom's cursor moves
/// to the child its current node maps `v` to, or to the sentinel.
pub open spec fn descend_all(
    tries: Seq<Trie>,
    cursors: Seq<usize>,
    indices: Seq<usize>,
    v: Value,
) -> Seq<usize>
    decreases indices.len(),
{
    if indices.len() == 0 {
        cursors
    } else {
        let base = descend_all(tries, cursors, indices.drop_last(), v);
        let a = indices.last() as int;
        let c = match find_child(tries[a].edges@, cursors[a] as int, v) {
            Some(c) => c,
            None => EMPTY,
        };
        base.update(a, c)
    }
}

/// What one descent does to each slot: a listed cursor moves by `v` from
/// its old node, an unlisted cursor stays.
proof fn lemma_descend_all_pointwise(
    tries: Seq<Trie>,
    cursors: Seq<usize>,
    indices: Seq<usize>,
    v: Value,
)
    requires
        forall|q: int| 0 <= q < indices.len() ==> (#[trigger] indices[q]) < cursors.len(),
        cursors.len() <= usize::MAX,
    ensures
        forall|j: int|
            0 <= j < descend_all(tries, cursors, indices, v).len() ==> #[trigger] descend_all(
                tries,
                cursors,
                indices,
                v,
            )[j] == (if indices.contains(j as usize) {
                match find_child(tries[j].edges@, cursors[j] as int, v) {
                    Some(c) => c,
                    None => EMPTY,
                }
            } else {
                cursors[j]
            }),
        descend_all(tries, cursors, indices, v).len() == cursors.len(),
    decreases indices.len(),
{
    if indices.len() > 0 {
        assert(forall|q: int|
            0 <= q < indices.len() - 1 ==> (#[trigger] indices.drop_last()[q]) == indices[q]);
        lemma_descend_all_pointwise(tries, cursors, indices.drop_last(), v);
        let a = indices.last() as int;
        assert forall|j: int|
            0 <= j < descend_all(tries, cursors, indices, v).len() implies #[trigger] descend_all(
            tries,
            cursors,
            indices,
            v,
        )[j] == (if indices.contains(j as usize) {
            match find_child(tries[j].edges@, cursors[j] as int, v) {
                Some(c) => c,
                None => EMPTY,
            }
        } else {
            cursors[j]
        }) by {
            if j == a {
                assert(indices[indices.len() - 1] == j as usize);
                assert(indices.contains(j as usize));
            } else {
                assert(descend_all(tries, cursors, indices, v)[j] == descend_all(
                    tries,
                    cursors,
                    indices.drop_last(),
                    v,
                )[j]);
                if indices.contains(j as usize) {
                    let q = choose|q: int| 0 <= q < indices.len() && indices[q] == j as usize;
                    assert(q < indices.len() - 1);
                    assert(indices.drop_last()[q] == j as usize);
                    assert(indices.drop_last().contains(j as usize));
                } else {
                    if indices.drop_last().contains(j as usize) {
                        let q = choose|q: int|
                            0 <= q < indices.drop_last().len() && indices.drop_last()[q] == j
                                as usize;
                        assert(indices[q] == j as usize);
                        assert(indices.contains(j as usize));
                    }
                }
            }
        }
    }
}

/// The enumeration the executor performs from instruction `pc` on: each
/// `Intersect` binds the slot to each surviving key of the leader's level in
/// turn and descends every listed cursor; each `Call` evaluates its
/// primitive, pruning on failure or a contradicted check; an exhausted
/// program emits the tuple. Returns the emitted tuples and the tuple
/// afterwards.
pub open spec fn eval_model(
    p: Seq<InstrView>,
    pc: int,
    tries: Seq<Trie>,
    cursors: Seq<usize>,
    tuple: Seq<Value>,
    layout: Seq<(Symbol, Seq<usize>)>,
) -> (Seq<Seq<Value>>, Seq<Value>)
    decreases p.len() - pc, 1int, 0int,
{
    if pc < 0 || pc >= p.len() {
        (seq![tuple], tuple)
    } else {
        match p[pc] {
            InstrView::Call { prim, args, check } => {
                match prim.apply_spec(resolve_inputs(args, tuple, layout)) {
                    None => (Seq::empty(), tuple),
                    Some(res) => match args.last() {
                        AtomTerm::Value(v) => if v == res {
                            eval_model(p, pc + 1, tries, cursors, tuple, layout)
                        } else {
                            (Seq::empty(), tuple)
                        },
                        AtomTerm::Var(x) => {
                            let slot = find_key(layout, x)->Some_0;
                            if check && tuple[slot] != res {
                                (Seq::empty(), tuple)
                            } else {
                                eval_model(p, pc + 1, tries, cursors, tuple.update(slot, res), layout)
                            }
                        },
                    },
                }
            },
            InstrView::Intersect { idx, trie_indices } => {
                let jm = leader_pos(tries, cursors, trie_indices);
                let ks = filter_keys(
                    keys_of(
                        tries[trie_indices[jm] as int].edges@,
                        cursors[trie_indices[jm] as int] as int,
                    ),
                    tries,
                    cursors,
                    trie_indices,
                    jm,
                );
                eval_keys(p, pc, tries, cursors, idx, trie_indices, ks, tuple, layout)
            },
        }
    }
}

/// One intersection level: bind each key in turn, descend, run the rest of
/// the program, and thread the tuple from one key to the next.
pub open spec fn eval_keys(
    p: Seq<InstrView>,
    pc: int,
    tries: Seq<Trie>,
    cursors: Seq<usize>,
    idx: int,
    indices: Seq<usize>,
    keys: Seq<Value>,
    tuple: Seq<Value>,
    layout: Seq<(Symbol, Seq<usize>)>,
) -> (Seq<Seq<Value>>, Seq<Value>)
    decreases p.len() - pc, 0int, keys.len(),
{
    if keys.len() == 0 || pc < 0 || pc >= p.len() {
        (Seq::empty(), tuple)
    } else {
        let r1 = eval_model(
            p,
            pc + 1,
            tries,
            descend_all(tries, cursors, indices, keys[0]),
            tuple.update(idx, keys[0]),
            layout,
        );
        let r2 = eval_keys(p, pc, tries, cursors, idx, indices, keys.skip(1), r1.1, layout);
        (r1.0 + r2.0, r2.1)
    }
}

/// On a straight-line suffix the enumeration is the straight-line run.
proof fn lemma_model_all_calls(
    p: Seq<InstrView>,
    pc: int,
    tries: Seq<Trie>,
    cursors: Seq<usize>,
    tuple: Seq<Value>,
    layout: Seq<(Symbol, Seq<usize>)>,
)
    requires
        forall|k: int| pc <= k < p.len() ==> (#[trigger] p[k]) is Call,
    ensures
        eval_model(p, pc, tries, cursors, tuple, layout) == run_calls(p, pc, tuple, layout),
    decreases p.len() - pc,
{
    if 0 <= pc < p.len() {
        match p[pc] {
            InstrView::Call { prim, args, check } => {
                match prim.apply_spec(resolve_inputs(args, tuple, layout)) {
                    None => {},
                    Some(res) => match args.last() {
                        AtomTerm::Value(v) => {
                            if v == res {
                                lemma_model_all_calls(p, pc + 1, tries, cursors, tuple, layout);
                            }
                        },
                        AtomTerm::Var(x) => {
                            let slot = find_key(layout, x)->Some_0;
                            if !(check && tuple[slot] != res) {
                                lemma_model_all_calls(
                                    p,
                                    pc + 1,
                                    tries,
                                    cursors,
                                    tuple.update(slot, res),
                                    layout,
                                );
                            }
                        },
                    },
                }
            },
            InstrView::Intersect { idx, trie_indices } => {},
        }
    }
}

/// A straight-line run emits at most one tuple.
proof fn lemma_run_calls_at_most_one(
    p: Seq<InstrView>,
    pc: int,
    tuple: Seq<Value>,
    layout: Seq<(Symbol, Seq<usize>)>,
)
    ensures
        run_calls(p, pc, tuple, layout).0.len() <= 1,
    decreases p.len() - pc,
{
    if 0 <= pc < p.len() {
        match p[pc] {
            InstrView::Call { prim, args, check } => {
                match prim.apply_spec(resolve_inputs(args, tuple, layout)) {
                    None => {},
                    Some(res) => match args.last() {
                        AtomTerm::Value(v) => {
                            lemma_run_calls_at_most_one(p, pc + 1, tuple, layout);
                        },
                        AtomTerm::Var(x) => {
                            let slot = find_key(layout, x)->Some_0;
                            lemma_run_calls_at_most_one(p, pc + 1, tuple.update(slot, res), layout);
                        },
                    },
                }
            },
            InstrView::Intersect { idx, trie_indices } => {},
        }
    }
}

/// Two instructions that agree on everything but primitive identity:
/// intersections must be identical, calls may differ only in a primitive of
/// the same input/output behavior.
pub open spec fn same_behavior_instr(a: InstrView, b: InstrView) -> bool {
    match (a, b) {
        (InstrView::Call { prim: p1, args: a1, check: c1 }, InstrView::Call { .. }) => {
            same_behavior_call(a, b)
        },
        (
            InstrView::Intersect { idx: i1, trie_indices: t1 },
            InstrView::Intersect { idx: i2, trie_indices: t2 },
        ) => i1 == i2 && t1 == t2,
        _ => false,
    }
}

/// Law of primitive purity, over whole programs: replacing every primitive
/// of a program by one of the same input/output behavior leaves the entire
/// enumeration — emitted tuples and final tuple — unchanged, whatever the
/// tries and cursors.
pub proof fn lemma_primitive_purity_model(
    p1: Seq<InstrView>,
    p2: Seq<InstrView>,
    pc: int,
    tries: Seq<Trie>,
    cursors: Seq<usize>,
    tuple: Seq<Value>,
    layout: Seq<(Symbol, Seq<usize>)>,
)
    requires
        p1.len() == p2.len(),
        forall|k: int| 0 <= k < p1.len() ==> same_behavior_instr(#[trigger] p1[k], p2[k]),
    ensures
        eval_model(p1, pc, tries, cursors, tuple, layout) == eval_model(
            p2,
            pc,
            tries,
            cursors,
            tuple,
            layout,
        ),
    decreases p1.len() - pc, 1int, 0int,
{
    if 0 <= pc < p1.len() {
        assert(same_behavior_instr(p1[pc], p2[pc]));
        match (p1[pc], p2[pc]) {
            (
                InstrView::Call { prim: q1, args: a1, check: c1 },
                InstrView::Call { prim: q2, args: a2, check: c2 },
            ) => {
                let vals = resolve_inputs(a1, tuple, layout);
                assert(q1.apply_spec(vals) == q2.apply_spec(vals));
                match q1.apply_spec(vals) {
                    None => {},
                    Some(res) => {
                        match a1.last() {
                            AtomTerm::Value(v) => {
                                if v == res {
                                    lemma_primitive_purity_model(
                                        p1,
                                        p2,
                                        pc + 1,
                                        tries,
                                        cursors,
                                        tuple,
                                        layout,
                                    );
                                }
                            },
                            AtomTerm::Var(x) => {
                                let slot = find_key(layout, x)->Some_0;
                                if !(c1 && tuple[slot] != res) {
                                    lemma_primitive_purity_model(
                                        p1,
                                        p2,
                                        pc + 1,
                                        tries,
                                        cursors,
                                        tuple.update(slot, res),
                                        layout,
                                    );
                                }
                            },
                        }
                    },
                }
            },
            (
                InstrView::Intersect { idx: i1, trie_indices: t1 },
                InstrView::Intersect { idx: i2, trie_indices: t2 },
            ) => {
                let jm = leader_pos(tries, cursors, t1);
                let ks = filter_keys(
                    keys_of(tries[t1[jm] as int].edges@, cursors[t1[jm] as int] as int),
                    tries,
                    cursors,
                    t1,
                    jm,
                );
                lemma_primitive_purity_keys(p1, p2, pc, tries, cursors, i1, t1, ks, tuple, layout);
            },
            _ => {},
        }
    }
}

/// The purity law threaded through one intersection level.
proof fn lemma_primitive_purity_keys(
    p1: Seq<InstrView>,
    p2: Seq<InstrView>,
    pc: int,
    tries: Seq<Trie>,
    cursors: Seq<usize>,
    idx: int,
    indices: Seq<usize>,
    keys: Seq<Value>,
    tuple: Seq<Value>,
    layout: Seq<(Symbol, Seq<usize>)>,
)
    requires
        p1.len() == p2.len(),
        forall|k: int| 0 <= k < p1.len() ==> same_behavior_instr(#[trigger] p1[k], p2[k]),
    ensures
        eval_keys(p1, pc, tries, cursors, idx, indices, keys, tuple, layout) == eval_keys(
            p2,
            pc,
            tries,
            cursors,
            idx,
            indices,
            keys,
            tuple,
            layout,
        ),
    decreases p1.len() - pc, 0int, keys.len(),
{
    if keys.len() > 0 && 0 <= pc < p1.len() {
        lemma_primitive_purity_model(
            p1,
            p2,
            pc + 1,
            tries,
            descend_all(tries, cursors, indices, keys[0]),
            tuple.update(idx, keys[0]),
            layout,
        );
        let r1 = eval_model(
            p1,
            pc + 1,
            tries,
            descend_all(tries, cursors, indices, keys[0]),
            tuple.update(idx, keys[0]),
            layout,
        );
        lemma_primitive_purity_keys(
            p1,
            p2,
            pc,
            tries,
            cursors,
            idx,
            indices,
            keys.skip(1),
            r1.1,
            layout,
        );
    }
}

/// A copy of a vector of values.
fn copy_values(v: &Vec<Value>) -> (r: Vec<Value>)
    ensures
        r@ == v@,
{
    let mut r: Vec<Value> = Vec::new();
    let mut i: usize = 0;
    while i < v.len()
        invariant
            i <= v@.len(),
            r@ == v@.take(i as int),
        decreases v@.len() - i,
    {
        r.push(v[i]);
        proof {
            assert(v@.take(i + 1) =~= v@.take(i as int).push(v@[i as int]));
        }
        i = i + 1;
    }
    proof {
        assert(v@.take(v@.len() as int) =~= v@);
    }
    r
}

/// The executor's state: the tuple being filled, one trie per atom, and a
/// cursor into each trie.
pub struct Context {
    pub tuple: Vec<Value>,
    pub tries: Vec<Trie>,
    pub cursors: Vec<usize>,
}

impl Context {
    /// One trie and one in-range cursor per atom.
    pub open spec fn wf(self, q: Query) -> bool {
        &&& self.tries@.len() == q.atoms@.len()
        &&& self.cursors@.len() == q.atoms@.len()
        &&& forall|j: int| 0 <= j < self.tries@.len() ==> (#[trigger] self.tries@[j]).wf()
        &&& forall|j: int|
            0 <= j < self.cursors@.len() ==> (#[trigger] self.cursors@[j])
                < self.tries@[j].n_nodes
    }

    /// Run the program from instruction `pc` on. Each `Intersect` pivots on
    /// the smallest listed trie level, keeps the keys present in every other
    /// listed level, and descends; each `Call` evaluates its primitive,
    /// pruning the branch when it yields nothing or contradicts a bound
    /// value; an empty rest of the program emits the tuple.
    #[verifier::rlimit(80)]
    fn eval(
        &mut self,
        cq: &CompiledQuery,
        program: &Vec<Instr>,
        pc: usize,
        out: &mut Vec<Vec<Value>>,
    )
        requires
            old(self).wf(cq.query),
            old(self).tuple@.len() == cq.vars.entries@.len(),
            prog_wf(prog_view(program@), cq.query, vm_view(cq.vars.entries@)),
            pc <= program@.len(),
        ensures
            final(self).wf(cq.query),
            final(self).tries@ == old(self).tries@,
            final(self).cursors@ == old(self).cursors@,
            final(self).tuple@.len() == old(self).tuple@.len(),
            final(out)@.len() >= old(out)@.len(),
            forall|t: int| 0 <= t < old(out)@.len() ==> final(out)@[t] == old(out)@[t],
            forall|t: int|
                old(out)@.len() <= t < final(out)@.len() ==> (#[trigger] final(out)@[t]).len()
                    == old(self).tuple@.len(),
            ({
                let r = eval_model(
                    prog_view(program@),
                    pc as int,
                    old(self).tries@,
                    old(self).cursors@,
                    old(self).tuple@,
                    vm_view(cq.vars.entries@),
                );
                &&& final(out)@.len() == old(out)@.len() + r.0.len()
                &&& forall|t: int|
                    0 <= t < r.0.len() ==> (#[trigger] final(out)@[old(out)@.len() + t])@
                        == r.0[t]
                &&& final(self).tuple@ == r.1
            }),
        decreases program@.len() - pc,
    {
        if pc == program.len() {
            let t = copy_values(&self.tuple);
            out.push(t);
            proof {
                let r = eval_model(
                    prog_view(program@),
                    pc as int,
                    self.tries@,
                    self.cursors@,
                    self.tuple@,
                    vm_view(cq.vars.entries@),
                );
                assert(r.0 == seq![self.tuple@] && r.1 == self.tuple@);
                assert(out@[old(out)@.len() as int]@ == self.tuple@);
            }
            return ;
        }
        let ghost iv = prog_view(program@)[pc as int];
        proof {
            assert(instr_wf(iv, cq.query, vm_view(cq.vars.entries@)));
        }
        match &program[pc] {
            Instr::Intersect { idx, trie_indices } => {
                let idx = *idx;
                let ghost cursors0 = self.cursors@;
                let ghost tries0 = self.tries@;
                let ghost tuple0 = self.tuple@;
                let ghost pv = prog_view(program@);
                let ghost layout = vm_view(cq.vars.entries@);
                let n = trie_indices.len();
                proof {
                    assert(iv == InstrView::Intersect {
                        idx: idx as int,
                        trie_indices: trie_indices@,
                    });
                }
                let mut j_min_pos: usize = 0;
                let mut min_len: usize = usize::MAX;
                let mut p: usize = 0;
                while p < n
                    invariant
                        self.wf(cq.query),
                        self.tries@ == tries0,
                        self.cursors@ == cursors0,
                        n == trie_indices@.len(),
                        forall|t: int|
                            0 <= t < n ==> (#[trigger] trie_indices@[t])
                                < cq.query.atoms@.len(),
                        p <= n,
                        n >= 1 ==> j_min_pos < n,
                        j_min_pos == 0 || j_min_pos < p,
                        leader_from(
                            tries0,
                            cursors0,
                            trie_indices@,
                            p as int,
                            j_min_pos as int,
                            min_len as int,
                        ) == leader_pos(tries0, cursors0, trie_indices@),
                    decreases n - p,
                {
                    let a = trie_indices[p];
                    let l = self.tries[a].len(self.cursors[a]);
                    if l < min_len {
                        min_len = l;
                        j_min_pos = p;
                    }
                    p = p + 1;
                }
                proof {
                    assert(j_min_pos as int == leader_pos(tries0, cursors0, trie_indices@));
                }
                let lead = trie_indices[j_min_pos];
                let keys = self.tries[lead].keys(self.cursors[lead]);
                proof {
                    assert(keys@ == keys_of(
                        tries0[trie_indices@[leader_pos(tries0, cursors0, trie_indices@)] as int].edges@,
                        cursors0[trie_indices@[leader_pos(tries0, cursors0, trie_indices@)] as int] as int,
                    ));
                    assert(keys@.skip(0) =~= keys@);
                    assert(Seq::<Value>::empty() + filter_keys(
                        keys@,
                        tries0,
                        cursors0,
                        trie_indices@,
                        j_min_pos as int,
                    ) =~= filter_keys(keys@, tries0, cursors0, trie_indices@, j_min_pos as int));
                }
                let mut inter: Vec<Value> = Vec::new();
                let mut ki: usize = 0;
                while ki < keys.len()
                    invariant
                        self.wf(cq.query),
                        self.tries@ == tries0,
                        self.cursors@ == cursors0,
                        n == trie_indices@.len(),
                        forall|t: int|
                            0 <= t < n ==> (#[trigger] trie_indices@[t])
                                < cq.query.atoms@.len(),
                        ki <= keys@.len(),
                        j_min_pos < n,
                        filter_keys(keys@, tries0, cursors0, trie_indices@, j_min_pos as int)
                            == inter@ + filter_keys(
                            keys@.skip(ki as int),
                            tries0,
                            cursors0,
                            trie_indices@,
                            j_min_pos as int,
                        ),
                    decreases keys@.len() - ki,
                {
                    let v = keys[ki];
                    let mut keep = true;
                    let mut p2: usize = 0;
                    while p2 < n
                        invariant
                            self.wf(cq.query),
                            self.tries@ == tries0,
                            self.cursors@ == cursors0,
                            n == trie_indices@.len(),
                            forall|t: int|
                                0 <= t < n ==> (#[trigger] trie_indices@[t])
                                    < cq.query.atoms@.len(),
                            p2 <= n,
                            j_min_pos < n,
                            keep <==> forall|q: int|
                                0 <= q < p2 && q != j_min_pos ==> find_child(
                                    tries0[(#[trigger] trie_indices@[q]) as int].edges@,
                                    cursors0[trie_indices@[q] as int] as int,
                                    v,
                                ) is Some,
                        decreases n - p2,
                    {
                        if p2 != j_min_pos {
                            let a = trie_indices[p2];
                            if self.tries[a].get(self.cursors[a], v) == EMPTY {
                                keep = false;
                            }
                        }
                        p2 = p2 + 1;
                    }
                    proof {
                        assert(keys@.skip(ki as int)[0] == keys@[ki as int]);
                        assert(keys@.skip(ki as int).skip(1) =~= keys@.skip(ki + 1));
                    }
                    if keep {
                        inter.push(v);
                        proof {
                            assert(inter@ + filter_keys(
                                keys@.skip(ki + 1),
                                tries0,
                                cursors0,
                                trie_indices@,
                                j_min_pos as int,
                            ) =~= (inter@.drop_last() + (seq![v] + filter_keys(
                                keys@.skip(ki + 1),
                                tries0,
                                cursors0,
                                trie_indices@,
                                j_min_pos as int,
                            ))));
                        }
                    }
                    ki = ki + 1;
                }
                proof {
                    assert(keys@.skip(keys@.len() as int) =~= Seq::<Value>::empty());
                    assert(inter@ + Seq::<Value>::empty() =~= inter@);
                    assert(inter@ == filter_keys(
                        keys@,
                        tries0,
                        cursors0,
                        trie_indices@,
                        j_min_pos as int,
                    ));
                }
                let mut saved: Vec<usize> = Vec::new();
                let mut p3: usize = 0;
                while p3 < n
                    invariant
                        self.wf(cq.query),
                        n == trie_indices@.len(),
                        forall|t: int|
                            0 <= t < n ==> (#[trigger] trie_indices@[t])
                                < cq.query.atoms@.len(),
                        p3 <= n,
                        saved@.len() == p3,
                        self.cursors@ == cursors0,
                        forall|t: int|
                            0 <= t < p3 ==> (#[trigger] saved@[t]) < self.tries@[trie_indices@[
                                t
                            ] as int].n_nodes,
                        forall|t: int|
                            0 <= t < p3 ==> (#[trigger] saved@[t]) == cursors0[trie_indices@[
                                t
                            ] as int],
                    decreases n - p3,
                {
                    let a = trie_indices[p3];
                    saved.push(self.cursors[a]);
                    p3 = p3 + 1;
                }
                let ghost tuple_len = self.tuple@.len();
                let cl0 = self.cursors.len();
                let ghost full = eval_keys(
                    pv,
                    pc as int,
                    tries0,
                    cursors0,
                    idx as int,
                    trie_indices@,
                    inter@,
                    tuple0,
                    layout,
                );
                proof {
                    assert(self.tuple@ == tuple0);
                    assert(cursors0.len() == cl0);
                    assert(inter@.skip(0) =~= inter@);
                }
                let mut vi: usize = 0;
                while vi < inter.len()
                    invariant
                        self.wf(cq.query),
                        self.tries@ == tries0,
                        self.tuple@.len() == tuple_len,
                        tuple_len == cq.vars.entries@.len(),
                        idx < tuple_len,
                        n == trie_indices@.len(),
                        n >= 1,
                        forall|t: int|
                            0 <= t < n ==> (#[trigger] trie_indices@[t])
                                < cq.query.atoms@.len(),
                        saved@.len() == n,
                        forall|t: int|
                            0 <= t < n ==> (#[trigger] saved@[t]) < self.tries@[trie_indices@[
                                t
                            ] as int].n_nodes,
                        forall|t: int|
                            0 <= t < n ==> (#[trigger] saved@[t]) == cursors0[trie_indices@[
                                t
                            ] as int],
                        self.cursors@.len() == cursors0.len(),
                        forall|j: int|
                            0 <= j < self.cursors@.len() && !trie_indices@.contains(j as usize)
                                ==> #[trigger] self.cursors@[j] == cursors0[j],
                        vi <= inter@.len(),
                        prog_wf(prog_view(program@), cq.query, vm_view(cq.vars.entries@)),
                        pc < program@.len(),
                        program@.len() <= usize::MAX,
                        out@.len() >= old(out)@.len(),
                        forall|t: int| 0 <= t < old(out)@.len() ==> out@[t] == old(out)@[t],
                        forall|t: int|
                            old(out)@.len() <= t < out@.len() ==> (#[trigger] out@[t]).len()
                                == tuple_len,
                        pv == prog_view(program@),
                        layout == vm_view(cq.vars.entries@),
                        cursors0.len() <= usize::MAX,
                        pc < program@.len() && pv[pc as int] == (InstrView::Intersect {
                            idx: idx as int,
                            trie_indices: trie_indices@,
                        }),
                        full == eval_keys(
                            pv,
                            pc as int,
                            tries0,
                            cursors0,
                            idx as int,
                            trie_indices@,
                            inter@,
                            tuple0,
                            layout,
                        ),
                        ({
                            let rem = eval_keys(
                                pv,
                                pc as int,
                                tries0,
                                cursors0,
                                idx as int,
                                trie_indices@,
                                inter@.skip(vi as int),
                                self.tuple@,
                                layout,
                            );
                            &&& out@.len() - old(out)@.len() <= full.0.len()
                            &&& full.0.skip(out@.len() - old(out)@.len()) == rem.0
                            &&& full.1 == rem.1
                            &&& forall|t: int|
                                0 <= t < out@.len() - old(out)@.len() ==> (#[trigger] out@[old(
                                    out,
                                )@.len() + t])@ == full.0[t]
                        }),
                    decreases inter@.len() - vi,
                {
                    let ghost tpre = self.tuple@;
                    let ghost done = out@.len() - old(out)@.len();
                    let ghost out_pre = out@;
                    let v = inter[vi];
                    self.tuple.set(idx, v);
                    let ghost tcall = self.tuple@;
                    proof {
                        assert(tcall == tpre.update(idx as int, inter@[vi as int]));
                    }
                    let mut p4: usize = 0;
                    while p4 < n
                        invariant
                            self.wf(cq.query),
                            self.tries@ == tries0,
                            self.tuple@ == tcall,
                            self.tuple@.len() == tuple_len,
                            n == trie_indices@.len(),
                            forall|t: int|
                                0 <= t < n ==> (#[trigger] trie_indices@[t])
                                    < cq.query.atoms@.len(),
                            saved@.len() == n,
                            forall|t: int|
                                0 <= t < n ==> (#[trigger] saved@[t]) < self.tries@[
                                    trie_indices@[t] as int].n_nodes,
                            forall|t: int|
                                0 <= t < n ==> (#[trigger] saved@[t]) == cursors0[trie_indices@[
                                    t
                                ] as int],
                            self.cursors@.len() == cursors0.len(),
                            forall|j: int|
                                0 <= j < self.cursors@.len() && !trie_indices@.contains(
                                    j as usize,
                                ) ==> #[trigger] self.cursors@[j] == cursors0[j],
                            forall|q: int|
                                0 <= q < p4 ==> #[trigger] self.cursors@[trie_indices@[
                                    q
                                ] as int] == (match find_child(
                                    tries0[trie_indices@[q] as int].edges@,
                                    cursors0[trie_indices@[q] as int] as int,
                                    v,
                                ) {
                                    Some(c) => c,
                                    None => EMPTY,
                                }),
                            p4 <= n,
                        decreases n - p4,
                    {
                        let a = trie_indices[p4];
                        let c = self.tries[a].get(saved[p4], v);
                        self.cursors.set(a, c);
                        p4 = p4 + 1;
                    }
                    proof {
                        lemma_descend_all_pointwise(tries0, cursors0, trie_indices@, v);
                        assert forall|j: int|
                            0 <= j < self.cursors@.len() implies self.cursors@[j] == descend_all(
                            tries0,
                            cursors0,
                            trie_indices@,
                            v,
                        )[j] by {
                            if trie_indices@.contains(j as usize) {
                                let q = choose|q: int|
                                    0 <= q < trie_indices@.len() && trie_indices@[q] == j
                                        as usize;
                                assert(self.cursors@[trie_indices@[q] as int] == (
                                match find_child(
                                    tries0[trie_indices@[q] as int].edges@,
                                    cursors0[trie_indices@[q] as int] as int,
                                    v,
                                ) {
                                    Some(c) => c,
                                    None => EMPTY,
                                }));
                            }
                        }
                        assert(self.cursors@ =~= descend_all(tries0, cursors0, trie_indices@, v));
                    }
                    proof {
                        assert(self.tuple@ == tcall);
                        assert(self.tuple@ == tpre.update(idx as int, inter@[vi as int]));
                    }
                    self.eval(cq, program, pc + 1, out);
                    proof {
                        assert(inter@.skip(vi as int)[0] == inter@[vi as int]);
                        assert(inter@.skip(vi as int).skip(1) =~= inter@.skip(vi + 1));
                        let rc = eval_model(
                            pv,
                            pc + 1,
                            tries0,
                            descend_all(tries0, cursors0, trie_indices@, inter@[vi as int]),
                            tpre.update(idx as int, inter@[vi as int]),
                            layout,
                        );
                        assert(self.tuple@ == rc.1);
                        let rem_next = eval_keys(
                            pv,
                            pc as int,
                            tries0,
                            cursors0,
                            idx as int,
                            trie_indices@,
                            inter@.skip(vi + 1),
                            rc.1,
                            layout,
                        );
                        assert(full.0.skip(done) == rc.0 + rem_next.0);
                        assert((rc.0 + rem_next.0).skip(rc.0.len() as int) =~= rem_next.0);
                        assert(full.0.skip(done + rc.0.len()) =~= full.0.skip(done).skip(
                            rc.0.len() as int,
                        ));
                        assert(out@.len() == out_pre.len() + rc.0.len());
                        assert forall|t: int|
                            0 <= t < out@.len() - old(out)@.len() implies (#[trigger] out@[old(
                            out,
                        )@.len() + t])@ == full.0[t] by {
                            if t >= done {
                                assert(out@[(old(out)@.len() + done) + (t - done)]@ == rc.0[t
                                    - done]);
                                assert(full.0[t] == full.0.skip(done)[t - done]);
                            } else {
                                assert(out@[old(out)@.len() + t] == out_pre[old(out)@.len()
                                    + t]);
                            }
                        }
                    }
                    vi = vi + 1;
                }
                proof {
                    assert(inter@.skip(inter@.len() as int) =~= Seq::<Value>::empty());
                    assert(full.0.skip(out@.len() - old(out)@.len()).len() == 0);
                    assert(out@.len() == old(out)@.len() + full.0.len());
                }
                let mut p5: usize = 0;
                while p5 < n
                    invariant
                        self.wf(cq.query),
                        self.tries@ == tries0,
                        self.tuple@.len() == tuple_len,
                        n == trie_indices@.len(),
                        forall|t: int|
                            0 <= t < n ==> (#[trigger] trie_indices@[t])
                                < cq.query.atoms@.len(),
                        saved@.len() == n,
                        forall|t: int|
                            0 <= t < n ==> (#[trigger] saved@[t]) < self.tries@[trie_indices@[
                                t
                            ] as int].n_nodes,
                        forall|t: int|
                            0 <= t < n ==> (#[trigger] saved@[t]) == cursors0[trie_indices@[
                                t
                            ] as int],
                        self.cursors@.len() == cursors0.len(),
                        forall|j: int|
                            0 <= j < self.cursors@.len() && !trie_indices@.contains(j as usize)
                                ==> #[trigger] self.cursors@[j] == cursors0[j],
                        forall|q: int|
                            0 <= q < p5 ==> #[trigger] self.cursors@[trie_indices@[q] as int]
                                == cursors0[trie_indices@[q] as int],
                        p5 <= n,
                        pv == prog_view(program@),
                        layout == vm_view(cq.vars.entries@),
                        full == eval_keys(
                            pv,
                            pc as int,
                            tries0,
                            cursors0,
                            idx as int,
                            trie_indices@,
                            inter@,
                            tuple0,
                            layout,
                        ),
                        ({
                            &&& out@.len() == old(out)@.len() + full.0.len()
                            &&& forall|t: int|
                                0 <= t < full.0.len() ==> (#[trigger] out@[old(out)@.len()
                                    + t])@ == full.0[t]
                            &&& self.tuple@ == full.1
                        }),
                    decreases n - p5,
                {
                    let a = trie_indices[p5];
                    self.cursors.set(a, saved[p5]);
                    p5 = p5 + 1;
                }
                let cl = self.cursors.len();
                proof {
                    assert forall|j: int| 0 <= j < self.cursors@.len() implies self.cursors@[j]
                        == cursors0[j] by {
                        assert(j < cl);
                        if trie_indices@.contains(j as usize) {
                            let q = choose|q: int|
                                0 <= q < trie_indices@.len() && trie_indices@[q] == j as usize;
                            assert(self.cursors@[trie_indices@[q] as int] == cursors0[
                                trie_indices@[q] as int]);
                        }
                    }
                    assert(self.cursors@ =~= cursors0);
                    assert(tries0 == old(self).tries@ && cursors0 == old(self).cursors@
                        && tuple0 == old(self).tuple@);
                    assert(pv[pc as int] == InstrView::Intersect {
                        idx: idx as int,
                        trie_indices: trie_indices@,
                    });
                    assert(leader_pos(old(self).tries@, old(self).cursors@, trie_indices@)
                        == j_min_pos as int);
                    assert(filter_keys(
                        keys_of(
                            old(self).tries@[trie_indices@[j_min_pos as int] as int].edges@,
                            old(self).cursors@[trie_indices@[j_min_pos as int] as int] as int,
                        ),
                        old(self).tries@,
                        old(self).cursors@,
                        trie_indices@,
                        j_min_pos as int,
                    ) == inter@);
                    assert(eval_model(
                        pv,
                        pc as int,
                        old(self).tries@,
                        old(self).cursors@,
                        old(self).tuple@,
                        layout,
                    ) == full);
                }
            },
            Instr::Call { prim, args, check } => {
                let check = *check;
                let prim = *prim;
                proof {
                    assert(iv == InstrView::Call { prim, args: args@, check });
                }
                let ghost layout = vm_view(cq.vars.entries@);
                let ghost tuple0 = self.tuple@;
                let tl = self.tuple.len();
                let n = args.len();
                let mut values: Vec<Value> = Vec::new();
                let mut ai: usize = 0;
                while ai < n - 1
                    invariant
                        self.wf(cq.query),
                        self.tuple@.len() == cq.vars.entries@.len(),
                        self.tuple@ == tuple0,
                        layout == vm_view(cq.vars.entries@),
                        cq.vars.entries@.len() <= usize::MAX,
                        n == args@.len(),
                        n >= 1,
                        ai <= n - 1,
                        values@.len() == ai,
                        forall|j: int|
                            0 <= j < ai ==> values@[j] == term_value(args@[j], tuple0, layout),
                        forall|j: int|
                            0 <= j < args@.len() ==> match #[trigger] args@[j] {
                                AtomTerm::Var(v) => find_key(
                                    vm_view(cq.vars.entries@),
                                    v,
                                ) is Some,
                                AtomTerm::Value(_) => true,
                            },
                    decreases n - 1 - ai,
                {
                    match args[ai] {
                        AtomTerm::Var(v) => {
                            let slot = match cq.vars.get_index_of(v) {
                                Some(sx) => sx,
                                None => vstd::pervasive::unreached(),
                            };
                            proof {
                                lemma_find_key_bounds(layout, args@[ai as int]->Var_0);
                                assert(slot as int == find_key(
                                    layout,
                                    args@[ai as int]->Var_0,
                                )->Some_0);
                            }
                            values.push(self.tuple[slot]);
                        },
                        AtomTerm::Value(val) => {
                            values.push(val);
                        },
                    }
                    ai = ai + 1;
                }
                proof {
                    assert(values@ =~= resolve_inputs(args@, tuple0, layout));
                }
                let res = prim.apply(values.as_slice());
                proof {
                    assert(args@.last() == args@[n - 1]);
                }
                match res {
                    None => {
                        return ;
                    },
                    Some(res) => {
                        match args[n - 1] {
                            AtomTerm::Var(v) => {
                                let slot = match cq.vars.get_index_of(v) {
                                    Some(sx) => sx,
                                    None => vstd::pervasive::unreached(),
                                };
                                proof {
                                    lemma_find_key_bounds(layout, v);
                                    assert(slot as int == find_key(layout, v)->Some_0);
                                }
                                if check && !(self.tuple[slot] == res) {
                                    return ;
                                }
                                self.tuple.set(slot, res);
                                proof {
                                    assert(self.tuple@ == tuple0.update(slot as int, res));
                                }
                                self.eval(cq, program, pc + 1, out);
                            },
                            AtomTerm::Value(val) => {
                                proof {
                                    assert(check);
                                }
                                if !(val == res) {
                                    return ;
                                }
                                self.eval(cq, program, pc + 1, out);
                            },
                        }
                    },
                }
            },
        }
    }
}

/// Does a row satisfy an atom's constraints: each literal argument equal to
/// the row's value there, and repeated variables carrying equal values?
pub open spec fn atom_row_ok(args: Seq<AtomTerm>, row: Seq<Value>) -> bool {
    &&& forall|i: int|
        0 <= i < args.len() ==> match #[trigger] args[i] {
            AtomTerm::Value(v) => row[i] == v,
            AtomTerm::Var(_) => true,
        }
    &&& forall|i: int, j: int|
        0 <= j < i < args.len() && (#[trigger] args[i]) is Var && #[trigger] args[j] == args[i]
            ==> row[j] == row[i]
}

/// No row of the relation both lies in the timestamp range and satisfies
/// the atom's constraints.
pub open spec fn no_passing_row(f: crate::egraph::Function, range: TsRange, args: Seq<AtomTerm>) -> bool {
    forall|i: int|
        0 <= i < f.rows@.len() ==> !(range.contains_ts((#[trigger] f.rows@[i]).timestamp)
            && atom_row_ok(args, f.rows@[i].vals@))
}

/// Do the query's filters form a dependency cycle that no schedule resolves?
pub open spec fn query_cyclic(q: Query) -> bool {
    sched(
        q.filters@,
        Seq::new(q.filters@.len(), |i: int| false),
        add_atom_occs(Seq::<(Symbol, Seq<usize>)>::empty(), q.atoms@, 0),
        q.filters@.len() as nat,
    ) is None
}

/// A program compiles exactly when the filters are schedulable, whatever the
/// relation sizes.
proof fn lemma_program_spec_none_iff_cyclic(q: Query, sizes: Seq<usize>)
    ensures
        program_spec(q, sizes) is None <==> query_cyclic(q),
{
    assert(Seq::new(q.filters@.len(), |i: int| false) =~= Seq::new(
        q.filters@.len(),
        |j: int| false,
    ));
}

/// Does this row satisfy the atom's constraints?
fn row_matches(args: &Vec<AtomTerm>, row: &Vec<Value>) -> (r: bool)
    requires
        row@.len() == args@.len(),
    ensures
        r == atom_row_ok(args@, row@),
{
    let n = args.len();
    let mut i: usize = 0;
    while i < n
        invariant
            i <= n,
            n == args@.len(),
            row@.len() == args@.len(),
            forall|t: int|
                0 <= t < i ==> match #[trigger] args@[t] {
                    AtomTerm::Value(v) => row@[t] == v,
                    AtomTerm::Var(_) => true,
                },
            forall|t: int, u: int|
                0 <= u < t < i && (#[trigger] args@[t]) is Var && #[trigger] args@[u] == args@[t]
                    ==> row@[u] == row@[t],
        decreases n - i,
    {
        match args[i] {
            AtomTerm::Value(v) => {
                if !(row[i] == v) {
                    proof {
                        assert(!atom_row_ok(args@, row@));
                    }
                    return false;
                }
            },
            AtomTerm::Var(_) => {
                let mut j: usize = 0;
                while j < i
                    invariant
                        j <= i < n,
                        n == args@.len(),
                        row@.len() == args@.len(),
                        args@[i as int] is Var,
                        forall|u: int|
                            0 <= u < j && args@[u] == args@[i as int] ==> row@[u] == row@[
                                i as int
                            ],
                    decreases i - j,
                {
                    if args[j] == args[i] {
                        if !(row[j] == row[i]) {
                            proof {
                                assert(!atom_row_ok(args@, row@));
                            }
                            return false;
                        }
                    }
                    j = j + 1;
                }
            },
        }
        i = i + 1;
    }
    true
}



/// The first argument position holding variable `v`, if any.
pub open spec fn first_var_pos(args: Seq<AtomTerm>, v: Symbol) -> Option<int>
    decreases args.len(),
{
    if args.len() == 0 {
        None
    } else if args[0] == AtomTerm::Var(v) {
        Some(0int)
    } else {
        match first_var_pos(args.skip(1), v) {
            Some(i) => Some(i + 1),
            None => None,
        }
    }
}

/// If no position before `i` holds the variable, the first match is at `i`
/// when it stands there, and there is none when `i` is the end.
proof fn lemma_first_var_pos_prefix(args: Seq<AtomTerm>, v: Symbol, i: int)
    requires
        0 <= i <= args.len(),
        forall|j: int| 0 <= j < i ==> (#[trigger] args[j]) != AtomTerm::Var(v),
    ensures
        i < args.len() && args[i] == AtomTerm::Var(v) ==> first_var_pos(args, v) == Some(i),
        i == args.len() ==> first_var_pos(args, v) is None,
    decreases i,
{
    if i > 0 {
        assert(forall|j: int| 0 <= j < i - 1 ==> (#[trigger] args.skip(1)[j]) == args[j + 1]);
        lemma_first_var_pos_prefix(args.skip(1), v, i - 1);
        if i < args.len() {
            assert(args.skip(1)[i - 1] == args[i]);
        }
    }
}

/// One atom's projection: for each elimination-order variable in turn, the
/// first argument position where it occurs, if it occurs at all.
pub open spec fn projection_of(args: Seq<AtomTerm>, order: Seq<Symbol>) -> Seq<usize>
    decreases order.len(),
{
    if order.len() == 0 {
        Seq::empty()
    } else {
        (match first_var_pos(args, order[0]) {
            Some(p) => seq![p as usize],
            None => Seq::empty(),
        }) + projection_of(args, order.skip(1))
    }
}

/// The arena one atom's trie build produces: each row in the range that
/// satisfies the atom, inserted in row order along the projected
/// coordinates.
pub open spec fn built_edges(
    rows: Seq<crate::egraph::Row>,
    range: TsRange,
    args: Seq<AtomTerm>,
    proj: Seq<usize>,
) -> Seq<TrieEdge>
    decreases rows.len(),
{
    if rows.len() == 0 {
        Seq::empty()
    } else {
        let prev = built_edges(rows.drop_last(), range, args, proj);
        if range.contains_ts(rows.last().timestamp) && atom_row_ok(args, rows.last().vals@) {
            crate::trie::insert_path(prev, ROOT, project(proj, rows.last().vals@))
        } else {
            prev
        }
    }
}

/// Build one atom's trie: every row in the timestamp range that satisfies
/// the atom's constraints is inserted along the projected coordinates.
/// `None` means no row passed at all, and the whole split can be skipped.
fn build_trie(
    f: &crate::egraph::Function,
    args: &Vec<AtomTerm>,
    proj: &Vec<usize>,
    range: TsRange,
) -> (r: Option<Trie>)
    requires
        f.wf(),
        f.arity == args@.len(),
        forall|k: int| 0 <= k < proj@.len() ==> (#[trigger] proj@[k]) < args@.len(),
    ensures
        r is Some <==> !no_passing_row(*f, range, args@),
        r matches Some(t) ==> t.wf(),
        r matches Some(t) ==> (f.rows@.len() * proj@.len() + 2 <= usize::MAX ==> t.edges@
            == built_edges(f.rows@, range, args@, proj@)),
        r matches Some(t) ==> (f.rows@.len() * proj@.len() + 2 <= usize::MAX ==> forall|i: int|
            0 <= i < f.rows@.len() && range.contains_ts((#[trigger] f.rows@[i]).timestamp)
                && atom_row_ok(args@, f.rows@[i].vals@) ==> t.contains_path(
                ROOT as int,
                project(proj@, f.rows@[i].vals@),
            )),
{
    let ghost cap = f.rows@.len() * proj@.len() + 2 <= usize::MAX;
    let mut trie = Trie::new();
    let mut any = false;
    let mut i: usize = 0;
    while i < f.rows.len()
        invariant
            trie.wf(),
            f.wf(),
            f.arity == args@.len(),
            forall|k: int| 0 <= k < proj@.len() ==> (#[trigger] proj@[k]) < args@.len(),
            i <= f.rows@.len(),
            cap == (f.rows@.len() * proj@.len() + 2 <= usize::MAX),
            cap ==> trie.edges@.len() <= i * proj@.len(),
            cap ==> trie.edges@ == built_edges(f.rows@.take(i as int), range, args@, proj@),
            cap ==> forall|t: int|
                0 <= t < i && range.contains_ts((#[trigger] f.rows@[t]).timestamp)
                    && atom_row_ok(args@, f.rows@[t].vals@) ==> trie.contains_path(
                    ROOT as int,
                    project(proj@, f.rows@[t].vals@),
                ),
            any <==> exists|t: int|
                0 <= t < i && range.contains_ts((#[trigger] f.rows@[t]).timestamp) && atom_row_ok(
                    args@,
                    f.rows@[t].vals@,
                ),
        decreases f.rows@.len() - i,
    {
        let ts = f.rows[i].timestamp;
        if range.lo <= ts && ts < range.hi {
            if row_matches(args, &f.rows[i].vals) {
                proof {
                    if cap {
                        assert(i * proj@.len() + proj@.len() == (i + 1) * proj@.len())
                            by (nonlinear_arith);
                        assert((i + 1) * proj@.len() <= f.rows@.len() * proj@.len())
                            by (nonlinear_arith)
                            requires
                                0 <= i + 1 <= f.rows@.len(),
                                proj@.len() >= 0,
                        ;
                    }
                }
                trie.insert(proj, &f.rows[i].vals);
                any = true;
            }
        }
        proof {
            if cap {
                assert(i * proj@.len() <= (i + 1) * proj@.len()) by (nonlinear_arith)
                    requires
                        i >= 0,
                        proj@.len() >= 0,
                ;
                assert(f.rows@.take(i + 1).drop_last() =~= f.rows@.take(i as int));
                assert(f.rows@.take(i + 1).last() == f.rows@[i as int]);
            }
        }
        i = i + 1;
    }
    proof {
        assert(f.rows@.take(f.rows@.len() as int) =~= f.rows@);
    }
    if any {
        Some(trie)
    } else {
        None
    }
}


/// Every atom of the query has a row satisfying it in its timestamp range,
/// and each atom's trie fits the machine.
pub open spec fn split_feasible(eg: EGraph, q: Query, ranges: Seq<TsRange>) -> bool {
    let ps = program_spec(q, sizes_spec(eg, q.atoms@, ranges))->Some_0;
    forall|j: int|
        0 <= j < q.atoms@.len() ==> !no_passing_row(
            eg.function_spec((#[trigger] q.atoms@[j]).head),
            ranges[j],
            q.atoms@[j].args@,
        ) && eg.function_spec(q.atoms@[j].head).rows@.len() * projection_of(
            q.atoms@[j].args@,
            ps.1,
        ).len() + 2 <= usize::MAX
}


/// Some atom of the query has no satisfying row in its timestamp range:
/// the split is skipped and emits nothing.
pub open spec fn split_skipped(eg: EGraph, q: Query, ranges: Seq<TsRange>) -> bool {
    exists|j: int|
        0 <= j < q.atoms@.len() && no_passing_row(
            eg.function_spec((#[trigger] q.atoms@[j]).head),
            ranges[j],
            q.atoms@[j].args@,
        )
}

/// One split's result: `outv` extends `base` by exactly the enumeration of
/// the compiled program over the built tries — one trie per atom, its arena
/// pinned by `built_edges`, cursors starting at every root, the tuple at its
/// placeholders. The quantified tries are fully determined: their edges are
/// given outright and well-formedness fixes the node count from the edges.
pub open spec fn split_enumeration(
    eg: EGraph,
    q: Query,
    vars_n: nat,
    layout: Seq<(Symbol, Seq<usize>)>,
    ranges: Seq<TsRange>,
    base: Seq<Vec<Value>>,
    outv: Seq<Vec<Value>>,
) -> bool {
    let ps = program_spec(q, sizes_spec(eg, q.atoms@, ranges))->Some_0;
    exists|ts: Seq<Trie>|
        {
            &&& #[trigger] ts.len() == q.atoms@.len()
            &&& (forall|j: int|
                0 <= j < ts.len() ==> (#[trigger] ts[j]).wf() && ts[j].edges@ == built_edges(
                    eg.function_spec(q.atoms@[j].head).rows@,
                    ranges[j],
                    q.atoms@[j].args@,
                    projection_of(q.atoms@[j].args@, ps.1),
                ))
            &&& ({
                let r = eval_model(
                    ps.0,
                    0,
                    ts,
                    Seq::new(ts.len(), |q2: int| ROOT),
                    initial_tuple(vars_n),
                    layout,
                );
                &&& outv.len() == base.len() + r.0.len()
                &&& forall|t: int|
                    0 <= t < r.0.len() ==> (#[trigger] outv[base.len() + t])@ == r.0[t]
            })
        }
}


/// The timestamp ranges of seminaive split `i`: earlier atoms see strictly
/// older rows, atom `i` sees rows at or after the timestamp, later atoms see
/// everything.
pub open spec fn split_ranges(n: nat, i: int, t: u32) -> Seq<TsRange> {
    Seq::new(
        n,
        |j: int|
            if j < i {
                TsRange { lo: 0, hi: t }
            } else if j == i {
                TsRange { lo: t, hi: u32::MAX }
            } else {
                TsRange { lo: 0, hi: u32::MAX }
            },
    )
}

impl EGraph {
    /// Run one seminaive split: compile the program for these timestamp
    /// ranges, build one trie per atom (skipping the whole split when some
    /// atom has no satisfying rows in its range), and enumerate, appending
    /// every emitted tuple to `out`.
    fn run_split(&self, cq: &CompiledQuery, ranges: &Vec<TsRange>, out: &mut Vec<Vec<Value>>) -> (r:
        Result<(), CompileError>)
        requires
            self.wf(),
            vm_view(cq.vars.entries@) == compiled_vars_spec(cq.query),
            cq.query.filters_wf(),
            ranges@.len() == cq.query.atoms@.len(),
            forall|i: int|
                0 <= i < cq.query.atoms@.len() ==> {
                    &&& self.has_function((#[trigger] cq.query.atoms@[i]).head)
                    &&& self.function_spec(cq.query.atoms@[i].head).arity
                        == cq.query.atoms@[i].args@.len()
                },
        ensures
            match r {
                Ok(u) => {
                    &&& !query_cyclic(cq.query)
                    &&& final(out)@.len() >= old(out)@.len()
                    &&& (cq.query.atoms@.len() == 0 ==> final(out)@.len() <= old(out)@.len() + 1)
                    &&& (cq.query.atoms@.len() == 0 ==> ({
                        let ps = program_spec(
                            cq.query,
                            sizes_spec(*self, cq.query.atoms@, ranges@),
                        )->Some_0;
                        let r = run_calls(
                            ps.0,
                            0,
                            initial_tuple(cq.vars.entries@.len()),
                            vm_view(cq.vars.entries@),
                        );
                        &&& final(out)@.len() == old(out)@.len() + r.0.len()
                        &&& forall|t: int|
                            0 <= t < r.0.len() ==> (#[trigger] final(out)@[old(out)@.len()
                                + t])@ == r.0[t]
                    }))
                    &&& ((cq.query.atoms@.len() > 0 && split_feasible(
                        *self,
                        cq.query,
                        ranges@,
                    )) ==> split_enumeration(
                        *self,
                        cq.query,
                        cq.vars.entries@.len(),
                        vm_view(cq.vars.entries@),
                        ranges@,
                        old(out)@,
                        final(out)@,
                    ))
                    &&& forall|t: int| 0 <= t < old(out)@.len() ==> final(out)@[t] == old(out)@[t]
                    &&& forall|t: int|
                        old(out)@.len() <= t < final(out)@.len() ==> (#[trigger] final(out)@[t]).len()
                            == cq.vars.entries@.len()
                    &&& (exists|j: int|
                        0 <= j < cq.query.atoms@.len() && no_passing_row(
                            self.function_spec((#[trigger] cq.query.atoms@[j]).head),
                            ranges@[j],
                            cq.query.atoms@[j].args@,
                        )) ==> final(out)@ == old(out)@
                },
                Err(e) => {
                    &&& e == CompileError::CyclicPrimitives
                    &&& query_cyclic(cq.query)
                    &&& final(out)@ == old(out)@
                },
            },
    {
        proof {
            lemma_program_spec_none_iff_cyclic(
                cq.query,
                sizes_spec(*self, cq.query.atoms@, ranges@),
            );
        }
        let po = match self.compile_program(cq, ranges) {
            Ok(po) => po,
            Err(e) => {
                return Err(e);
            },
        };
        let program = po.0;
        let order = po.1;
        let n_atoms = cq.query.atoms.len();
        let mut tries: Vec<Trie> = Vec::new();
        let mut atom_i: usize = 0;
        while atom_i < n_atoms
            invariant
                n_atoms == cq.query.atoms@.len(),
                self.wf(),
                ranges@.len() == cq.query.atoms@.len(),
                forall|i: int|
                    0 <= i < cq.query.atoms@.len() ==> {
                        &&& self.has_function((#[trigger] cq.query.atoms@[i]).head)
                        &&& self.function_spec(cq.query.atoms@[i].head).arity
                            == cq.query.atoms@[i].args@.len()
                    },
                atom_i <= n_atoms,
                !query_cyclic(cq.query),
                tries@.len() == atom_i,
                forall|j: int| 0 <= j < atom_i ==> (#[trigger] tries@[j]).wf(),
                forall|j: int|
                    0 <= j < atom_i ==> !no_passing_row(
                        self.function_spec((#[trigger] cq.query.atoms@[j]).head),
                        ranges@[j],
                        cq.query.atoms@[j].args@,
                    ),
                forall|j: int|
                    0 <= j < atom_i ==> (self.function_spec(
                        (#[trigger] cq.query.atoms@[j]).head,
                    ).rows@.len() * projection_of(cq.query.atoms@[j].args@, order@).len() + 2
                        <= usize::MAX ==> tries@[j].edges@ == built_edges(
                        self.function_spec(cq.query.atoms@[j].head).rows@,
                        ranges@[j],
                        cq.query.atoms@[j].args@,
                        projection_of(cq.query.atoms@[j].args@, order@),
                    )),
            decreases n_atoms - atom_i,
        {
            let atom = &cq.query.atoms[atom_i];
            let mut proj: Vec<usize> = Vec::new();
            let mut oi: usize = 0;
            proof {
                assert(order@.skip(0) =~= order@);
                assert(Seq::<usize>::empty() + projection_of(atom.args@, order@)
                    =~= projection_of(atom.args@, order@));
            }
            while oi < order.len()
                invariant
                    oi <= order@.len(),
                    forall|k: int| 0 <= k < proj@.len() ==> (#[trigger] proj@[k])
                        < atom.args@.len(),
                    projection_of(atom.args@, order@) == proj@ + projection_of(
                        atom.args@,
                        order@.skip(oi as int),
                    ),
                decreases order@.len() - oi,
            {
                let mut pos: Option<usize> = None;
                let mut ai: usize = 0;
                while ai < atom.args.len()
                    invariant
                        ai <= atom.args@.len(),
                        oi < order@.len(),
                        pos matches Some(px) ==> px < atom.args@.len() && atom.args@[
                            px as int
                        ] == AtomTerm::Var(order@[oi as int]) && (forall|j: int|
                            0 <= j < px ==> (#[trigger] atom.args@[j]) != AtomTerm::Var(
                                order@[oi as int],
                            )),
                        pos is None ==> forall|j: int|
                            0 <= j < ai ==> (#[trigger] atom.args@[j]) != AtomTerm::Var(
                                order@[oi as int],
                            ),
                    decreases atom.args@.len() - ai,
                {
                    if pos.is_none() {
                        match atom.args[ai] {
                            AtomTerm::Var(w) => {
                                if w == order[oi] {
                                    pos = Some(ai);
                                }
                            },
                            AtomTerm::Value(_) => {},
                        }
                    }
                    ai = ai + 1;
                }
                proof {
                    assert(order@.skip(oi as int)[0] == order@[oi as int]);
                    assert(order@.skip(oi as int).skip(1) =~= order@.skip(oi + 1));
                }
                match pos {
                    Some(px) => {
                        proof {
                            lemma_first_var_pos_prefix(
                                atom.args@,
                                order@[oi as int],
                                px as int,
                            );
                            assert(first_var_pos(atom.args@, order@[oi as int]) == Some(
                                px as int,
                            ));
                        }
                        proj.push(px);
                        proof {
                            assert(proj@ + projection_of(atom.args@, order@.skip(oi + 1))
                                =~= (proj@.drop_last() + (seq![px] + projection_of(
                                atom.args@,
                                order@.skip(oi + 1),
                            ))));
                        }
                    },
                    None => {
                        proof {
                            lemma_first_var_pos_prefix(
                                atom.args@,
                                order@[oi as int],
                                atom.args@.len() as int,
                            );
                            assert(first_var_pos(atom.args@, order@[oi as int]) is None);
                            assert(proj@ + (Seq::<usize>::empty() + projection_of(
                                atom.args@,
                                order@.skip(oi + 1),
                            )) =~= proj@ + projection_of(atom.args@, order@.skip(oi + 1)));
                        }
                    },
                }
                oi = oi + 1;
            }
            proof {
                assert(order@.skip(order@.len() as int) =~= Seq::<Symbol>::empty());
                assert(proj@ + Seq::<usize>::empty() =~= proj@);
                assert(proj@ == projection_of(atom.args@, order@));
            }
            let f = match self.get_function(atom.head) {
                Some(f) => f,
                None => vstd::pervasive::unreached(),
            };
            proof {
                crate::egraph::lemma_find_function_bounds(self.functions@, atom.head);
                assert(f.wf());
            }
            match build_trie(f, &atom.args, &proj, ranges[atom_i]) {
                None => {
                    proof {
                        assert(no_passing_row(
                            self.function_spec(cq.query.atoms@[atom_i as int].head),
                            ranges@[atom_i as int],
                            cq.query.atoms@[atom_i as int].args@,
                        ));
                    }
                    return Ok(());
                },
                Some(t) => {
                    tries.push(t);
                },
            }
            atom_i = atom_i + 1;
        }
        let mut cursors: Vec<usize> = Vec::new();
        let mut ci: usize = 0;
        while ci < n_atoms
            invariant
                ci <= n_atoms,
                cursors@.len() == ci,
                forall|j: int| 0 <= j < ci ==> (#[trigger] cursors@[j]) == ROOT,
            decreases n_atoms - ci,
        {
            cursors.push(ROOT);
            ci = ci + 1;
        }
        let n_vars = cq.vars.len();
        let mut tuple: Vec<Value> = Vec::new();
        let mut ti: usize = 0;
        while ti < n_vars
            invariant
                ti <= n_vars,
                tuple@.len() == ti,
                forall|t: int| 0 <= t < ti ==> (#[trigger] tuple@[t]) == Value::fake_spec(),
            decreases n_vars - ti,
        {
            tuple.push(Value::fake());
            ti = ti + 1;
        }
        proof {
            assert(tuple@ =~= initial_tuple(cq.vars.entries@.len()));
        }
        let mut ctx = Context { tuple, tries, cursors };
        let ghost et = ctx.tries@;
        let ghost ec = ctx.cursors@;
        let ghost etu = ctx.tuple@;
        proof {
            if cq.query.atoms@.len() == 0 {
                let sizes_g2 = sizes_spec(*self, cq.query.atoms@, ranges@);
                let m0 = add_atom_occs(Seq::<(Symbol, Seq<usize>)>::empty(), cq.query.atoms@, 0);
                lemma_sched_calls(
                    cq.query.filters@,
                    Seq::new(cq.query.filters@.len(), |j: int| false),
                    m0,
                    cq.query.filters@.len() as nat,
                );
                assert(phase_b_items(cq.query.atoms@, sizes_g2).len() == 0);
                assert(sort_items_spec(phase_b_items(cq.query.atoms@, sizes_g2)) =~= Seq::<
                    (Symbol, Seq<usize>, usize),
                >::empty());
                assert(forall|k: int|
                    0 <= k < prog_view(program@).len() ==> (#[trigger] prog_view(program@)[k])
                        is Call);
            }
        }
        ctx.eval(cq, &program, 0, out);
        proof {
            if cq.query.atoms@.len() > 0 {
                let ps = program_spec(
                    cq.query,
                    sizes_spec(*self, cq.query.atoms@, ranges@),
                )->Some_0;
                assert(order@ == ps.1);
                assert(prog_view(program@) == ps.0);
                assert(ec =~= Seq::new(et.len(), |q: int| ROOT));
                assert(etu == initial_tuple(cq.vars.entries@.len()));
                if split_feasible(*self, cq.query, ranges@) {
                    assert(et.len() == cq.query.atoms@.len());
                    assert(forall|j: int|
                        0 <= j < et.len() ==> (#[trigger] et[j]).wf() && et[j].edges@
                            == built_edges(
                            self.function_spec(cq.query.atoms@[j].head).rows@,
                            ranges@[j],
                            cq.query.atoms@[j].args@,
                            projection_of(cq.query.atoms@[j].args@, ps.1),
                        ));
                    let r = eval_model(
                        ps.0,
                        0,
                        et,
                        Seq::new(et.len(), |q2: int| ROOT),
                        initial_tuple(cq.vars.entries@.len()),
                        vm_view(cq.vars.entries@),
                    );
                    assert(out@.len() == old(out)@.len() + r.0.len());
                    assert(forall|t: int|
                        0 <= t < r.0.len() ==> (#[trigger] out@[old(out)@.len() + t])@
                            == r.0[t]);
                    assert(split_enumeration(
                        *self,
                        cq.query,
                        cq.vars.entries@.len(),
                        vm_view(cq.vars.entries@),
                        ranges@,
                        old(out)@,
                        out@,
                    ));
                }
            }
            if cq.query.atoms@.len() == 0 {
                lemma_model_all_calls(
                    prog_view(program@),
                    0,
                    et,
                    ec,
                    etu,
                    vm_view(cq.vars.entries@),
                );
                lemma_run_calls_at_most_one(
                    prog_view(program@),
                    0,
                    etu,
                    vm_view(cq.vars.entries@),
                );
            }
        }
        Ok(())
    }

    /// Run the compiled query seminaively at `timestamp`: once per atom,
    /// that atom is restricted to rows added at or after the timestamp,
    /// earlier atoms to strictly older rows, and later atoms are
    /// unrestricted, so each assignment that uses at least one new row is
    /// enumerated exactly once. The collected tuples lay their values out in
    /// `cq.vars` order. Fails exactly when the filters are cyclic.
    ///
    /// The tuples come back as one owned vector rather than through a
    /// per-tuple callback: the emitted content is the same, and the engine
    /// always runs to completion, but a caller wanting to stop early must
    /// filter the returned vector instead.
    pub fn run_query(&self, cq: &CompiledQuery, timestamp: u32) -> (r: Result<
        Vec<Vec<Value>>,
        CompileError,
    >)
        requires
            self.wf(),
            vm_view(cq.vars.entries@) == compiled_vars_spec(cq.query),
            cq.query.filters_wf(),
            forall|i: int|
                0 <= i < cq.query.atoms@.len() ==> {
                    &&& self.has_function((#[trigger] cq.query.atoms@[i]).head)
                    &&& self.function_spec(cq.query.atoms@[i].head).arity
                        == cq.query.atoms@[i].args@.len()
                },
        ensures
            match r {
                Ok(out) => {
                    &&& !query_cyclic(cq.query)
                    &&& forall|t: int|
                        0 <= t < out@.len() ==> (#[trigger] out@[t]).len()
                            == cq.vars.entries@.len()
                    &&& (cq.query.atoms@.len() == 0 ==> out@.len() <= 1)
                    &&& (cq.query.atoms@.len() == 0 ==> ({
                        let ps = program_spec(
                            cq.query,
                            sizes_spec(*self, cq.query.atoms@, Seq::<TsRange>::empty()),
                        )->Some_0;
                        let r = run_calls(
                            ps.0,
                            0,
                            initial_tuple(cq.vars.entries@.len()),
                            vm_view(cq.vars.entries@),
                        );
                        &&& out@.len() == r.0.len()
                        &&& forall|t: int| 0 <= t < r.0.len() ==> (#[trigger] out@[t])@ == r.0[t]
                    }))
                    &&& (cq.query.atoms@.len() > 0 ==> (exists|stages: Seq<Seq<Vec<Value>>>|
                        {
                            &&& #[trigger] stages.len() == cq.query.atoms@.len() + 1
                            &&& stages[0] == Seq::<Vec<Value>>::empty()
                            &&& stages[cq.query.atoms@.len() as int] == out@
                            &&& forall|i: int|
                                0 <= i < cq.query.atoms@.len() ==> ({
                                    let rngs = split_ranges(
                                        cq.query.atoms@.len(),
                                        i,
                                        timestamp,
                                    );
                                    &&& (split_skipped(*self, cq.query, rngs) ==> #[trigger] stages[
                                        i + 1
                                    ] == stages[i])
                                    &&& (split_feasible(*self, cq.query, rngs)
                                        ==> split_enumeration(
                                        *self,
                                        cq.query,
                                        cq.vars.entries@.len(),
                                        vm_view(cq.vars.entries@),
                                        rngs,
                                        stages[i],
                                        stages[i + 1],
                                    ))
                                })
                        }))
                    &&& (cq.query.atoms@.len() > 0 && timestamp == u32::MAX ==> out@.len() == 0)
                    &&& (cq.query.atoms@.len() > 0 && !self.has_row_at_or_after(timestamp)
                        ==> out@.len() == 0)
                    &&& ((exists|j: int|
                        0 <= j < cq.query.atoms@.len() && no_passing_row(
                            self.function_spec((#[trigger] cq.query.atoms@[j]).head),
                            TsRange { lo: 0, hi: u32::MAX },
                            cq.query.atoms@[j].args@,
                        )) ==> out@.len() == 0)
                },
                Err(e) => e == CompileError::CyclicPrimitives && query_cyclic(cq.query),
            },
    {
        let mut out: Vec<Vec<Value>> = Vec::new();
        let n = cq.query.atoms.len();
        if n > 0 {
            let mut ranges: Vec<TsRange> = Vec::new();
            let mut ri: usize = 0;
            while ri < n
                invariant
                    ri <= n,
                    ranges@.len() == ri,
                    forall|j: int|
                        0 <= j < ri ==> (#[trigger] ranges@[j]) == (TsRange {
                            lo: 0u32,
                            hi: u32::MAX,
                        }),
                decreases n - ri,
            {
                ranges.push(TsRange { lo: 0, hi: u32::MAX });
                ri = ri + 1;
            }
            let mut atom_i: usize = 0;
            let ghost mut stages: Seq<Seq<Vec<Value>>> = seq![Seq::<Vec<Value>>::empty()];
            while atom_i < n
                invariant
                    n == cq.query.atoms@.len(),
                    n > 0,
                    atom_i <= n,
                    self.wf(),
                    vm_view(cq.vars.entries@) == compiled_vars_spec(cq.query),
                    cq.query.filters_wf(),
                    forall|i: int|
                        0 <= i < cq.query.atoms@.len() ==> {
                            &&& self.has_function((#[trigger] cq.query.atoms@[i]).head)
                            &&& self.function_spec(cq.query.atoms@[i].head).arity
                                == cq.query.atoms@[i].args@.len()
                        },
                    ranges@.len() == n,
                    forall|j: int|
                        0 <= j < atom_i ==> (#[trigger] ranges@[j]) == (TsRange {
                            lo: 0u32,
                            hi: timestamp,
                        }),
                    forall|j: int|
                        atom_i <= j < n ==> (#[trigger] ranges@[j]) == (TsRange {
                            lo: 0u32,
                            hi: u32::MAX,
                        }),
                    forall|t: int|
                        0 <= t < out@.len() ==> (#[trigger] out@[t]).len()
                            == cq.vars.entries@.len(),
                    atom_i > 0 ==> !query_cyclic(cq.query),
                    atom_i == 0 ==> out@.len() == 0,
                    stages.len() == atom_i + 1,
                    stages[0] == Seq::<Vec<Value>>::empty(),
                    stages[atom_i as int] == out@,
                    forall|i: int|
                        0 <= i < atom_i ==> ({
                            let rngs = split_ranges(cq.query.atoms@.len(), i, timestamp);
                            &&& (split_skipped(*self, cq.query, rngs) ==> #[trigger] stages[
                                i + 1
                            ] == stages[i])
                            &&& (split_feasible(*self, cq.query, rngs) ==> split_enumeration(
                                *self,
                                cq.query,
                                cq.vars.entries@.len(),
                                vm_view(cq.vars.entries@),
                                rngs,
                                stages[i],
                                stages[i + 1],
                            ))
                        }),
                    timestamp == u32::MAX ==> out@.len() == 0,
                    !self.has_row_at_or_after(timestamp) ==> out@.len() == 0,
                    (exists|j: int|
                        0 <= j < cq.query.atoms@.len() && no_passing_row(
                            self.function_spec((#[trigger] cq.query.atoms@[j]).head),
                            TsRange { lo: 0, hi: u32::MAX },
                            cq.query.atoms@[j].args@,
                        )) ==> out@.len() == 0,
                decreases n - atom_i,
            {
                let ghost out_pre = out@;
                ranges.set(atom_i, TsRange { lo: timestamp, hi: u32::MAX });
                let res = self.run_split(cq, &ranges, &mut out);
                match res {
                    Err(e) => {
                        return Err(e);
                    },
                    Ok(u) => {},
                }
                proof {
                    assert(ranges@ =~= split_ranges(
                        cq.query.atoms@.len(),
                        atom_i as int,
                        timestamp,
                    ));
                    stages = stages.push(out@);
                    assert(stages[atom_i + 1] == out@);
                    assert(stages[atom_i as int] == out_pre);
                    let rngs_now = split_ranges(cq.query.atoms@.len(), atom_i as int, timestamp);
                    assert(ranges@ == rngs_now);
                    if split_skipped(*self, cq.query, rngs_now) {
                        assert(out@ == out_pre);
                    }
                    if split_feasible(*self, cq.query, rngs_now) {
                        assert(split_enumeration(
                            *self,
                            cq.query,
                            cq.vars.entries@.len(),
                            vm_view(cq.vars.entries@),
                            rngs_now,
                            out_pre,
                            out@,
                        ));
                    }
                    let fi = self.function_spec(cq.query.atoms@[atom_i as int].head);
                    if timestamp == u32::MAX {
                        assert(no_passing_row(
                            fi,
                            ranges@[atom_i as int],
                            cq.query.atoms@[atom_i as int].args@,
                        ));
                        assert(out@ == out_pre);
                    }
                    if !self.has_row_at_or_after(timestamp) {
                        assert forall|t: int|
                            0 <= t < fi.rows@.len() implies !(ranges@[
                            atom_i as int].contains_ts((#[trigger] fi.rows@[t]).timestamp)
                            && atom_row_ok(
                            cq.query.atoms@[atom_i as int].args@,
                            fi.rows@[t].vals@,
                        )) by {
                            if ranges@[atom_i as int].contains_ts(fi.rows@[t].timestamp) {
                                crate::egraph::lemma_find_function_bounds(
                                    self.functions@,
                                    cq.query.atoms@[atom_i as int].head,
                                );
                                assert(fi.has_row_in(TsRange { lo: timestamp, hi: u32::MAX }));
                                assert(self.has_row_at_or_after(timestamp));
                            }
                        }
                        assert(no_passing_row(
                            fi,
                            ranges@[atom_i as int],
                            cq.query.atoms@[atom_i as int].args@,
                        ));
                        assert(out@ == out_pre);
                    }
                    if exists|j: int|
                        0 <= j < cq.query.atoms@.len() && no_passing_row(
                            self.function_spec((#[trigger] cq.query.atoms@[j]).head),
                            TsRange { lo: 0, hi: u32::MAX },
                            cq.query.atoms@[j].args@,
                        ) {
                        let j = choose|j: int|
                            0 <= j < cq.query.atoms@.len() && no_passing_row(
                                self.function_spec((#[trigger] cq.query.atoms@[j]).head),
                                TsRange { lo: 0, hi: u32::MAX },
                                cq.query.atoms@[j].args@,
                            );
                        assert(no_passing_row(
                            self.function_spec(cq.query.atoms@[j].head),
                            ranges@[j],
                            cq.query.atoms@[j].args@,
                        ));
                        assert(out@ == out_pre);
                    }
                }
                ranges.set(atom_i, TsRange { lo: 0, hi: timestamp });
                atom_i = atom_i + 1;
            }
            proof {
                assert(stages.len() == cq.query.atoms@.len() + 1);
                assert(stages[0] == Seq::<Vec<Value>>::empty());
                assert(stages[cq.query.atoms@.len() as int] == out@);
                assert(exists|st: Seq<Seq<Vec<Value>>>|
                    {
                        &&& #[trigger] st.len() == cq.query.atoms@.len() + 1
                        &&& st[0] == Seq::<Vec<Value>>::empty()
                        &&& st[cq.query.atoms@.len() as int] == out@
                        &&& forall|i: int|
                            0 <= i < cq.query.atoms@.len() ==> ({
                                let rngs = split_ranges(cq.query.atoms@.len(), i, timestamp);
                                &&& (split_skipped(*self, cq.query, rngs) ==> #[trigger] st[
                                    i + 1
                                ] == st[i])
                                &&& (split_feasible(*self, cq.query, rngs) ==> split_enumeration(
                                    *self,
                                    cq.query,
                                    cq.vars.entries@.len(),
                                    vm_view(cq.vars.entries@),
                                    rngs,
                                    st[i],
                                    st[i + 1],
                                ))
                            })
                    }) by {
                    assert(forall|i: int|
                        0 <= i < cq.query.atoms@.len() ==> ({
                            let rngs = split_ranges(cq.query.atoms@.len(), i, timestamp);
                            &&& (split_skipped(*self, cq.query, rngs) ==> #[trigger] stages[
                                i + 1
                            ] == stages[i])
                            &&& (split_feasible(*self, cq.query, rngs) ==> split_enumeration(
                                *self,
                                cq.query,
                                cq.vars.entries@.len(),
                                vm_view(cq.vars.entries@),
                                rngs,
                                stages[i],
                                stages[i + 1],
                            ))
                        }));
                }
            }
            Ok(out)
        } else {
            let ranges: Vec<TsRange> = Vec::new();
            proof {
                assert(ranges@ =~= Seq::<TsRange>::empty());
            }
            match self.run_split(cq, &ranges, &mut out) {
                Err(e) => Err(e),
                Ok(u) => {
                    proof {
                        assert(sizes_spec(*self, cq.query.atoms@, ranges@) == sizes_spec(
                            *self,
                            cq.query.atoms@,
                            Seq::<TsRange>::empty(),
                        ));
                        let ps = program_spec(
                            cq.query,
                            sizes_spec(*self, cq.query.atoms@, Seq::<TsRange>::empty()),
                        )->Some_0;
                        let r = run_calls(
                            ps.0,
                            0,
                            initial_tuple(cq.vars.entries@.len()),
                            vm_view(cq.vars.entries@),
                        );
                        assert forall|t: int| 0 <= t < r.0.len() implies out@[t]@ == r.0[t] by {
                            assert(out@[0 + t]@ == r.0[t]);
                        }
                    }
                    Ok(out)
                },
            }
        }
    }
}

} // verus!
