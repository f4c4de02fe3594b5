//! Arena-allocated prefix tries.
//!
//! One trie stores one atom's rows, projected and reordered so that the k-th
//! nesting level corresponds to the k-th variable of the chosen elimination
//! order in which the atom participates. All nodes live in one arena and are
//! freed together when the trie is dropped; children are arena indices.
//!
//! Node `1` is the root. Node `0` is the shared empty sentinel: it never has
//! children, and `get` returns it for an absent key, so a cursor is never
//! null.

use vstd::prelude::*;
use crate::value::Value;

verus! {

/// The arena index of the root node of every trie.
pub const ROOT: usize = 1;

/// The arena index of the shared childless sentinel.
pub const EMPTY: usize = 0;

/// One child link: `parent` maps `key` to `child`.
#[derive(Clone, Copy, PartialEq, Eq, Structural, Debug)]
pub struct TrieEdge {
    pub parent: usize,
    pub key: Value,
    pub child: usize,
}

/// A trie: `n_nodes` arena slots and the links among them.
#[derive(Clone, Debug)]
pub struct Trie {
    pub n_nodes: usize,
    pub edges: Vec<TrieEdge>,
}

/// The child that `v` maps to under node `n`, if any.
pub open spec fn find_child(edges: Seq<TrieEdge>, n: int, v: Value) -> Option<usize>
    decreases edges.len(),
{
    if edges.len() == 0 {
        None
    } else if edges.last().parent == n && edges.last().key == v {
        Some(edges.last().child)
    } else {
        find_child(edges.drop_last(), n, v)
    }
}

/// The keys of node `n`'s children, in insertion order.
pub open spec fn keys_of(edges: Seq<TrieEdge>, n: int) -> Seq<Value>
    decreases edges.len(),
{
    if edges.len() == 0 {
        Seq::empty()
    } else if edges.last().parent == n {
        keys_of(edges.drop_last(), n).push(edges.last().key)
    } else {
        keys_of(edges.drop_last(), n)
    }
}

/// The node reached from `n` by descending along `path`, if every key on the
/// way is present.
pub open spec fn walk(edges: Seq<TrieEdge>, n: int, path: Seq<Value>) -> Option<int>
    decreases path.len(),
{
    if path.len() == 0 {
        Some(n)
    } else {
        match find_child(edges, n, path[0]) {
            Some(c) => walk(edges, c as int, path.skip(1)),
            None => None,
        }
    }
}

/// A tuple projected onto the coordinates listed by `shuffle`, in order.
pub open spec fn project(shuffle: Seq<usize>, tuple: Seq<Value>) -> Seq<Value> {
    Seq::new(shuffle.len(), |k: int| tuple[shuffle[k] as int])
}

impl Trie {
    /// Arena well-formedness: links go from a real node to a strictly later
    /// one (so the structure is a forest growing away from the root), the
    /// sentinel has no children, no node maps one key twice, and no node has
    /// two parents.
    pub open spec fn wf(self) -> bool {
        &&& self.n_nodes == self.edges@.len() + 2
        &&& forall|i: int|
            0 <= i < self.edges@.len() ==> {
                &&& 1 <= (#[trigger] self.edges@[i]).parent
                &&& self.edges@[i].parent < self.edges@[i].child
                &&& self.edges@[i].child < self.n_nodes
            }
        &&& forall|i: int, j: int|
            0 <= i < j < self.edges@.len() ==> !((#[trigger] self.edges@[i]).parent
                == (#[trigger] self.edges@[j]).parent && self.edges@[i].key == self.edges@[j].key)
        &&& forall|i: int, j: int|
            0 <= i < j < self.edges@.len() ==> (#[trigger] self.edges@[i]).child != (
            #[trigger] self.edges@[j]).child
    }

    /// Is `path` a chain of keys descending from node `n`?
    pub open spec fn contains_path(self, n: int, path: Seq<Value>) -> bool {
        walk(self.edges@, n, path) is Some
    }

    /// A fresh trie: a root and the sentinel, no edges, hence no rows.
    pub fn new() -> (r: Trie)
        ensures
            r.wf(),
            r.edges@ == Seq::<TrieEdge>::empty(),
            r.n_nodes == 2,
    {
        Trie { n_nodes: 2, edges: Vec::new() }
    }

    /// The number of immediate children of node `n`.
    pub fn len(&self, n: usize) -> (r: usize)
        ensures
            r == keys_of(self.edges@, n as int).len(),
    {
        let mut r: usize = 0;
        let mut i: usize = 0;
        proof {
            assert(self.edges@.take(0) =~= Seq::<TrieEdge>::empty());
        }
        while i < self.edges.len()
            invariant
                i <= self.edges@.len(),
                r == keys_of(self.edges@.take(i as int), n as int).len(),
                r <= i,
            decreases self.edges@.len() - i,
        {
            proof {
                assert(self.edges@.take(i + 1).drop_last() =~= self.edges@.take(i as int));
                assert(self.edges@.take(i + 1).last() == self.edges@[i as int]);
            }
            if self.edges[i].parent == n {
                r = r + 1;
            }
            i = i + 1;
        }
        proof {
            assert(self.edges@.take(self.edges@.len() as int) =~= self.edges@);
        }
        r
    }

    /// The keys of node `n`'s children, in insertion order.
    pub fn keys(&self, n: usize) -> (r: Vec<Value>)
        ensures
            r@ == keys_of(self.edges@, n as int),
    {
        let mut r: Vec<Value> = Vec::new();
        let mut i: usize = 0;
        proof {
            assert(self.edges@.take(0) =~= Seq::<TrieEdge>::empty());
        }
        while i < self.edges.len()
            invariant
                i <= self.edges@.len(),
                r@ == keys_of(self.edges@.take(i as int), n as int),
            decreases self.edges@.len() - i,
        {
            proof {
                assert(self.edges@.take(i + 1).drop_last() =~= self.edges@.take(i as int));
                assert(self.edges@.take(i + 1).last() == self.edges@[i as int]);
            }
            if self.edges[i].parent == n {
                r.push(self.edges[i].key);
            }
            i = i + 1;
        }
        proof {
            assert(self.edges@.take(self.edges@.len() as int) =~= self.edges@);
        }
        r
    }

    /// Descend from node `n` by key `v`: the child if present, else the
    /// sentinel.
    pub fn get(&self, n: usize, v: Value) -> (r: usize)
        requires
            self.wf(),
        ensures
            match find_child(self.edges@, n as int, v) {
                Some(c) => r == c,
                None => r == EMPTY,
            },
            r == EMPTY <==> find_child(self.edges@, n as int, v) is None,
            r == EMPTY || r > n,
            r < self.n_nodes,
    {
        let mut i: usize = 0;
        while i < self.edges.len()
            invariant
                i <= self.edges@.len(),
                self.wf(),
                forall|j: int|
                    0 <= j < i ==> !((#[trigger] self.edges@[j]).parent == n as int
                        && self.edges@[j].key == v),
            decreases self.edges@.len() - i,
        {
            if self.edges[i].parent == n && self.edges[i].key == v {
                proof {
                    lemma_find_child_at(self.edges@, n as int, v, i as int);
                }
                return self.edges[i].child;
            }
            i = i + 1;
        }
        proof {
            lemma_find_child_none(self.edges@, n as int, v);
        }
        EMPTY
    }
}


/// The arena after walking `path` from node `cur`, descending into the
/// child keyed by each value and appending a fresh node where one is
/// missing. This is the whole effect of one insertion.
pub open spec fn insert_path(edges: Seq<TrieEdge>, cur: usize, path: Seq<Value>) -> Seq<TrieEdge>
    decreases path.len(),
{
    if path.len() == 0 {
        edges
    } else {
        match find_child(edges, cur as int, path[0]) {
            Some(c) => insert_path(edges, c, path.skip(1)),
            None => {
                let fresh = (edges.len() + 2) as usize;
                insert_path(
                    edges.push(TrieEdge { parent: cur, key: path[0], child: fresh }),
                    fresh,
                    path.skip(1),
                )
            },
        }
    }
}

impl Trie {
    /// Walk the projected coordinates of `tuple`, descending into or creating
    /// the child keyed by each coordinate's value in turn. A no-op when the
    /// arena cannot hold the new nodes (a size no real machine reaches).
    pub fn insert(&mut self, shuffle: &Vec<usize>, tuple: &Vec<Value>)
        requires
            old(self).wf(),
            forall|k: int| 0 <= k < shuffle@.len() ==> (#[trigger] shuffle@[k]) < tuple@.len(),
        ensures
            final(self).wf(),
            final(self).edges@.len() <= old(self).edges@.len() + shuffle@.len(),
            old(self).edges@.len() + shuffle@.len() + 2 <= usize::MAX ==> final(self).contains_path(
                ROOT as int,
                project(shuffle@, tuple@),
            ),
            forall|p: Seq<Value>|
                old(self).contains_path(ROOT as int, p) ==> walk(final(self).edges@, ROOT as int, p)
                    == walk(old(self).edges@, ROOT as int, p),
            keys_of(final(self).edges@, ROOT as int) == keys_of(old(self).edges@, ROOT as int) || (
            shuffle@.len() > 0 && keys_of(final(self).edges@, ROOT as int) == keys_of(
                old(self).edges@,
                ROOT as int,
            ).push(project(shuffle@, tuple@)[0])),
            old(self).edges@.len() + shuffle@.len() + 2 <= usize::MAX ==> final(self).edges@
                == insert_path(old(self).edges@, ROOT, project(shuffle@, tuple@)),
            (old(self).edges@.len() + shuffle@.len() + 2 <= usize::MAX && shuffle@.len() > 0)
                ==> keys_of(final(self).edges@, ROOT as int) == (if keys_of(
                old(self).edges@,
                ROOT as int,
            ).contains(project(shuffle@, tuple@)[0]) {
                keys_of(old(self).edges@, ROOT as int)
            } else {
                keys_of(old(self).edges@, ROOT as int).push(project(shuffle@, tuple@)[0])
            }),
            shuffle@.len() == 0 ==> *final(self) == *old(self),
    {
        if shuffle.len() == 0 {
            return ;
        }
        if self.edges.len() > usize::MAX - 2 || shuffle.len() > usize::MAX - 2 - self.edges.len() {
            return ;
        }
        let ghost t0 = *self;
        let ghost proj = project(shuffle@, tuple@);
        let mut cur: usize = ROOT;
        let mut k: usize = 0;
        proof {
            assert(proj.take(0) =~= Seq::<Value>::empty());
            assert(proj.skip(0) =~= proj);
        }
        while k < shuffle.len()
            invariant
                self.wf(),
                k <= shuffle@.len(),
                forall|j: int| 0 <= j < shuffle@.len() ==> (#[trigger] shuffle@[j]) < tuple@.len(),
                proj == project(shuffle@, tuple@),
                t0.edges@.len() + shuffle@.len() + 2 <= usize::MAX,
                self.edges@.len() <= t0.edges@.len() + k,
                1 <= cur < self.n_nodes,
                k > 0 ==> cur > 1,
                k == 0 ==> self.edges@ == t0.edges@,
                walk(self.edges@, ROOT as int, proj.take(k as int)) == Some(cur as int),
                insert_path(t0.edges@, ROOT, proj) == insert_path(
                    self.edges@,
                    cur,
                    proj.skip(k as int),
                ),
                forall|p: Seq<Value>|
                    t0.contains_path(ROOT as int, p) ==> walk(self.edges@, ROOT as int, p) == walk(
                        t0.edges@,
                        ROOT as int,
                        p,
                    ),
                keys_of(self.edges@, ROOT as int) == keys_of(t0.edges@, ROOT as int) || (
                proj.len() > 0 && keys_of(self.edges@, ROOT as int) == keys_of(
                    t0.edges@,
                    ROOT as int,
                ).push(proj[0])),
                k > 0 ==> keys_of(self.edges@, ROOT as int) == (if keys_of(
                    t0.edges@,
                    ROOT as int,
                ).contains(proj[0]) {
                    keys_of(t0.edges@, ROOT as int)
                } else {
                    keys_of(t0.edges@, ROOT as int).push(proj[0])
                }),
            decreases shuffle@.len() - k,
        {
            let v = tuple[shuffle[k]];
            proof {
                assert(proj[k as int] == v);
                assert(proj.take(k + 1) =~= proj.take(k as int) + seq![v]);
                assert(seq![v].skip(1) =~= Seq::<Value>::empty());
                assert(seq![v][0] == v);
                assert(seq![v].len() == 1);
                assert(proj.skip(k as int)[0] == v);
                assert(proj.skip(k as int).skip(1) =~= proj.skip(k + 1));
            }
            let c = self.get(cur, v);
            if c != EMPTY {
                proof {
                    assert(find_child(self.edges@, cur as int, v) == Some(c));
                    if k == 0 {
                        lemma_find_child_in_keys(self.edges@, cur as int, v);
                    }
                    assert(walk(self.edges@, c as int, seq![v].skip(1)) == Some(c as int));
                    assert(walk(self.edges@, cur as int, seq![v]) == Some(c as int));
                    lemma_walk_append(self.edges@, ROOT as int, proj.take(k as int), seq![v]);
                    assert(walk(self.edges@, ROOT as int, proj.take(k + 1)) == Some(c as int));
                    assert(insert_path(self.edges@, cur, proj.skip(k as int)) == insert_path(
                        self.edges@,
                        c,
                        proj.skip(k + 1),
                    ));
                }
                cur = c;
            } else {
                proof {
                    lemma_find_child_none_iff(self.edges@, cur as int, v);
                    if k == 0 {
                        lemma_keys_has_find(self.edges@, cur as int, v);
                        assert(!keys_of(self.edges@, ROOT as int).contains(v));
                    }
                }
                let e = TrieEdge { parent: cur, key: v, child: self.n_nodes };
                let ghost before = self.edges@;
                self.edges.push(e);
                self.n_nodes = self.n_nodes + 1;
                proof {
                    assert(self.edges@ == before.push(e));
                    lemma_find_child_push(before, e, cur as int, v);
                    assert forall|p: Seq<Value>| t0.contains_path(ROOT as int, p) implies walk(
                        self.edges@,
                        ROOT as int,
                        p,
                    ) == walk(t0.edges@, ROOT as int, p) by {
                        lemma_walk_push(before, e, ROOT as int, p);
                    }
                    lemma_walk_push(before, e, ROOT as int, proj.take(k as int));
                    assert(walk(self.edges@, ROOT as int, proj.take(k as int)) == Some(cur as int));
                    assert(find_child(self.edges@, cur as int, v) == Some(e.child));
                    assert(walk(self.edges@, e.child as int, seq![v].skip(1)) == Some(
                        e.child as int,
                    ));
                    assert(walk(self.edges@, cur as int, seq![v]) == Some(e.child as int));
                    lemma_walk_append(self.edges@, ROOT as int, proj.take(k as int), seq![v]);
                    assert(walk(self.edges@, ROOT as int, proj.take(k + 1)) == Some(
                        e.child as int,
                    ));
                    lemma_keys_push(before, e, ROOT as int);
                    if cur == 1 {
                        assert(k == 0);
                        assert(keys_of(self.edges@, ROOT as int) == keys_of(
                            t0.edges@,
                            ROOT as int,
                        ).push(proj[0]));
                    } else {
                        assert(keys_of(self.edges@, ROOT as int) == keys_of(before, ROOT as int));
                    }
                    assert(e.child == (before.len() + 2) as usize);
                    assert(insert_path(before, cur, proj.skip(k as int)) == insert_path(
                        before.push(e),
                        e.child,
                        proj.skip(k + 1),
                    ));
                }
                cur = e.child;
            }
            k = k + 1;
        }
        proof {
            assert(proj.take(shuffle@.len() as int) =~= proj);
            assert(proj.skip(shuffle@.len() as int) =~= Seq::<Value>::empty());
            assert(insert_path(self.edges@, cur, Seq::<Value>::empty()) == self.edges@);
        }
    }
}

/// Appending an edge changes lookups only for that edge's own parent and key.
proof fn lemma_find_child_push(edges: Seq<TrieEdge>, e: TrieEdge, n: int, v: Value)
    ensures
        find_child(edges.push(e), n, v) == if e.parent == n && e.key == v {
            Some(e.child)
        } else {
            find_child(edges, n, v)
        },
{
    assert(edges.push(e).drop_last() =~= edges);
    assert(edges.push(e).last() == e);
}

/// Appending an edge extends one node's key list and leaves the others.
proof fn lemma_keys_push(edges: Seq<TrieEdge>, e: TrieEdge, n: int)
    ensures
        keys_of(edges.push(e), n) == if e.parent == n {
            keys_of(edges, n).push(e.key)
        } else {
            keys_of(edges, n)
        },
{
    assert(edges.push(e).drop_last() =~= edges);
    assert(edges.push(e).last() == e);
}

/// Appending an edge whose `(parent, key)` slot was vacant preserves every
/// existing walk.
proof fn lemma_walk_push(edges: Seq<TrieEdge>, e: TrieEdge, n: int, p: Seq<Value>)
    requires
        find_child(edges, e.parent as int, e.key) is None,
    ensures
        walk(edges, n, p) is Some ==> walk(edges.push(e), n, p) == walk(edges, n, p),
    decreases p.len(),
{
    if p.len() > 0 && walk(edges, n, p) is Some {
        lemma_find_child_push(edges, e, n, p[0]);
        let c = find_child(edges, n, p[0])->Some_0;
        lemma_walk_push(edges, e, c as int, p.skip(1));
    }
}

/// Walking a concatenation walks the first part, then the second.
proof fn lemma_walk_append(edges: Seq<TrieEdge>, n: int, p1: Seq<Value>, p2: Seq<Value>)
    ensures
        walk(edges, n, p1 + p2) == match walk(edges, n, p1) {
            Some(m) => walk(edges, m, p2),
            None => None::<int>,
        },
    decreases p1.len(),
{
    if p1.len() == 0 {
        assert(p1 + p2 =~= p2);
    } else {
        assert((p1 + p2)[0] == p1[0]);
        assert((p1 + p2).skip(1) =~= p1.skip(1) + p2);
        match find_child(edges, n, p1[0]) {
            Some(c) => {
                lemma_walk_append(edges, c as int, p1.skip(1), p2);
                assert(walk(edges, n, p1 + p2) == walk(edges, c as int, p1.skip(1) + p2));
                assert(walk(edges, n, p1) == walk(edges, c as int, p1.skip(1)));
                assert(c as int == c);
            },
            None => {
                assert(walk(edges, n, p1 + p2) is None);
                assert(walk(edges, n, p1) is None);
            },
        }
    }
}

/// A lookup fails exactly when no edge fills the `(parent, key)` slot.
proof fn lemma_find_child_none_iff(edges: Seq<TrieEdge>, n: int, v: Value)
    ensures
        find_child(edges, n, v) is None <==> forall|j: int|
            0 <= j < edges.len() ==> !((#[trigger] edges[j]).parent == n && edges[j].key == v),
    decreases edges.len(),
{
    if edges.len() > 0 {
        lemma_find_child_none_iff(edges.drop_last(), n, v);
        assert(forall|j: int|
            0 <= j < edges.len() - 1 ==> (#[trigger] edges[j]) == edges.drop_last()[j]);
    }
}

/// A key in the node's key list is found by lookup.
pub proof fn lemma_keys_has_find(edges: Seq<TrieEdge>, n: int, v: Value)
    ensures
        keys_of(edges, n).contains(v) ==> find_child(edges, n, v) is Some,
    decreases edges.len(),
{
    if edges.len() > 0 && keys_of(edges, n).contains(v) {
        if edges.last().parent == n && edges.last().key == v {
        } else {
            if edges.last().parent == n {
                let ks = keys_of(edges, n);
                let prev = keys_of(edges.drop_last(), n);
                let i = choose|i: int| 0 <= i < ks.len() && ks[i] == v;
                assert(ks == prev.push(edges.last().key));
                assert(ks[ks.len() - 1] == edges.last().key);
                assert(i < prev.len());
                assert(prev[i] == v);
                assert(prev.contains(v));
            }
            lemma_keys_has_find(edges.drop_last(), n, v);
        }
    }
}

/// A key that a lookup finds stands in the node's key list.
pub proof fn lemma_find_child_in_keys(edges: Seq<TrieEdge>, n: int, v: Value)
    ensures
        find_child(edges, n, v) is Some ==> keys_of(edges, n).contains(v),
    decreases edges.len(),
{
    if edges.len() > 0 && find_child(edges, n, v) is Some {
        if edges.last().parent == n && edges.last().key == v {
            assert(keys_of(edges, n)[keys_of(edges, n).len() - 1] == v);
        } else {
            lemma_find_child_in_keys(edges.drop_last(), n, v);
            if find_child(edges.drop_last(), n, v) is Some {
                let i = choose|i: int|
                    0 <= i < keys_of(edges.drop_last(), n).len() && keys_of(
                        edges.drop_last(),
                        n,
                    )[i] == v;
                assert(keys_of(edges, n)[i] == v);
            }
        }
    }
}

/// With no duplicate `(parent, key)` pairs, a matching edge at position `i`
/// is the lookup result.
proof fn lemma_find_child_at(edges: Seq<TrieEdge>, n: int, v: Value, i: int)
    requires
        0 <= i < edges.len(),
        edges[i].parent == n,
        edges[i].key == v,
        forall|a: int, b: int|
            0 <= a < b < edges.len() ==> !((#[trigger] edges[a]).parent == (
            #[trigger] edges[b]).parent && edges[a].key == edges[b].key),
    ensures
        find_child(edges, n, v) == Some(edges[i].child),
    decreases edges.len(),
{
    if i == edges.len() - 1 {
    } else {
        assert(!(edges[i].parent == edges.last().parent && edges[i].key == edges.last().key));
        assert(edges.drop_last()[i] == edges[i]);
        lemma_find_child_at(edges.drop_last(), n, v, i);
    }
}

/// If no edge under `n` carries `v`, the lookup fails.
proof fn lemma_find_child_none(edges: Seq<TrieEdge>, n: int, v: Value)
    requires
        forall|j: int|
            0 <= j < edges.len() ==> !((#[trigger] edges[j]).parent == n && edges[j].key == v),
    ensures
        find_child(edges, n, v) is None,
    decreases edges.len(),
{
    if edges.len() > 0 {
        lemma_find_child_none(edges.drop_last(), n, v);
    }
}

} // verus!
