use gjoin::trie::{Trie, EMPTY, ROOT};
use gjoin::value::Value;

const INT: u64 = 100;

fn v(n: i64) -> Value {
    Value { tag: INT, bits: n as u64 }
}

#[test]
fn insert_builds_nested_levels() {
    let mut t = Trie::new();
    t.insert(&vec![0, 1], &vec![v(1), v(2)]);
    assert_eq!(t.len(ROOT), 1);
    let c = t.get(ROOT, v(1));
    assert_ne!(c, EMPTY);
    assert_eq!(t.len(c), 1);
    assert_ne!(t.get(c, v(2)), EMPTY);
    assert_eq!(t.get(c, v(3)), EMPTY);
}

#[test]
fn insert_is_idempotent() {
    let mut t = Trie::new();
    t.insert(&vec![0, 1], &vec![v(1), v(2)]);
    let edges_once = t.edges.len();
    t.insert(&vec![0, 1], &vec![v(1), v(2)]);
    assert_eq!(t.edges.len(), edges_once);
    assert_eq!(t.len(ROOT), 1);
}

#[test]
fn insert_shares_common_prefixes() {
    let mut t = Trie::new();
    t.insert(&vec![0, 1], &vec![v(1), v(2)]);
    t.insert(&vec![0, 1], &vec![v(1), v(3)]);
    t.insert(&vec![0, 1], &vec![v(4), v(5)]);
    // one root child per distinct first coordinate, shared below
    assert_eq!(t.len(ROOT), 2);
    let c1 = t.get(ROOT, v(1));
    assert_eq!(t.len(c1), 2);
    assert_eq!(t.edges.len(), 5);
}

#[test]
fn projection_reorders_coordinates() {
    let mut t = Trie::new();
    t.insert(&vec![1, 0], &vec![v(7), v(8)]);
    let c = t.get(ROOT, v(8));
    assert_ne!(c, EMPTY);
    assert_ne!(t.get(c, v(7)), EMPTY);
}

#[test]
fn empty_projection_inserts_nothing() {
    let mut t = Trie::new();
    t.insert(&vec![], &vec![v(1), v(2)]);
    assert_eq!(t.len(ROOT), 0);
    assert_eq!(t.edges.len(), 0);
}
