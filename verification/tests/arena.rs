use robdd::index_table::IndexTable;
use robdd::{Id, InternalNode, Node};

fn node(label: usize, lo: Node, hi: Node) -> InternalNode {
    InternalNode { label: Id::new(label), lo, hi }
}

#[test]
fn new_arena_is_empty() {
    let arena: IndexTable<InternalNode> = IndexTable::default();
    assert_eq!(arena.len(), 0);
    assert!(arena.values().is_empty());
}

#[test]
fn new_values_get_consecutive_handles() {
    let mut arena = IndexTable::default();
    let t = Node::terminal(true);
    let f = Node::terminal(false);
    assert_eq!(arena.get_or_insert(node(0, t, f)).get(), 0);
    assert_eq!(arena.get_or_insert(node(1, t, f)).get(), 1);
    assert_eq!(arena.get_or_insert(node(0, f, t)).get(), 2);
    assert_eq!(arena.len(), 3);
}

#[test]
fn equal_value_gets_the_same_handle() {
    let mut arena = IndexTable::default();
    let t = Node::terminal(true);
    let f = Node::terminal(false);
    let first = arena.get_or_insert(node(4, t, f));
    assert_eq!(arena.len(), 1);
    let second = arena.get_or_insert(node(4, t, f));
    assert_eq!(first, second);
    assert_eq!(arena.len(), 1);
}

#[test]
fn interning_adds_at_most_one_value() {
    let mut arena = IndexTable::default();
    let t = Node::terminal(true);
    let f = Node::terminal(false);
    for label in [0usize, 1, 0, 2, 1, 0, 3] {
        let before = arena.len();
        arena.get_or_insert(node(label, t, f));
        assert!(arena.len() <= before + 1);
        let after = arena.len();
        arena.get_or_insert(node(label, t, f));
        assert_eq!(arena.len(), after);
    }
    assert_eq!(arena.len(), 4);
}

#[test]
fn handle_leads_back_to_the_value() {
    let mut arena = IndexTable::default();
    let t = Node::terminal(true);
    let f = Node::terminal(false);
    let a = arena.get_or_insert(node(7, t, f));
    let b = arena.get_or_insert(node(8, f, t));
    assert_eq!(*arena.index(a), node(7, t, f));
    assert_eq!(*arena.index(b), node(8, f, t));
    assert_eq!(arena.values()[a.get()], node(7, t, f));
}

#[test]
fn values_that_differ_in_one_field_are_kept_apart() {
    let mut arena = IndexTable::default();
    let t = Node::terminal(true);
    let f = Node::terminal(false);
    let base = arena.get_or_insert(node(1, t, f));
    let other_label = arena.get_or_insert(node(2, t, f));
    let other_lo = arena.get_or_insert(node(1, f, f));
    let other_hi = arena.get_or_insert(node(1, t, t));
    assert_eq!(arena.len(), 4);
    assert_ne!(base, other_label);
    assert_ne!(base, other_lo);
    assert_ne!(base, other_hi);
}

#[test]
fn handles_stay_valid_while_the_arena_grows() {
    let mut arena = IndexTable::default();
    let t = Node::terminal(true);
    let f = Node::terminal(false);
    let count = 5000usize;
    let mut handles = Vec::new();
    for label in 0..count {
        let id = arena.get_or_insert(node(label, t, f));
        assert_eq!(id.get(), label);
        handles.push(id);
    }
    assert_eq!(arena.len(), count);
    for label in 0..count {
        let again = arena.get_or_insert(node(label, t, f));
        assert_eq!(again, handles[label]);
        assert_eq!(*arena.index(again), node(label, t, f));
    }
    assert_eq!(arena.len(), count);
}

#[test]
fn no_value_is_stored_twice() {
    let mut arena = IndexTable::default();
    let t = Node::terminal(true);
    let f = Node::terminal(false);
    for round in 0..3usize {
        for label in 0..200usize {
            arena.get_or_insert(node(label % 50, t, f));
            arena.get_or_insert(node(label % 50, f, t));
        }
        assert_eq!(arena.len(), 100, "round {}", round);
    }
    let values = arena.values();
    for i in 0..values.len() {
        for j in (i + 1)..values.len() {
            assert_ne!(values[i], values[j]);
        }
    }
}
