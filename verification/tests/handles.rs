use robdd::index_table::Interned;
use robdd::{Id, InternalNode, Node, NodeKind, Var};
use std::cmp::Ordering;
use std::collections::HashSet;
use std::hash::Hasher;

#[test]
fn id_new_then_get_gives_the_index() {
    assert_eq!(Id::<Var>::new(0).get(), 0);
    assert_eq!(Id::<Var>::new(17).get(), 17);
    assert_eq!(Id::<Var>::new(usize::MAX).get(), usize::MAX);
}

#[test]
fn ids_are_equal_exactly_when_their_indices_are() {
    assert!(Id::<Var>::new(3) == Id::<Var>::new(3));
    assert!(Id::<Var>::new(3) != Id::<Var>::new(4));
    assert!(Id::<InternalNode>::new(0) == Id::<InternalNode>::new(0));
}

#[test]
fn ids_are_ordered_by_index() {
    let small = Id::<Var>::new(2);
    let large = Id::<Var>::new(9);
    assert!(small < large);
    assert!(large > small);
    assert!(small <= small);
    assert_eq!(small.partial_cmp(&large), Some(Ordering::Less));
    assert_eq!(large.partial_cmp(&small), Some(Ordering::Greater));
    assert_eq!(small.partial_cmp(&small), Some(Ordering::Equal));
}

#[test]
fn ids_are_copied_not_moved() {
    let id = Id::<Var>::new(5);
    let copy = id;
    let clone = id.clone();
    assert_eq!(id.get(), 5);
    assert_eq!(copy.get(), 5);
    assert_eq!(clone.get(), 5);
}

#[test]
fn ids_hash_by_index() {
    let mut seen = HashSet::new();
    seen.insert(Id::<Var>::new(1));
    seen.insert(Id::<Var>::new(2));
    seen.insert(Id::<Var>::new(1));
    assert_eq!(seen.len(), 2);
    assert!(seen.contains(&Id::new(2)));
    assert!(!seen.contains(&Id::new(3)));
}

#[test]
fn terminals_have_their_kinds() {
    assert_eq!(Node::terminal(true).kind(), NodeKind::True);
    assert_eq!(Node::terminal(false).kind(), NodeKind::False);
    assert_ne!(Node::terminal(true), Node::terminal(false));
}

#[test]
fn internal_handle_has_internal_kind() {
    let n = Node::from_id(Id::new(0));
    assert_eq!(n.kind(), NodeKind::Internal(Id::new(0)));
    let m = Node::from_id(Id::new(41));
    assert_eq!(m.kind(), NodeKind::Internal(Id::new(41)));
    assert_ne!(n, m);
    assert_ne!(n, Node::terminal(true));
    assert_ne!(n, Node::terminal(false));
}

#[test]
fn largest_internal_handle_is_not_a_terminal() {
    let last = isize::MAX as usize - 1;
    let n = Node::from_id(Id::new(last));
    assert_eq!(n.kind(), NodeKind::Internal(Id::new(last)));
}

#[test]
fn from_kind_inverts_kind() {
    for kind in [
        NodeKind::True,
        NodeKind::False,
        NodeKind::Internal(Id::new(0)),
        NodeKind::Internal(Id::new(123_456)),
    ] {
        assert_eq!(Node::from_kind(kind).kind(), kind);
    }
    for node in [Node::terminal(true), Node::terminal(false), Node::from_id(Id::new(7))] {
        assert_eq!(Node::from_kind(node.kind()), node);
    }
}

#[test]
fn nodes_hash_and_compare_as_values() {
    let mut seen = HashSet::new();
    seen.insert(Node::terminal(true));
    seen.insert(Node::terminal(false));
    seen.insert(Node::from_id(Id::new(3)));
    seen.insert(Node::from_id(Id::new(3)));
    assert_eq!(seen.len(), 3);
}

#[test]
fn fingerprint_is_the_fx_hash_of_label_and_children() {
    let node = InternalNode {
        label: Id::new(3),
        lo: Node::terminal(true),
        hi: Node::from_id(Id::new(7)),
    };
    let mut hasher = rustc_hash::FxHasher::default();
    hasher.write_usize(3);
    hasher.write_usize(usize::MAX);
    hasher.write_usize(7);
    assert_eq!(node.fingerprint(), hasher.finish());

    let other = InternalNode {
        label: Id::new(3),
        lo: Node::terminal(false),
        hi: Node::from_id(Id::new(7)),
    };
    let mut hasher = rustc_hash::FxHasher::default();
    hasher.write_usize(3);
    hasher.write_usize(usize::MAX - 1);
    hasher.write_usize(7);
    assert_eq!(other.fingerprint(), hasher.finish());
    assert_ne!(node.fingerprint(), other.fingerprint());
}

#[test]
fn fingerprint_depends_on_the_value_alone() {
    let make = || InternalNode {
        label: Id::new(11),
        lo: Node::from_id(Id::new(2)),
        hi: Node::terminal(false),
    };
    assert_eq!(make().fingerprint(), make().fingerprint());
}

#[test]
fn same_compares_all_three_fields() {
    let base = InternalNode {
        label: Id::new(1),
        lo: Node::terminal(true),
        hi: Node::terminal(false),
    };
    assert!(base.same(&base));
    assert!(base.same(&InternalNode { ..base }));
    assert!(!base.same(&InternalNode { label: Id::new(2), ..base }));
    assert!(!base.same(&InternalNode { lo: Node::terminal(false), ..base }));
    assert!(!base.same(&InternalNode { hi: Node::terminal(true), ..base }));
    assert_eq!(base, InternalNode { ..base });
}
