use robdd::{Id, Node, NodeKind, Pool, Var};

fn handle(index: usize) -> Id<Var> {
    Id::new(index)
}

fn position(n: Node) -> usize {
    match n.kind() {
        NodeKind::Internal(id) => id.get(),
        other => panic!("not an internal node: {:?}", other),
    }
}

#[test]
fn new_pool_remembers_nothing() {
    let pool = Pool::default();
    assert!(pool.not_cache().is_empty());
    assert!(pool.and_cache().is_empty());
    assert!(pool.or_cache().is_empty());
    assert!(pool.exists_cache().is_empty());
}

#[test]
fn building_nodes_leaves_the_memo_tables_alone() {
    let mut pool = Pool::default();
    let a = pool.variable(handle(1));
    pool.new_node(handle(0), a, Node::terminal(true));
    assert!(pool.not_cache().is_empty());
    assert!(pool.and_cache().is_empty());
    assert!(pool.or_cache().is_empty());
    assert!(pool.exists_cache().is_empty());
}

#[test]
fn not_remembers_its_result_for_the_operand() {
    let mut pool = Pool::default();
    let a = pool.variable(handle(0));
    let b = pool.variable(handle(1));
    let x = pool.new_node(handle(0), b, Node::terminal(false));
    let r = pool.not(x);
    assert_eq!(pool.not_cache().get(&position(x)), Some(&r));
    let not_b = pool.not(b);
    assert_eq!(pool.not_cache().get(&position(b)), Some(&not_b));
    assert_eq!(pool.not_cache().get(&position(a)), None);
    assert_eq!(pool.not_cache().len(), 2);
    assert!(pool.and_cache().is_empty());
    assert!(pool.or_cache().is_empty());
    assert!(pool.exists_cache().is_empty());
}

#[test]
fn not_of_a_terminal_is_not_remembered() {
    let mut pool = Pool::default();
    pool.not(Node::terminal(true));
    pool.not(Node::terminal(false));
    assert!(pool.not_cache().is_empty());
}

#[test]
fn and_remembers_its_result_under_the_ordered_pair() {
    let mut pool = Pool::default();
    let a = pool.variable(handle(0));
    let b = pool.variable(handle(1));
    let r = pool.and(b, a);
    assert_eq!(pool.and_cache().get(&(position(a), position(b))), Some(&r));
    assert_eq!(pool.and_cache().get(&(position(b), position(a))), None);
    assert_eq!(pool.and(a, b), r);
    assert_eq!(pool.and_cache().len(), 1);
    assert!(pool.or_cache().is_empty());
    assert!(pool.not_cache().is_empty());
}

#[test]
fn pair_with_equal_labels_is_ordered_by_position() {
    let mut pool = Pool::default();
    let b = pool.variable(handle(1));
    let c = pool.variable(handle(2));
    let first = pool.new_node(handle(0), b, Node::terminal(false));
    let second = pool.new_node(handle(0), c, Node::terminal(false));
    assert!(position(first) < position(second));
    let r = pool.or(second, first);
    assert_eq!(pool.or_cache().get(&(position(first), position(second))), Some(&r));
    assert_eq!(pool.or_cache().get(&(position(second), position(first))), None);
    assert_eq!(pool.or(first, second), r);
}

#[test]
fn pair_is_ordered_by_label_before_position() {
    let mut pool = Pool::default();
    let late = pool.variable(handle(9));
    let early = pool.variable(handle(2));
    assert!(position(late) < position(early));
    let r = pool.or(late, early);
    assert_eq!(pool.or_cache().get(&(position(early), position(late))), Some(&r));
    assert_eq!(pool.or_cache().get(&(position(late), position(early))), None);
}

#[test]
fn shortcuts_are_not_remembered() {
    let mut pool = Pool::default();
    let a = pool.variable(handle(0));
    pool.and(a, a);
    pool.and(a, Node::terminal(true));
    pool.and(Node::terminal(false), a);
    pool.or(a, a);
    pool.or(a, Node::terminal(false));
    pool.or(Node::terminal(true), a);
    assert!(pool.and_cache().is_empty());
    assert!(pool.or_cache().is_empty());
}

#[test]
fn exists_remembers_only_what_it_rebuilt() {
    let mut pool = Pool::default();
    let a = pool.variable(handle(0));
    let b = pool.variable(handle(1));
    let c = pool.variable(handle(2));
    let bc = pool.and(b, c);
    let x = pool.and(a, bc);

    pool.exists_var(handle(0), bc);
    assert!(pool.exists_cache().is_empty());

    pool.exists_var(handle(0), x);
    assert!(pool.exists_cache().is_empty());

    let r = pool.exists_var(handle(1), x);
    assert_eq!(pool.exists_cache().get(&(1, position(x))), Some(&r));
    assert_eq!(pool.exists_cache().len(), 1);
}

#[test]
fn exists_many_takes_the_variables_in_ascending_order() {
    let mut pool = Pool::default();
    let a = pool.variable(handle(0));
    let b = pool.variable(handle(1));
    let c = pool.variable(handle(2));
    let d = pool.variable(handle(3));
    let cd = pool.and(c, d);
    let bcd = pool.and(b, cd);
    let x = pool.and(a, bcd);
    pool.exists_many(vec![handle(3), handle(2)], x);
    assert!(pool.exists_cache().contains_key(&(2, position(x))));
    assert!(!pool.exists_cache().contains_key(&(3, position(x))));
}

#[test]
fn exists_many_sorted_takes_the_variables_as_given() {
    let mut pool = Pool::default();
    let a = pool.variable(handle(0));
    let b = pool.variable(handle(1));
    let c = pool.variable(handle(2));
    let d = pool.variable(handle(3));
    let cd = pool.and(c, d);
    let bcd = pool.and(b, cd);
    let x = pool.and(a, bcd);
    pool.exists_many_sorted(vec![handle(3), handle(2)], x);
    assert!(pool.exists_cache().contains_key(&(3, position(x))));
    assert!(!pool.exists_cache().contains_key(&(2, position(x))));
}

#[test]
fn memo_tables_only_grow() {
    let mut pool = Pool::default();
    let a = pool.variable(handle(0));
    let b = pool.variable(handle(1));
    let c = pool.variable(handle(2));
    let ab = pool.and(a, b);
    let kept: Vec<((usize, usize), Node)> =
        pool.and_cache().iter().map(|(k, v)| (*k, *v)).collect();
    let abc = pool.and(ab, c);
    pool.or(abc, a);
    pool.not(abc);
    pool.exists_var(handle(2), abc);
    for (key, result) in kept {
        assert_eq!(pool.and_cache().get(&key), Some(&result));
    }
}
