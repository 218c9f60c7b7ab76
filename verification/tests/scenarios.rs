use robdd::{Expr, Id, Node, Pool, Var};

#[test]
fn quantifying_first_variable_of_conjunction_leaves_second() {
    let mut pool = Pool::default();
    let a = Id::new(0);
    let b = Id::new(1);
    let va = pool.variable(a);
    let vb = pool.variable(b);
    let x = pool.and(va, vb);
    let without_a = pool.exists_var(a, x);
    assert_eq!(without_a, vb);
    let without_both = pool.exists_var(b, without_a);
    assert_eq!(without_both, Node::terminal(true));
}

#[test]
fn absorption_leads_to_the_same_node() {
    let mut pool = Pool::default();
    let va = pool.variable(Id::new(0));
    let vb = pool.variable(Id::new(1));
    let a_or_b = pool.or(va, vb);
    let not_a = pool.not(va);
    let left = pool.and(a_or_b, not_a);
    let not_a_again = pool.not(va);
    let right = pool.and(not_a_again, vb);
    assert_eq!(left, right);
}

#[test]
fn expressions_are_plain_trees() {
    let a = Var(String::from("a"));
    let b = Var(String::from("b"));
    assert!(a == Var(String::from("a")));
    assert!(a != b);
    let e = Expr::Exists(
        vec![Var(String::from("a"))],
        Box::new(Expr::And(
            Box::new(Expr::Var(a)),
            Box::new(Expr::Or(Box::new(Expr::Not(Box::new(Expr::Var(b)))), Box::new(Expr::Var(Var(String::from("c")))))),
        )),
    );
    match e {
        Expr::Exists(vars, body) => {
            assert_eq!(vars.len(), 1);
            assert!(matches!(*body, Expr::And(_, _)));
        }
        _ => panic!("not a quantifier"),
    }
}
