//! What the operators of a pool compute, stated over the functions that nodes denote.
//!
//! Each relation says of a node `r` that it is a node of the arena, that it denotes a given
//! combination of the functions of the operands, and that it tests no variable before those
//! that the operands test. In a canonical arena at most one node does: see
//! [`lemma_canonical`](crate::bdd::diagram::lemma_canonical).

use crate::bdd::diagram::eval;
use crate::bdd::diagram::extends;
use crate::bdd::diagram::in_range;
use crate::bdd::diagram::lemma_eval_children;
use crate::bdd::diagram::lemma_eval_extends;
use crate::bdd::diagram::lemma_eval_skips;
use crate::bdd::diagram::level;
use crate::bdd::diagram::node_of;
use crate::bdd::diagram::well_formed;
use crate::bdd::node::InternalNode;
use crate::bdd::node::Node;
use crate::expr::Var;
use crate::index_table::Id;
use vstd::prelude::*;

verus! {

/// Whether `r` denotes the function that is that of `hi` where `v` is true and that of `lo`
/// where it is false.
pub open spec fn decides(nodes: Seq<InternalNode>, v: usize, lo: Node, hi: Node, r: Node) -> bool {
    forall|truths: Set<usize>| #[trigger]
        eval(nodes, r, truths) == (if truths.contains(v) {
            eval(nodes, hi, truths)
        } else {
            eval(nodes, lo, truths)
        })
}

/// Whether `r` is a node of the arena that denotes the negation of `x`, and tests no variable
/// before those that `x` tests.
pub open spec fn is_not(nodes: Seq<InternalNode>, x: Node, r: Node) -> bool {
    &&& in_range(nodes, r)
    &&& level(nodes, x) <= level(nodes, r)
    &&& forall|truths: Set<usize>| #[trigger] eval(nodes, r, truths) == !eval(nodes, x, truths)
}

/// Whether `r` is a node of the arena that denotes the conjunction of `x` and `y`, and tests
/// no variable before those that `x` and `y` test.
pub open spec fn is_and(nodes: Seq<InternalNode>, x: Node, y: Node, r: Node) -> bool {
    &&& in_range(nodes, r)
    &&& level(nodes, x) <= level(nodes, r) || level(nodes, y) <= level(nodes, r)
    &&& forall|truths: Set<usize>| #[trigger]
        eval(nodes, r, truths) == (eval(nodes, x, truths) && eval(nodes, y, truths))
}

/// Whether `r` is a node of the arena that denotes the disjunction of `x` and `y`, and tests
/// no variable before those that `x` and `y` test.
pub open spec fn is_or(nodes: Seq<InternalNode>, x: Node, y: Node, r: Node) -> bool {
    &&& in_range(nodes, r)
    &&& level(nodes, x) <= level(nodes, r) || level(nodes, y) <= level(nodes, r)
    &&& forall|truths: Set<usize>| #[trigger]
        eval(nodes, r, truths) == (eval(nodes, x, truths) || eval(nodes, y, truths))
}

/// Whether `r` is a node of the arena that denotes `x` with the variable `v` quantified away:
/// the function that is true where `x` is true for some value of `v`. It tests no variable
/// before those that `x` tests.
pub open spec fn is_exists(nodes: Seq<InternalNode>, v: usize, x: Node, r: Node) -> bool {
    &&& in_range(nodes, r)
    &&& level(nodes, x) <= level(nodes, r)
    &&& forall|truths: Set<usize>| #[trigger]
        eval(nodes, r, truths) == (eval(nodes, x, truths.insert(v)) || eval(
            nodes,
            x,
            truths.remove(v),
        ))
}

/// Whether the two assignments agree on every variable outside `vars`.
pub open spec fn agree_outside(a: Set<usize>, b: Set<usize>, vars: Set<usize>) -> bool {
    forall|v: usize|
        #![trigger a.contains(v)]
        #![trigger b.contains(v)]
        !vars.contains(v) ==> (a.contains(v) <==> b.contains(v))
}

/// Whether `x` is true under some assignment that differs from `truths` only on `vars`.
pub open spec fn holds_for_some(
    nodes: Seq<InternalNode>,
    vars: Set<usize>,
    x: Node,
    truths: Set<usize>,
) -> bool {
    exists|other: Set<usize>| agree_outside(truths, other, vars) && #[trigger] eval(nodes, x, other)
}

/// Whether `r` is a node of the arena that denotes `x` with the variables of `vars` quantified
/// away, and tests no variable before those that `x` tests.
pub open spec fn is_exists_many(
    nodes: Seq<InternalNode>,
    vars: Set<usize>,
    x: Node,
    r: Node,
) -> bool {
    &&& in_range(nodes, r)
    &&& level(nodes, x) <= level(nodes, r)
    &&& forall|truths: Set<usize>| #[trigger]
        eval(nodes, r, truths) == holds_for_some(nodes, vars, x, truths)
}

/// The variables that a sequence of handles names.
pub open spec fn label_set(labels: Seq<Id<Var>>) -> Set<usize> {
    labels.map_values(|label: Id<Var>| label@).to_set()
}

/// The order in which a binary operator takes two internal nodes: by the variables they test,
/// and by position where they test the same.
pub open spec fn in_order(nodes: Seq<InternalNode>, i: usize, j: usize) -> bool {
    let first = nodes[i as int].label@;
    let second = nodes[j as int].label@;
    first < second || (first == second && i <= j)
}

/// The positions of two internal nodes, in the order in which a binary operator takes them.
pub open spec fn ordered_pair(nodes: Seq<InternalNode>, x: Node, y: Node) -> (usize, usize) {
    let i = x@->Internal_0@;
    let j = y@->Internal_0@;
    if in_order(nodes, i, j) {
        (i, j)
    } else {
        (j, i)
    }
}

/// A negation stays one when the arena grows.
pub proof fn lemma_not_extends(
    before: Seq<InternalNode>,
    after: Seq<InternalNode>,
    x: Node,
    r: Node,
)
    requires
        extends(before, after),
        in_range(before, x),
        is_not(before, x, r),
    ensures
        is_not(after, x, r),
{
    assert forall|truths: Set<usize>| #[trigger]
        eval(after, r, truths) == !eval(after, x, truths) by {
        lemma_eval_extends(before, after, r, truths);
        lemma_eval_extends(before, after, x, truths);
    }
}

/// A conjunction stays one when the arena grows.
pub proof fn lemma_and_extends(
    before: Seq<InternalNode>,
    after: Seq<InternalNode>,
    x: Node,
    y: Node,
    r: Node,
)
    requires
        extends(before, after),
        in_range(before, x),
        in_range(before, y),
        is_and(before, x, y, r),
    ensures
        is_and(after, x, y, r),
{
    assert forall|truths: Set<usize>| #[trigger]
        eval(after, r, truths) == (eval(after, x, truths) && eval(after, y, truths)) by {
        lemma_eval_extends(before, after, r, truths);
        lemma_eval_extends(before, after, x, truths);
        lemma_eval_extends(before, after, y, truths);
    }
}

/// A disjunction stays one when the arena grows.
pub proof fn lemma_or_extends(
    before: Seq<InternalNode>,
    after: Seq<InternalNode>,
    x: Node,
    y: Node,
    r: Node,
)
    requires
        extends(before, after),
        in_range(before, x),
        in_range(before, y),
        is_or(before, x, y, r),
    ensures
        is_or(after, x, y, r),
{
    assert forall|truths: Set<usize>| #[trigger]
        eval(after, r, truths) == (eval(after, x, truths) || eval(after, y, truths)) by {
        lemma_eval_extends(before, after, r, truths);
        lemma_eval_extends(before, after, x, truths);
        lemma_eval_extends(before, after, y, truths);
    }
}

/// A node with a variable quantified away stays one when the arena grows.
pub proof fn lemma_exists_extends(
    before: Seq<InternalNode>,
    after: Seq<InternalNode>,
    v: usize,
    x: Node,
    r: Node,
)
    requires
        extends(before, after),
        in_range(before, x),
        is_exists(before, v, x, r),
    ensures
        is_exists(after, v, x, r),
{
    assert forall|truths: Set<usize>| #[trigger]
        eval(after, r, truths) == (eval(after, x, truths.insert(v)) || eval(
            after,
            x,
            truths.remove(v),
        )) by {
        lemma_eval_extends(before, after, r, truths);
        lemma_eval_extends(before, after, x, truths.insert(v));
        lemma_eval_extends(before, after, x, truths.remove(v));
    }
}

/// A node with variables quantified away stays one when the arena grows.
pub proof fn lemma_exists_many_extends(
    before: Seq<InternalNode>,
    after: Seq<InternalNode>,
    vars: Set<usize>,
    x: Node,
    r: Node,
)
    requires
        extends(before, after),
        in_range(before, x),
        is_exists_many(before, vars, x, r),
    ensures
        is_exists_many(after, vars, x, r),
{
    assert forall|truths: Set<usize>| #[trigger]
        eval(after, r, truths) == holds_for_some(after, vars, x, truths) by {
        lemma_eval_extends(before, after, r, truths);
        assert(eval(before, r, truths) == holds_for_some(before, vars, x, truths));
        if holds_for_some(before, vars, x, truths) {
            let other = choose|other: Set<usize>|
                agree_outside(truths, other, vars) && #[trigger] eval(before, x, other);
            lemma_eval_extends(before, after, x, other);
        }
        if holds_for_some(after, vars, x, truths) {
            let other = choose|other: Set<usize>|
                agree_outside(truths, other, vars) && #[trigger] eval(after, x, other);
            lemma_eval_extends(before, after, x, other);
        }
    }
}

/// The negation of an internal node: the node that decides, on the same variable, between
/// the negations of the children.
pub proof fn lemma_not_node(nodes: Seq<InternalNode>, x: Node, lo: Node, hi: Node, r: Node)
    requires
        well_formed(nodes),
        in_range(nodes, x),
        x@ is Internal,
        is_not(nodes, node_of(nodes, x).lo, lo),
        is_not(nodes, node_of(nodes, x).hi, hi),
        decides(nodes, node_of(nodes, x).label@, lo, hi, r),
        in_range(nodes, r),
        level(nodes, x) <= level(nodes, r),
    ensures
        is_not(nodes, x, r),
{
    assert forall|truths: Set<usize>| #[trigger]
        eval(nodes, r, truths) == !eval(nodes, x, truths) by {
        lemma_eval_children(nodes, x, truths);
    }
}

/// The conjunction of two internal nodes, the first of which tests no later variable than the
/// second: the node that decides, on the variable of the first, between the conjunctions of the
/// children on each side. Where the second tests a later variable, it is its own child on
/// both sides.
pub proof fn lemma_and_node(
    nodes: Seq<InternalNode>,
    x: Node,
    y: Node,
    lo: Node,
    hi: Node,
    r: Node,
)
    requires
        well_formed(nodes),
        in_range(nodes, x),
        in_range(nodes, y),
        x@ is Internal,
        y@ is Internal,
        level(nodes, x) <= level(nodes, y),
        level(nodes, x) == level(nodes, y) ==> is_and(
            nodes,
            node_of(nodes, x).lo,
            node_of(nodes, y).lo,
            lo,
        ) && is_and(nodes, node_of(nodes, x).hi, node_of(nodes, y).hi, hi),
        level(nodes, x) < level(nodes, y) ==> is_and(nodes, node_of(nodes, x).lo, y, lo)
            && is_and(nodes, node_of(nodes, x).hi, y, hi),
        decides(nodes, node_of(nodes, x).label@, lo, hi, r),
        in_range(nodes, r),
        level(nodes, x) <= level(nodes, r),
    ensures
        is_and(nodes, x, y, r),
{
    assert forall|truths: Set<usize>| #[trigger]
        eval(nodes, r, truths) == (eval(nodes, x, truths) && eval(nodes, y, truths)) by {
        lemma_eval_children(nodes, x, truths);
        lemma_eval_children(nodes, y, truths);
    }
}

/// The disjunction of two internal nodes, the first of which tests no later variable than the
/// second: the node that decides, on the variable of the first, between the disjunctions of the
/// children on each side. Where the second tests a later variable, it is its own child on
/// both sides.
pub proof fn lemma_or_node(
    nodes: Seq<InternalNode>,
    x: Node,
    y: Node,
    lo: Node,
    hi: Node,
    r: Node,
)
    requires
        well_formed(nodes),
        in_range(nodes, x),
        in_range(nodes, y),
        x@ is Internal,
        y@ is Internal,
        level(nodes, x) <= level(nodes, y),
        level(nodes, x) == level(nodes, y) ==> is_or(
            nodes,
            node_of(nodes, x).lo,
            node_of(nodes, y).lo,
            lo,
        ) && is_or(nodes, node_of(nodes, x).hi, node_of(nodes, y).hi, hi),
        level(nodes, x) < level(nodes, y) ==> is_or(nodes, node_of(nodes, x).lo, y, lo) && is_or(
            nodes,
            node_of(nodes, x).hi,
            y,
            hi,
        ),
        decides(nodes, node_of(nodes, x).label@, lo, hi, r),
        in_range(nodes, r),
        level(nodes, x) <= level(nodes, r),
    ensures
        is_or(nodes, x, y, r),
{
    assert forall|truths: Set<usize>| #[trigger]
        eval(nodes, r, truths) == (eval(nodes, x, truths) || eval(nodes, y, truths)) by {
        lemma_eval_children(nodes, x, truths);
        lemma_eval_children(nodes, y, truths);
    }
}

/// Quantifying away a variable that comes before every variable a node tests leaves the node
/// as it is.
pub proof fn lemma_exists_skips(nodes: Seq<InternalNode>, v: usize, x: Node)
    requires
        well_formed(nodes),
        in_range(nodes, x),
        v < level(nodes, x),
    ensures
        is_exists(nodes, v, x, x),
{
    assert forall|truths: Set<usize>| #[trigger]
        eval(nodes, x, truths) == (eval(nodes, x, truths.insert(v)) || eval(
            nodes,
            x,
            truths.remove(v),
        )) by {
        lemma_eval_skips(nodes, x, truths, v);
    }
}

/// Quantifying away the variable that an internal node tests gives the disjunction of its
/// children.
pub proof fn lemma_exists_at_root(nodes: Seq<InternalNode>, x: Node, r: Node)
    requires
        well_formed(nodes),
        in_range(nodes, x),
        x@ is Internal,
        is_or(nodes, node_of(nodes, x).lo, node_of(nodes, x).hi, r),
    ensures
        is_exists(nodes, node_of(nodes, x).label@, x, r),
{
    let v = node_of(nodes, x).label@;
    lemma_eval_children(nodes, x, Set::empty());
    assert forall|truths: Set<usize>| #[trigger]
        eval(nodes, r, truths) == (eval(nodes, x, truths.insert(v)) || eval(
            nodes,
            x,
            truths.remove(v),
        )) by {
        lemma_eval_children(nodes, x, truths);
    }
}

/// Quantifying a variable away from an internal node that tests an earlier one: the node that
/// decides, on the variable that is tested, between the children with the variable quantified
/// away.
pub proof fn lemma_exists_node(
    nodes: Seq<InternalNode>,
    v: usize,
    x: Node,
    lo: Node,
    hi: Node,
    r: Node,
)
    requires
        well_formed(nodes),
        in_range(nodes, x),
        x@ is Internal,
        node_of(nodes, x).label@ != v,
        is_exists(nodes, v, node_of(nodes, x).lo, lo),
        is_exists(nodes, v, node_of(nodes, x).hi, hi),
        decides(nodes, node_of(nodes, x).label@, lo, hi, r),
        in_range(nodes, r),
        level(nodes, x) <= level(nodes, r),
    ensures
        is_exists(nodes, v, x, r),
{
    assert forall|truths: Set<usize>| #[trigger]
        eval(nodes, r, truths) == (eval(nodes, x, truths.insert(v)) || eval(
            nodes,
            x,
            truths.remove(v),
        )) by {
        lemma_eval_children(nodes, x, truths.insert(v));
        lemma_eval_children(nodes, x, truths.remove(v));
    }
}

/// Quantifying away no variable leaves a node as it is.
pub proof fn lemma_exists_none(nodes: Seq<InternalNode>, x: Node)
    requires
        in_range(nodes, x),
    ensures
        is_exists_many(nodes, Set::empty(), x, x),
{
    let vars = Set::<usize>::empty();
    assert forall|truths: Set<usize>| #[trigger]
        eval(nodes, x, truths) == holds_for_some(nodes, vars, x, truths) by {
        if eval(nodes, x, truths) {
            assert(agree_outside(truths, truths, vars));
        }
        if holds_for_some(nodes, vars, x, truths) {
            let other = choose|other: Set<usize>|
                agree_outside(truths, other, vars) && #[trigger] eval(nodes, x, other);
            assert(other =~= truths);
        }
    }
}

/// Quantifying away one more variable.
pub proof fn lemma_exists_one_more(
    nodes: Seq<InternalNode>,
    vars: Set<usize>,
    v: usize,
    x: Node,
    r: Node,
    next: Node,
)
    requires
        is_exists_many(nodes, vars, x, r),
        is_exists(nodes, v, r, next),
    ensures
        is_exists_many(nodes, vars.insert(v), x, next),
{
    let more = vars.insert(v);
    assert forall|truths: Set<usize>| #[trigger]
        eval(nodes, next, truths) == holds_for_some(nodes, more, x, truths) by {
        let with = truths.insert(v);
        let without = truths.remove(v);
        assert(eval(nodes, next, truths) == (eval(nodes, r, with) || eval(nodes, r, without)));
        assert(eval(nodes, r, with) == holds_for_some(nodes, vars, x, with));
        assert(eval(nodes, r, without) == holds_for_some(nodes, vars, x, without));
        if holds_for_some(nodes, vars, x, with) {
            let other = choose|other: Set<usize>|
                agree_outside(with, other, vars) && #[trigger] eval(nodes, x, other);
            assert(agree_outside(truths, other, more));
        }
        if holds_for_some(nodes, vars, x, without) {
            let other = choose|other: Set<usize>|
                agree_outside(without, other, vars) && #[trigger] eval(nodes, x, other);
            assert(agree_outside(truths, other, more));
        }
        if holds_for_some(nodes, more, x, truths) {
            let other = choose|other: Set<usize>|
                agree_outside(truths, other, more) && #[trigger] eval(nodes, x, other);
            if other.contains(v) {
                assert(agree_outside(with, other, vars));
            } else {
                assert(agree_outside(without, other, vars));
            }
        }
    }
}

/// The variables named by the first `k + 1` handles are those named by the first `k`, and the
/// one named by the handle after them.
pub proof fn lemma_label_set_take(labels: Seq<Id<Var>>, k: int)
    requires
        0 <= k < labels.len(),
    ensures
        label_set(labels.take(k + 1)) == label_set(labels.take(k)).insert(labels[k]@),
{
    let shorter = labels.take(k).map_values(|label: Id<Var>| label@);
    let longer = labels.take(k + 1).map_values(|label: Id<Var>| label@);
    assert(longer =~= shorter.push(labels[k]@));
    assert forall|v: usize| longer.to_set().contains(v) <==> shorter.to_set().insert(
        labels[k]@,
    ).contains(v) by {
        if shorter.contains(v) {
            let i = shorter.index_of(v);
            assert(longer[i] == v);
        }
        if v == labels[k]@ {
            assert(longer[k] == v);
        }
    }
    assert(longer.to_set() =~= shorter.to_set().insert(labels[k]@));
}

/// Two sequences of handles that are rearrangements of each other name the same variables.
pub proof fn lemma_label_set_permuted(first: Seq<Id<Var>>, second: Seq<Id<Var>>)
    requires
        first.map_values(|label: Id<Var>| label@).to_multiset() == second.map_values(
            |label: Id<Var>| label@,
        ).to_multiset(),
    ensures
        label_set(first) == label_set(second),
{
    let a = first.map_values(|label: Id<Var>| label@);
    let b = second.map_values(|label: Id<Var>| label@);
    a.to_multiset_ensures();
    b.to_multiset_ensures();
    assert forall|v: usize| a.contains(v) <==> b.contains(v) by {
        assert(a.to_multiset().count(v) == b.to_multiset().count(v));
    }
    assert(a.to_set() =~= b.to_set());
}

} // verus!
