//! Laws of the operators.
//!
//! Each law is stated over one arena. The operators only ever extend the arena, and a node
//! keeps its function when the arena grows, so what an earlier call established still holds in
//! the arena that a later call leaves: see
//! [`lemma_eval_extends`](crate::bdd::diagram::lemma_eval_extends) and the lemmas of
//! [`algebra`](crate::bdd::algebra) on arenas that grow.

use crate::bdd::diagram::canonical;
use crate::bdd::diagram::eval;
use crate::bdd::diagram::in_range;
use crate::bdd::algebra::is_and;
use crate::bdd::algebra::is_exists;
use crate::bdd::algebra::is_exists_many;
use crate::bdd::algebra::is_not;
use crate::bdd::algebra::is_or;
use crate::bdd::algebra::label_set;
use crate::bdd::diagram::lemma_canonical;
use crate::bdd::diagram::node_ok;
use crate::bdd::diagram::rank;
use crate::bdd::diagram::well_formed;
use crate::bdd::node::InternalNode;
use crate::bdd::node::Node;
use crate::bdd::node::NodeKind;
use crate::expr::Var;
use crate::index_table::Id;
use vstd::prelude::*;

verus! {

/// Conjunction is commutative: the conjunction of `x` and `y` and that of `y` and `x` are the
/// same node.
pub proof fn law_and_commutes(nodes: Seq<InternalNode>, x: Node, y: Node, xy: Node, yx: Node)
    requires
        canonical(nodes),
        is_and(nodes, x, y, xy),
        is_and(nodes, y, x, yx),
    ensures
        xy == yx,
{
    lemma_canonical(nodes, xy, yx);
}

/// Disjunction is commutative: the disjunction of `x` and `y` and that of `y` and `x` are the
/// same node.
pub proof fn law_or_commutes(nodes: Seq<InternalNode>, x: Node, y: Node, xy: Node, yx: Node)
    requires
        canonical(nodes),
        is_or(nodes, x, y, xy),
        is_or(nodes, y, x, yx),
    ensures
        xy == yx,
{
    lemma_canonical(nodes, xy, yx);
}

/// The negation of the negation of `x` is `x`.
pub proof fn law_double_negation(nodes: Seq<InternalNode>, x: Node, negated: Node, twice: Node)
    requires
        canonical(nodes),
        in_range(nodes, x),
        is_not(nodes, x, negated),
        is_not(nodes, negated, twice),
    ensures
        twice == x,
{
    assert forall|truths: Set<usize>| #[trigger]
        eval(nodes, twice, truths) == eval(nodes, x, truths) by {
        assert(eval(nodes, negated, truths) == !eval(nodes, x, truths));
    }
    lemma_canonical(nodes, twice, x);
}

/// The conjunction of `x` and its negation is the false terminal.
pub proof fn law_and_complement(nodes: Seq<InternalNode>, x: Node, negated: Node, r: Node)
    requires
        canonical(nodes),
        is_not(nodes, x, negated),
        is_and(nodes, x, negated, r),
    ensures
        r == Node::terminal(false),
{
    let bottom = Node::terminal(false);
    Node::lemma_terminal(false);
    assert forall|truths: Set<usize>| #[trigger]
        eval(nodes, r, truths) == eval(nodes, bottom, truths) by {
        assert(eval(nodes, negated, truths) == !eval(nodes, x, truths));
    }
    lemma_canonical(nodes, r, bottom);
}

/// The disjunction of `x` and its negation is the true terminal.
pub proof fn law_or_complement(nodes: Seq<InternalNode>, x: Node, negated: Node, r: Node)
    requires
        canonical(nodes),
        is_not(nodes, x, negated),
        is_or(nodes, x, negated, r),
    ensures
        r == Node::terminal(true),
{
    let top = Node::terminal(true);
    Node::lemma_terminal(true);
    assert forall|truths: Set<usize>| #[trigger]
        eval(nodes, r, truths) == eval(nodes, top, truths) by {
        assert(eval(nodes, negated, truths) == !eval(nodes, x, truths));
    }
    lemma_canonical(nodes, r, top);
}

/// Whether `x` is the node of the variable `v`: the decision node that goes to the true
/// terminal where `v` is false and to the false terminal where `v` is true.
pub open spec fn is_variable(nodes: Seq<InternalNode>, v: Id<Var>, x: Node) -> bool {
    &&& in_range(nodes, x)
    &&& x@ is Internal
    &&& nodes[x@->Internal_0@ as int] == (InternalNode {
        label: v,
        lo: Node::terminal(true),
        hi: Node::terminal(false),
    })
}

/// Quantifying a variable away from its own node gives the true terminal.
pub proof fn law_exists_variable(nodes: Seq<InternalNode>, v: Id<Var>, x: Node, r: Node)
    requires
        canonical(nodes),
        is_variable(nodes, v, x),
        is_exists(nodes, v@, x, r),
    ensures
        r == Node::terminal(true),
{
    let top = Node::terminal(true);
    Node::lemma_terminal(true);
    Node::lemma_terminal(false);
    assert forall|truths: Set<usize>| #[trigger]
        eval(nodes, r, truths) == eval(nodes, top, truths) by {
        assert(eval(nodes, top, truths.remove(v@)));
        assert(eval(nodes, x, truths.remove(v@)));
    }
    lemma_canonical(nodes, r, top);
}

/// Whether some node of the diagram of `x` tests the variable `v`.
pub open spec fn mentions(nodes: Seq<InternalNode>, x: Node, v: usize) -> bool
    decreases rank(x),
{
    match x@ {
        NodeKind::Internal(id) => {
            if id@ < nodes.len() {
                let node = nodes[id@ as int];
                ||| node.label@ == v
                ||| (rank(node.lo) < rank(x) && mentions(nodes, node.lo, v))
                ||| (rank(node.hi) < rank(x) && mentions(nodes, node.hi, v))
            } else {
                false
            }
        },
        _ => false,
    }
}

/// The function of a node does not depend on a variable that its diagram does not mention.
pub proof fn lemma_eval_unmentioned(
    nodes: Seq<InternalNode>,
    x: Node,
    v: usize,
    a: Set<usize>,
    b: Set<usize>,
)
    requires
        well_formed(nodes),
        in_range(nodes, x),
        !mentions(nodes, x, v),
        forall|u: usize| u != v ==> (#[trigger] a.contains(u) <==> b.contains(u)),
    ensures
        eval(nodes, x, a) == eval(nodes, x, b),
    decreases rank(x),
{
    if let NodeKind::Internal(id) = x@ {
        let node = nodes[id@ as int];
        assert(node_ok(nodes, id@ as int));
        assert(a.contains(node.label@) <==> b.contains(node.label@));
        if a.contains(node.label@) {
            lemma_eval_unmentioned(nodes, node.hi, v, a, b);
        } else {
            lemma_eval_unmentioned(nodes, node.lo, v, a, b);
        }
    }
}

/// Quantifying away a variable that the diagram of `x` does not mention gives `x`.
pub proof fn law_exists_unmentioned(nodes: Seq<InternalNode>, v: usize, x: Node, r: Node)
    requires
        canonical(nodes),
        in_range(nodes, x),
        !mentions(nodes, x, v),
        is_exists(nodes, v, x, r),
    ensures
        r == x,
{
    assert forall|truths: Set<usize>| #[trigger]
        eval(nodes, r, truths) == eval(nodes, x, truths) by {
        lemma_eval_unmentioned(nodes, x, v, truths.insert(v), truths);
        lemma_eval_unmentioned(nodes, x, v, truths.remove(v), truths);
    }
    lemma_canonical(nodes, r, x);
}

/// Quantification distributes over disjunction: quantifying `v` away from the disjunction of
/// `a` and `b` gives the disjunction of `a` and `b` with `v` quantified away from each.
pub proof fn law_exists_distributes_over_or(
    nodes: Seq<InternalNode>,
    v: usize,
    a: Node,
    b: Node,
    a_or_b: Node,
    whole: Node,
    from_a: Node,
    from_b: Node,
    parts: Node,
)
    requires
        canonical(nodes),
        is_or(nodes, a, b, a_or_b),
        is_exists(nodes, v, a_or_b, whole),
        is_exists(nodes, v, a, from_a),
        is_exists(nodes, v, b, from_b),
        is_or(nodes, from_a, from_b, parts),
    ensures
        whole == parts,
{
    assert forall|truths: Set<usize>| #[trigger]
        eval(nodes, whole, truths) == eval(nodes, parts, truths) by {
        let with = truths.insert(v);
        let without = truths.remove(v);
        assert(eval(nodes, a_or_b, with) == (eval(nodes, a, with) || eval(nodes, b, with)));
        assert(eval(nodes, a_or_b, without) == (eval(nodes, a, without) || eval(
            nodes,
            b,
            without,
        )));
        assert(eval(nodes, from_a, truths) == (eval(nodes, a, with) || eval(nodes, a, without)));
        assert(eval(nodes, from_b, truths) == (eval(nodes, b, with) || eval(nodes, b, without)));
    }
    lemma_canonical(nodes, whole, parts);
}

/// Quantifying away the same variables gives the same node, in whatever order, and however
/// often, the variables are named.
pub proof fn law_exists_many_by_set(
    nodes: Seq<InternalNode>,
    first: Seq<Id<Var>>,
    second: Seq<Id<Var>>,
    x: Node,
    from_first: Node,
    from_second: Node,
)
    requires
        canonical(nodes),
        label_set(first) == label_set(second),
        is_exists_many(nodes, label_set(first), x, from_first),
        is_exists_many(nodes, label_set(second), x, from_second),
    ensures
        from_first == from_second,
{
    lemma_canonical(nodes, from_first, from_second);
}

/// Quantifying away two variables gives the same node in either order.
pub proof fn law_exists_many_swapped(
    nodes: Seq<InternalNode>,
    v: Id<Var>,
    w: Id<Var>,
    x: Node,
    from_vw: Node,
    from_wv: Node,
)
    requires
        canonical(nodes),
        is_exists_many(nodes, label_set(seq![v, w]), x, from_vw),
        is_exists_many(nodes, label_set(seq![w, v]), x, from_wv),
    ensures
        from_vw == from_wv,
{
    let vw = seq![v, w].map_values(|label: Id<Var>| label@);
    let wv = seq![w, v].map_values(|label: Id<Var>| label@);
    assert forall|u: usize| vw.contains(u) <==> wv.contains(u) by {
        if vw.contains(u) {
            let i = vw.index_of(u);
            assert(wv[1 - i] == u);
        }
        if wv.contains(u) {
            let i = wv.index_of(u);
            assert(vw[1 - i] == u);
        }
    }
    assert(label_set(seq![v, w]) =~= label_set(seq![w, v]));
    law_exists_many_by_set(nodes, seq![v, w], seq![w, v], x, from_vw, from_wv);
}

} // verus!
