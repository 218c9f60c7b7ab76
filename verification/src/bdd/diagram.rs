//! The mathematical model of a pool: a sequence of decision nodes, read as Boolean functions.
//!
//! An assignment is the set of the variables that are true. A node denotes the function that
//! [`eval`] computes; an arena in [`canonical`] form holds at most one node for each function,
//! which is what [`lemma_canonical`] shows.

use crate::bdd::node::InternalNode;
use crate::bdd::node::Node;
use crate::bdd::node::NodeKind;
use crate::index_table::Id;
use vstd::prelude::*;

verus! {

/// Zero for a terminal; for an internal node, one more than its position in the arena.
pub open spec fn rank(n: Node) -> nat {
    match n@ {
        NodeKind::Internal(id) => (id@ + 1) as nat,
        _ => 0,
    }
}

/// Whether `n` is a terminal or an internal node of `nodes`.
pub open spec fn in_range(nodes: Seq<InternalNode>, n: Node) -> bool {
    rank(n) <= nodes.len()
}

/// The decision node behind an internal handle.
pub open spec fn node_of(nodes: Seq<InternalNode>, n: Node) -> InternalNode {
    nodes[n@->Internal_0@ as int]
}

/// The variable that `n` tests first. A terminal tests none, and lies past every variable.
pub open spec fn level(nodes: Seq<InternalNode>, n: Node) -> int {
    match n@ {
        NodeKind::Internal(id) => nodes[id@ as int].label@ as int,
        _ => usize::MAX + 1,
    }
}

/// Whether the node at `position` has its children before it in the arena, has two different
/// children, and tests a variable that comes before those its children test.
pub open spec fn node_ok(nodes: Seq<InternalNode>, position: int) -> bool {
    let node = nodes[position];
    &&& rank(node.lo) <= position
    &&& rank(node.hi) <= position
    &&& node.lo != node.hi
    &&& node.label@ < level(nodes, node.lo)
    &&& node.label@ < level(nodes, node.hi)
}

/// The invariant of the arena of a pool: it is reduced and ordered, and no position reaches
/// the integers that encode the terminals.
pub open spec fn well_formed(nodes: Seq<InternalNode>) -> bool {
    &&& nodes.len() <= isize::MAX
    &&& forall|position: int| 0 <= position < nodes.len() ==> #[trigger] node_ok(nodes, position)
}

/// A well-formed arena in which no node occurs twice.
pub open spec fn canonical(nodes: Seq<InternalNode>) -> bool {
    &&& well_formed(nodes)
    &&& nodes.no_duplicates()
}

/// Whether `after` holds the nodes of `before` at their positions, and perhaps more.
pub open spec fn extends(before: Seq<InternalNode>, after: Seq<InternalNode>) -> bool {
    &&& before.len() <= after.len()
    &&& forall|position: int| 0 <= position < before.len() ==> after[position] == before[position]
}

/// The value of the function of `n` under the assignment in which exactly the variables of
/// `truths` are true.
pub open spec fn eval(nodes: Seq<InternalNode>, n: Node, truths: Set<usize>) -> bool
    decreases rank(n),
{
    match n@ {
        NodeKind::True => true,
        NodeKind::False => false,
        NodeKind::Internal(id) => {
            if id@ < nodes.len() {
                let node = nodes[id@ as int];
                let next = if truths.contains(node.label@) {
                    node.hi
                } else {
                    node.lo
                };
                if rank(next) < rank(n) {
                    eval(nodes, next, truths)
                } else {
                    false
                }
            } else {
                false
            }
        },
    }
}

/// Whether the diagram of `from` holds the node at `position`.
pub open spec fn reaches(nodes: Seq<InternalNode>, from: Node, position: int) -> bool
    decreases rank(from),
{
    match from@ {
        NodeKind::Internal(id) => {
            if id@ < nodes.len() {
                let node = nodes[id@ as int];
                ||| id@ == position
                ||| (rank(node.lo) < rank(from) && reaches(nodes, node.lo, position))
                ||| (rank(node.hi) < rank(from) && reaches(nodes, node.hi, position))
            } else {
                false
            }
        },
        _ => false,
    }
}

/// Whether every node that `after` holds beyond `before` is part of the diagram of `r`.
pub open spec fn grown_for(before: Seq<InternalNode>, after: Seq<InternalNode>, r: Node) -> bool {
    forall|position: int| before.len() <= position < after.len() ==> #[trigger] reaches(after, r, position)
}

/// Whether the two assignments agree on every variable from `from` on.
pub open spec fn agree_from(a: Set<usize>, b: Set<usize>, from: int) -> bool {
    forall|v: usize| from <= v ==> (#[trigger] a.contains(v) <==> b.contains(v))
}

/// Whether `x` and `y` denote the same function.
pub open spec fn equivalent(nodes: Seq<InternalNode>, x: Node, y: Node) -> bool {
    forall|truths: Set<usize>| #[trigger] eval(nodes, x, truths) == eval(nodes, y, truths)
}

/// The handle of the internal node at `position`.
pub open spec fn at(position: usize) -> Node {
    Node::spec_internal(Id::spec_new(position))
}

/// Below `isize::MAX`, [`at`] is the one handle that stands for the internal node at a position.
pub proof fn lemma_at(n: Node)
    requires
        n@ is Internal,
        n@->Internal_0@ < isize::MAX,
    ensures
        n == at(n@->Internal_0@),
        rank(n) == n@->Internal_0@ + 1,
{
    let id = n@->Internal_0;
    Id::<InternalNode>::lemma_view_of_new(id@);
    Id::lemma_view_injective(Id::<InternalNode>::spec_new(id@), id);
    Node::lemma_internal(id);
    Node::lemma_view_injective(at(id@), n);
}

/// A position of a well-formed arena has its handle in range.
pub proof fn lemma_at_in_range(nodes: Seq<InternalNode>, position: usize)
    requires
        well_formed(nodes),
        position < nodes.len(),
    ensures
        at(position)@ == NodeKind::Internal(Id::spec_new(position)),
        rank(at(position)) == position + 1,
        in_range(nodes, at(position)),
{
    Id::<InternalNode>::lemma_view_of_new(position);
    Node::lemma_internal(Id::spec_new(position));
}

/// A node keeps its function when the arena grows.
pub proof fn lemma_eval_extends(
    before: Seq<InternalNode>,
    after: Seq<InternalNode>,
    n: Node,
    truths: Set<usize>,
)
    requires
        extends(before, after),
        in_range(before, n),
    ensures
        eval(after, n, truths) == eval(before, n, truths),
    decreases rank(n),
{
    if let NodeKind::Internal(id) = n@ {
        let node = before[id@ as int];
        let next = if truths.contains(node.label@) {
            node.hi
        } else {
            node.lo
        };
        if rank(next) < rank(n) {
            lemma_eval_extends(before, after, next, truths);
        }
    }
}

/// A diagram keeps its nodes when the arena grows.
pub proof fn lemma_reaches_extends(
    before: Seq<InternalNode>,
    after: Seq<InternalNode>,
    from: Node,
    position: int,
)
    requires
        extends(before, after),
        in_range(before, from),
        reaches(before, from, position),
    ensures
        reaches(after, from, position),
    decreases rank(from),
{
    if let NodeKind::Internal(id) = from@ {
        let node = before[id@ as int];
        if id@ != position {
            if rank(node.lo) < rank(from) && reaches(before, node.lo, position) {
                lemma_reaches_extends(before, after, node.lo, position);
            } else {
                lemma_reaches_extends(before, after, node.hi, position);
            }
        }
    }
}

/// The arena that grew for two nodes, one after the other, and then at most by the decision
/// node between them, grew for that decision node; where the two are the same node, for that
/// node.
pub proof fn lemma_grown_for_node(
    start: Seq<InternalNode>,
    first: Seq<InternalNode>,
    second: Seq<InternalNode>,
    last: Seq<InternalNode>,
    lo: Node,
    hi: Node,
    r: Node,
)
    requires
        extends(start, first),
        extends(first, second),
        extends(second, last),
        well_formed(last),
        in_range(first, lo),
        in_range(second, hi),
        in_range(last, r),
        grown_for(start, first, lo),
        grown_for(first, second, hi),
        grown_for(second, last, r),
        lo == hi ==> r == lo,
        lo != hi ==> r@ is Internal && node_of(last, r).lo == lo && node_of(last, r).hi == hi,
    ensures
        grown_for(start, last, r),
{
    assert forall|position: int| start.len() <= position < last.len() implies #[trigger] reaches(
        last,
        r,
        position,
    ) by {
        if position < second.len() {
            let child = if position < first.len() {
                lo
            } else {
                hi
            };
            if position < first.len() {
                lemma_reaches_extends(first, second, lo, position);
            }
            lemma_reaches_extends(second, last, child, position);
            if lo != hi {
                assert(node_ok(last, r@->Internal_0@ as int));
            }
        }
    }
}

/// The function of a node depends only on the variables from its level on.
pub proof fn lemma_eval_agree(nodes: Seq<InternalNode>, n: Node, a: Set<usize>, b: Set<usize>)
    requires
        well_formed(nodes),
        in_range(nodes, n),
        agree_from(a, b, level(nodes, n)),
    ensures
        eval(nodes, n, a) == eval(nodes, n, b),
    decreases rank(n),
{
    if let NodeKind::Internal(id) = n@ {
        let node = nodes[id@ as int];
        assert(node_ok(nodes, id@ as int));
        assert(a.contains(node.label@) <==> b.contains(node.label@));
        let next = if a.contains(node.label@) {
            node.hi
        } else {
            node.lo
        };
        lemma_eval_agree(nodes, next, a, b);
    }
}

/// Making a variable true or false does not change the function of a node whose level is past
/// that variable.
pub proof fn lemma_eval_skips(nodes: Seq<InternalNode>, n: Node, truths: Set<usize>, v: usize)
    requires
        well_formed(nodes),
        in_range(nodes, n),
        v < level(nodes, n),
    ensures
        eval(nodes, n, truths.insert(v)) == eval(nodes, n, truths),
        eval(nodes, n, truths.remove(v)) == eval(nodes, n, truths),
{
    lemma_eval_agree(nodes, n, truths.insert(v), truths);
    lemma_eval_agree(nodes, n, truths.remove(v), truths);
}

/// The function of an internal node of a well-formed arena, where the variable it tests is
/// true and where it is false: that of the child on that side.
pub proof fn lemma_eval_children(nodes: Seq<InternalNode>, n: Node, truths: Set<usize>)
    requires
        well_formed(nodes),
        in_range(nodes, n),
        n@ is Internal,
    ensures
        rank(node_of(nodes, n).lo) < rank(n),
        rank(node_of(nodes, n).hi) < rank(n),
        node_of(nodes, n).lo != node_of(nodes, n).hi,
        level(nodes, n) < level(nodes, node_of(nodes, n).lo),
        level(nodes, n) < level(nodes, node_of(nodes, n).hi),
        eval(nodes, n, truths) == (if truths.contains(node_of(nodes, n).label@) {
            eval(nodes, node_of(nodes, n).hi, truths)
        } else {
            eval(nodes, node_of(nodes, n).lo, truths)
        }),
        eval(nodes, n, truths.insert(node_of(nodes, n).label@)) == eval(
            nodes,
            node_of(nodes, n).hi,
            truths,
        ),
        eval(nodes, n, truths.remove(node_of(nodes, n).label@)) == eval(
            nodes,
            node_of(nodes, n).lo,
            truths,
        ),
{
    let node = node_of(nodes, n);
    assert(node_ok(nodes, n@->Internal_0@ as int));
    lemma_eval_skips(nodes, node.hi, truths, node.label@);
    lemma_eval_skips(nodes, node.lo, truths, node.label@);
}

/// In a canonical arena, two nodes that denote the same function are the same node.
pub proof fn lemma_canonical(nodes: Seq<InternalNode>, x: Node, y: Node)
    requires
        canonical(nodes),
        in_range(nodes, x),
        in_range(nodes, y),
        equivalent(nodes, x, y),
    ensures
        x == y,
    decreases rank(x) + rank(y), 1nat,
{
    let none = Set::<usize>::empty();
    assert(eval(nodes, x, none) == eval(nodes, y, none));
    if x@ is Internal && y@ is Internal && level(nodes, x) == level(nodes, y) {
        let nx = node_of(nodes, x);
        let ny = node_of(nodes, y);
        lemma_eval_children(nodes, x, none);
        lemma_eval_children(nodes, y, none);
        assert forall|truths: Set<usize>| #[trigger]
            eval(nodes, nx.lo, truths) == eval(nodes, ny.lo, truths) by {
            lemma_eval_children(nodes, x, truths);
            lemma_eval_children(nodes, y, truths);
            assert(eval(nodes, x, truths.remove(nx.label@)) == eval(
                nodes,
                y,
                truths.remove(nx.label@),
            ));
        }
        assert forall|truths: Set<usize>| #[trigger]
            eval(nodes, nx.hi, truths) == eval(nodes, ny.hi, truths) by {
            lemma_eval_children(nodes, x, truths);
            lemma_eval_children(nodes, y, truths);
            assert(eval(nodes, x, truths.insert(nx.label@)) == eval(
                nodes,
                y,
                truths.insert(nx.label@),
            ));
        }
        lemma_canonical(nodes, nx.lo, ny.lo);
        lemma_canonical(nodes, nx.hi, ny.hi);
        Id::lemma_view_injective(nx.label, ny.label);
        assert(nx == ny);
        Id::lemma_view_injective(x@->Internal_0, y@->Internal_0);
        Node::lemma_view_injective(x, y);
    } else if x@ is Internal && level(nodes, x) < level(nodes, y) {
        lemma_eval_children(nodes, x, none);
        lemma_redundant_test(nodes, x, y);
    } else if y@ is Internal {
        lemma_eval_children(nodes, y, none);
        lemma_redundant_test(nodes, y, x);
    } else {
        Node::lemma_view_injective(x, y);
    }
}

/// If an internal node of a canonical arena denotes the function of a node whose level is past
/// its own, both its children are that node: the test at its root is redundant.
proof fn lemma_redundant_test(nodes: Seq<InternalNode>, x: Node, y: Node)
    requires
        canonical(nodes),
        in_range(nodes, x),
        in_range(nodes, y),
        x@ is Internal,
        level(nodes, x) < level(nodes, y),
        equivalent(nodes, x, y) || equivalent(nodes, y, x),
    ensures
        node_of(nodes, x).lo == y,
        node_of(nodes, x).hi == y,
    decreases rank(x) + rank(y), 0nat,
{
    let nx = node_of(nodes, x);
    let v = nx.label@;
    lemma_eval_children(nodes, x, Set::empty());
    assert forall|truths: Set<usize>| #[trigger]
        eval(nodes, nx.lo, truths) == eval(nodes, y, truths) by {
        lemma_eval_children(nodes, x, truths);
        lemma_eval_skips(nodes, y, truths, v);
        assert(eval(nodes, x, truths.remove(v)) == eval(nodes, y, truths.remove(v)));
    }
    assert forall|truths: Set<usize>| #[trigger]
        eval(nodes, nx.hi, truths) == eval(nodes, y, truths) by {
        lemma_eval_children(nodes, x, truths);
        lemma_eval_skips(nodes, y, truths, v);
        assert(eval(nodes, x, truths.insert(v)) == eval(nodes, y, truths.insert(v)));
    }
    lemma_canonical(nodes, nx.lo, y);
    lemma_canonical(nodes, nx.hi, y);
}

} // verus!
