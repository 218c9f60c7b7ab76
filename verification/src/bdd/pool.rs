//! The pool: the arena of decision nodes and the Boolean operators on it.

use crate::bdd::algebra;
use crate::bdd::algebra::decides;
use crate::bdd::algebra::in_order;
use crate::bdd::algebra::is_and;
use crate::bdd::algebra::is_exists;
use crate::bdd::algebra::is_exists_many;
use crate::bdd::algebra::is_not;
use crate::bdd::algebra::is_or;
use crate::bdd::algebra::label_set;
use crate::bdd::algebra::ordered_pair;
use crate::bdd::diagram;
use crate::bdd::diagram::at;
use crate::bdd::diagram::canonical;
use crate::bdd::diagram::equivalent;
use crate::bdd::diagram::eval;
use crate::bdd::diagram::extends;
use crate::bdd::diagram::grown_for;
use crate::bdd::diagram::in_range;
use crate::bdd::diagram::level;
use crate::bdd::diagram::node_ok;
use crate::bdd::diagram::rank;
use crate::bdd::diagram::well_formed;
use crate::bdd::memo::memo_get;
use crate::bdd::memo::memo_insert;
use crate::bdd::memo::memo_new;
use crate::bdd::node::InternalNode;
use crate::bdd::node::Node;
use crate::bdd::node::NodeKind;
use crate::expr::Var;
use crate::index_table::interned;
use crate::index_table::Id;
use crate::index_table::IndexTable;
use rustc_hash::FxHashMap;
use vstd::prelude::*;

verus! {

/// `Vec::capacity`: how many nodes the vector has room for.
///
/// That is never less than it holds. A vector's buffer is at most `isize::MAX` bytes, and a
/// node takes more than none, so it is never more than `isize::MAX` either.
#[verifier::external_body]
fn node_capacity(values: &Vec<InternalNode>) -> (capacity: usize)
    ensures
        values@.len() <= capacity <= isize::MAX,
{
    values.capacity()
}

/// `<[T]>::sort_unstable_by_key`, with the position of a handle as its key: the handles are
/// rearranged so that their positions ascend.
#[verifier::external_body]
fn sort_labels(labels: &mut Vec<Id<Var>>)
    ensures
        final(labels)@.map_values(|label: Id<Var>| label@).to_multiset() == old(labels)@.map_values(
            |label: Id<Var>| label@,
        ).to_multiset(),
        forall|i: int, j: int|
            0 <= i <= j < final(labels)@.len() ==> final(labels)@[i]@ <= final(labels)@[j]@,
{
    labels.sort_unstable_by_key(|label| label.get());
}

/// A pool of diagrams: the arena that holds every decision node once, and the memo tables of
/// the operators.
///
/// Its view is the arena, as the sequence of its nodes.
pub struct Pool {
    nodes: IndexTable<InternalNode>,
    not_cache: FxHashMap<usize, Node>,
    and_cache: FxHashMap<(usize, usize), Node>,
    or_cache: FxHashMap<(usize, usize), Node>,
    exists_cache: FxHashMap<(usize, usize), Node>,
}

impl View for Pool {
    type V = Seq<InternalNode>;

    closed spec fn view(&self) -> Seq<InternalNode> {
        self.nodes@
    }
}

impl Default for Pool {
    /// A pool with no nodes.
    fn default() -> (pool: Self)
        ensures
            pool.wf(),
            pool@ == Seq::<InternalNode>::empty(),
            pool.not_memo() == (Map::<usize, Node>::empty()),
            pool.and_memo() == (Map::<(usize, usize), Node>::empty()),
            pool.or_memo() == (Map::<(usize, usize), Node>::empty()),
            pool.exists_memo() == (Map::<(usize, usize), Node>::empty()),
    {
        Pool {
            nodes: IndexTable::default(),
            not_cache: memo_new(),
            and_cache: memo_new(),
            or_cache: memo_new(),
            exists_cache: memo_new(),
        }
    }
}

impl Pool {
    /// The arena's index finds every node.
    pub closed spec fn indexed(&self) -> bool {
        self.nodes.indexed()
    }

    /// The memo table of negation: the result kept for the position of an operand.
    pub closed spec fn not_memo(&self) -> Map<usize, Node> {
        self.not_cache@
    }

    /// The memo table of conjunction: the result kept for the positions of two operands, taken
    /// in their order.
    pub closed spec fn and_memo(&self) -> Map<(usize, usize), Node> {
        self.and_cache@
    }

    /// The memo table of disjunction: the result kept for the positions of two operands, taken
    /// in their order.
    pub closed spec fn or_memo(&self) -> Map<(usize, usize), Node> {
        self.or_cache@
    }

    /// The memo table of quantification: the result kept for a variable and the position of an
    /// operand.
    pub closed spec fn exists_memo(&self) -> Map<(usize, usize), Node> {
        self.exists_cache@
    }

    /// Every entry of a memo table is the result of its operator on the operands it is kept
    /// for.
    pub closed spec fn memoized(&self) -> bool {
        &&& forall|i: usize| #[trigger]
            self.not_cache@.contains_key(i) ==> i < self@.len() && is_not(
                self@,
                at(i),
                self.not_cache@[i],
            )
        &&& forall|i: usize, j: usize| #[trigger]
            self.and_cache@.contains_key((i, j)) ==> i < self@.len() && j < self@.len() && is_and(
                self@,
                at(i),
                at(j),
                self.and_cache@[(i, j)],
            )
        &&& forall|i: usize, j: usize| #[trigger]
            self.or_cache@.contains_key((i, j)) ==> i < self@.len() && j < self@.len() && is_or(
                self@,
                at(i),
                at(j),
                self.or_cache@[(i, j)],
            )
        &&& forall|v: usize, i: usize| #[trigger]
            self.exists_cache@.contains_key((v, i)) ==> i < self@.len() && is_exists(
                self@,
                v,
                at(i),
                self.exists_cache@[(v, i)],
            )
    }

    /// The pool's invariant: the arena is canonical and indexed, and the memo tables are
    /// right.
    pub open spec fn wf(&self) -> bool {
        &&& canonical(self@)
        &&& self.indexed()
        &&& self.memoized()
    }

    /// The arena of the pool.
    pub fn nodes(&self) -> (nodes: &IndexTable<InternalNode>)
        ensures
            nodes@ == self@,
            self.wf() ==> nodes.wf(),
    {
        &self.nodes
    }

    /// The memo table of negation.
    pub fn not_cache(&self) -> (cache: &FxHashMap<usize, Node>)
        ensures
            cache@ == self.not_memo(),
    {
        &self.not_cache
    }

    /// The memo table of conjunction.
    pub fn and_cache(&self) -> (cache: &FxHashMap<(usize, usize), Node>)
        ensures
            cache@ == self.and_memo(),
    {
        &self.and_cache
    }

    /// The memo table of disjunction.
    pub fn or_cache(&self) -> (cache: &FxHashMap<(usize, usize), Node>)
        ensures
            cache@ == self.or_memo(),
    {
        &self.or_cache
    }

    /// The memo table of quantification.
    pub fn exists_cache(&self) -> (cache: &FxHashMap<(usize, usize), Node>)
        ensures
            cache@ == self.exists_memo(),
    {
        &self.exists_cache
    }

    /// The number of nodes in the arena.
    pub fn len(&self) -> (n: usize)
        ensures
            n == self@.len(),
    {
        self.nodes.len()
    }

    /// The memo tables stay right when the arena grows.
    proof fn lemma_memoized_extends(before: Pool, after: Pool)
        requires
            before.memoized(),
            well_formed(before@),
            extends(before@, after@),
            after.not_cache == before.not_cache,
            after.and_cache == before.and_cache,
            after.or_cache == before.or_cache,
            after.exists_cache == before.exists_cache,
        ensures
            after.memoized(),
    {
        assert forall|i: usize| #[trigger] after.not_cache@.contains_key(i) implies i < after@.len()
            && is_not(after@, at(i), after.not_cache@[i]) by {
            diagram::lemma_at_in_range(before@, i);
            algebra::lemma_not_extends(before@, after@, at(i), before.not_cache@[i]);
        }
        assert forall|i: usize, j: usize| #[trigger]
            after.and_cache@.contains_key((i, j)) implies i < after@.len() && j < after@.len()
            && is_and(after@, at(i), at(j), after.and_cache@[(i, j)]) by {
            diagram::lemma_at_in_range(before@, i);
            diagram::lemma_at_in_range(before@, j);
            algebra::lemma_and_extends(before@, after@, at(i), at(j), before.and_cache@[(i, j)]);
        }
        assert forall|i: usize, j: usize| #[trigger]
            after.or_cache@.contains_key((i, j)) implies i < after@.len() && j < after@.len()
            && is_or(after@, at(i), at(j), after.or_cache@[(i, j)]) by {
            diagram::lemma_at_in_range(before@, i);
            diagram::lemma_at_in_range(before@, j);
            algebra::lemma_or_extends(before@, after@, at(i), at(j), before.or_cache@[(i, j)]);
        }
        assert forall|v: usize, i: usize| #[trigger]
            after.exists_cache@.contains_key((v, i)) implies i < after@.len() && is_exists(
            after@,
            v,
            at(i),
            after.exists_cache@[(v, i)],
        ) by {
            diagram::lemma_at_in_range(before@, i);
            algebra::lemma_exists_extends(before@, after@, v, at(i), before.exists_cache@[(v, i)]);
        }
    }

    /// The node that tests `label` and goes on to `lo` where it is false and to `hi` where it
    /// is true.
    ///
    /// With `lo == hi` that is `lo` itself, and the arena stays as it is. Otherwise it is the
    /// handle of the decision node in the arena, which is added if it is not there yet.
    pub fn new_node(&mut self, label: Id<Var>, lo: Node, hi: Node) -> (r: Node)
        requires
            old(self).wf(),
            in_range(old(self)@, lo),
            in_range(old(self)@, hi),
            lo != hi ==> label@ < level(old(self)@, lo) && label@ < level(old(self)@, hi),
        ensures
            final(self).wf(),
            extends(old(self)@, final(self)@),
            in_range(final(self)@, r),
            lo == hi ==> r == lo && final(self)@ == old(self)@,
            lo != hi ==> r@ is Internal && interned(
                old(self)@,
                (InternalNode { label, lo, hi }),
                final(self)@,
                r@->Internal_0@,
            ),
            lo != hi ==> level(final(self)@, r) == label@,
            decides(final(self)@, label@, lo, hi, r),
            grown_for(old(self)@, final(self)@, r),
            final(self).not_memo() == old(self).not_memo(),
            final(self).and_memo() == old(self).and_memo(),
            final(self).or_memo() == old(self).or_memo(),
            final(self).exists_memo() == old(self).exists_memo(),
    {
        if lo == hi {
            return lo;
        }
        let ghost before = *self;
        let id = self.nodes.get_or_insert(InternalNode { label, lo, hi });
        // The vector has room for at most `isize::MAX` nodes, so every position in it is clear
        // of the terminals.
        let _room: usize = node_capacity(self.nodes.values());
        let r = Node::from_id(id);
        proof {
            assert(extends(before@, self@));
            assert forall|p: int| 0 <= p < self@.len() implies #[trigger] node_ok(self@, p) by {
                if p < before@.len() {
                    assert(node_ok(before@, p));
                }
            }
            Self::lemma_memoized_extends(before, *self);
            assert forall|truths: Set<usize>| #[trigger]
                eval(self@, r, truths) == (if truths.contains(label@) {
                    eval(self@, hi, truths)
                } else {
                    eval(self@, lo, truths)
                }) by {
                diagram::lemma_eval_children(self@, r, truths);
            }
        }
        r
    }

    /// The two positions in the order in which a binary operator takes them.
    fn sort(&self, x: Id<InternalNode>, y: Id<InternalNode>) -> (pair: (
        Id<InternalNode>,
        Id<InternalNode>,
    ))
        requires
            x@ < self@.len(),
            y@ < self@.len(),
        ensures
            pair == (if in_order(self@, x@, y@) {
                (x, y)
            } else {
                (y, x)
            }),
    {
        let first = self.nodes.index(x).label.get();
        let second = self.nodes.index(y).label.get();
        if first > second || (first == second && x.get() > y.get()) {
            (y, x)
        } else {
            (x, y)
        }
    }

    /// The node of the variable `var`: it goes to the true terminal where `var` is false and
    /// to the false terminal where `var` is true.
    ///
    /// This is the pool's convention for a variable's node: read as a function, it is the one
    /// that is true exactly where `var` is false.
    pub fn variable(&mut self, var: Id<Var>) -> (r: Node)
        requires
            old(self).wf(),
        ensures
            final(self).wf(),
            extends(old(self)@, final(self)@),
            in_range(final(self)@, r),
            r@ is Internal,
            interned(
                old(self)@,
                (InternalNode { label: var, lo: Node::terminal(true), hi: Node::terminal(false) }),
                final(self)@,
                r@->Internal_0@,
            ),
            forall|truths: Set<usize>| #[trigger]
                eval(final(self)@, r, truths) == !truths.contains(var@),
            grown_for(old(self)@, final(self)@, r),
            final(self).not_memo() == old(self).not_memo(),
            final(self).and_memo() == old(self).and_memo(),
            final(self).or_memo() == old(self).or_memo(),
            final(self).exists_memo() == old(self).exists_memo(),
    {
        self.new_node(var, Node::terminal(true), Node::terminal(false))
    }

    /// The negation of `x`.
    ///
    /// The negation of a terminal is the other terminal. That of an internal node is looked up
    /// in the memo table; if it is not there, it is built from the negations of the children
    /// and kept in the table for the node.
    pub fn not(&mut self, x: Node) -> (r: Node)
        requires
            old(self).wf(),
            in_range(old(self)@, x),
        ensures
            final(self).wf(),
            extends(old(self)@, final(self)@),
            is_not(final(self)@, x, r),
            grown_for(old(self)@, final(self)@, r),
            x@ is True ==> r == Node::terminal(false),
            x@ is False ==> r == Node::terminal(true),
            !(x@ is Internal) ==> final(self)@ == old(self)@,
            x@ is Internal ==> final(self).not_memo().contains_pair(x@->Internal_0@, r),
            x@ is Internal && old(self).not_memo().contains_key(x@->Internal_0@) ==> final(self)@
                == old(self)@ && final(self).not_memo() == old(self).not_memo(),
            old(self).not_memo().submap_of(final(self).not_memo()),
            final(self).and_memo() == old(self).and_memo(),
            final(self).or_memo() == old(self).or_memo(),
            final(self).exists_memo() == old(self).exists_memo(),
        decreases rank(x),
    {
        let ix = match x.kind() {
            NodeKind::True => {
                return Node::terminal(false);
            },
            NodeKind::False => {
                return Node::terminal(true);
            },
            NodeKind::Internal(ix) => ix,
        };
        proof {
            diagram::lemma_at(x);
        }
        match memo_get(&self.not_cache, ix.get()) {
            Some(cached) => {
                return cached;
            },
            None => {},
        }
        let ghost s0 = self@;
        let ghost m0 = self.not_memo();
        let nx = *self.nodes.index(ix);
        assert(node_ok(s0, ix@ as int));
        let lo = self.not(nx.lo);
        let ghost s1 = self@;
        let ghost m1 = self.not_memo();
        let hi = self.not(nx.hi);
        let ghost s2 = self@;
        proof {
            algebra::lemma_not_extends(s1, s2, nx.lo, lo);
            vstd::map_lib::lemma_submap_of_trans(m0, m1, self.not_memo());
        }
        let res = self.new_node(nx.label, lo, hi);
        proof {
            let s3 = self@;
            algebra::lemma_not_extends(s2, s3, nx.lo, lo);
            algebra::lemma_not_extends(s2, s3, nx.hi, hi);
            algebra::lemma_not_node(s3, x, lo, hi, res);
            diagram::lemma_grown_for_node(s0, s1, s2, s3, lo, hi, res);
            Self::lemma_memo_keeps(m0, self.not_memo(), ix@, res);
        }
        memo_insert(&mut self.not_cache, ix.get(), res);
        res
    }

    /// The conjunction of `x` and `y`.
    ///
    /// With the false terminal it is the false terminal, with the true terminal the other
    /// operand, and of a node with itself that node. Otherwise the operands are put in order
    /// and the result is looked up in the memo table for that pair; if it is not there, it is
    /// built by deciding on the variable of the first operand between the conjunctions of the
    /// children, and kept in the table.
    pub fn and(&mut self, x: Node, y: Node) -> (r: Node)
        requires
            old(self).wf(),
            in_range(old(self)@, x),
            in_range(old(self)@, y),
        ensures
            final(self).wf(),
            extends(old(self)@, final(self)@),
            is_and(final(self)@, x, y, r),
            grown_for(old(self)@, final(self)@, r),
            x@ is False || y@ is False ==> r == Node::terminal(false),
            x@ is True ==> r == y,
            y@ is True ==> r == x,
            x == y ==> r == x,
            !(x@ is Internal) || !(y@ is Internal) || x == y ==> final(self)@ == old(self)@,
            x@ is Internal && y@ is Internal && x != y ==> final(self).and_memo().contains_pair(
                ordered_pair(old(self)@, x, y),
                r,
            ),
            x@ is Internal && y@ is Internal && x != y && old(self).and_memo().contains_key(
                ordered_pair(old(self)@, x, y),
            ) ==> final(self)@ == old(self)@ && final(self).and_memo() == old(self).and_memo(),
            old(self).and_memo().submap_of(final(self).and_memo()),
            final(self).not_memo() == old(self).not_memo(),
            final(self).or_memo() == old(self).or_memo(),
            final(self).exists_memo() == old(self).exists_memo(),
        decreases rank(x) + rank(y),
    {
        proof {
            Self::lemma_terminals(x, y);
        }
        let ix = match x.kind() {
            NodeKind::False => {
                return Node::terminal(false);
            },
            NodeKind::True => {
                return y;
            },
            NodeKind::Internal(ix) => ix,
        };
        let iy = match y.kind() {
            NodeKind::False => {
                return Node::terminal(false);
            },
            NodeKind::True => {
                return x;
            },
            NodeKind::Internal(iy) => iy,
        };
        proof {
            diagram::lemma_at(x);
            diagram::lemma_at(y);
        }
        if ix.get() == iy.get() {
            return x;
        }
        let (ix, iy) = self.sort(ix, iy);
        let first = Node::from_id(ix);
        let second = Node::from_id(iy);
        proof {
            diagram::lemma_at(first);
            diagram::lemma_at(second);
            assert((first == x && second == y) || (first == y && second == x));
        }
        match memo_get(&self.and_cache, (ix.get(), iy.get())) {
            Some(cached) => {
                return cached;
            },
            None => {},
        }
        let ghost s0 = self@;
        let ghost m0 = self.and_memo();
        let nx = *self.nodes.index(ix);
        let ny = *self.nodes.index(iy);
        assert(node_ok(s0, ix@ as int));
        assert(node_ok(s0, iy@ as int));
        let (other_lo, other_hi) = if nx.label.get() == ny.label.get() {
            (ny.lo, ny.hi)
        } else {
            (second, second)
        };
        let lo = self.and(nx.lo, other_lo);
        let ghost s1 = self@;
        let ghost m1 = self.and_memo();
        let hi = self.and(nx.hi, other_hi);
        let ghost s2 = self@;
        proof {
            algebra::lemma_and_extends(s1, s2, nx.lo, other_lo, lo);
            vstd::map_lib::lemma_submap_of_trans(m0, m1, self.and_memo());
        }
        let res = self.new_node(nx.label, lo, hi);
        proof {
            let s3 = self@;
            Self::lemma_memo_keeps(m0, self.and_memo(), (ix@, iy@), res);
            algebra::lemma_and_extends(s2, s3, nx.lo, other_lo, lo);
            algebra::lemma_and_extends(s2, s3, nx.hi, other_hi, hi);
            algebra::lemma_and_node(s3, first, second, lo, hi, res);
            diagram::lemma_grown_for_node(s0, s1, s2, s3, lo, hi, res);
        }
        memo_insert(&mut self.and_cache, (ix.get(), iy.get()), res);
        res
    }

    /// The disjunction of `x` and `y`.
    ///
    /// With the true terminal it is the true terminal, with the false terminal the other
    /// operand, and of a node with itself that node. Otherwise the operands are put in order
    /// and the result is looked up in the memo table for that pair; if it is not there, it is
    /// built by deciding on the variable of the first operand between the disjunctions of the
    /// children, and kept in the table.
    pub fn or(&mut self, x: Node, y: Node) -> (r: Node)
        requires
            old(self).wf(),
            in_range(old(self)@, x),
            in_range(old(self)@, y),
        ensures
            final(self).wf(),
            extends(old(self)@, final(self)@),
            is_or(final(self)@, x, y, r),
            grown_for(old(self)@, final(self)@, r),
            x@ is True || y@ is True ==> r == Node::terminal(true),
            x@ is False ==> r == y,
            y@ is False ==> r == x,
            x == y ==> r == x,
            !(x@ is Internal) || !(y@ is Internal) || x == y ==> final(self)@ == old(self)@,
            x@ is Internal && y@ is Internal && x != y ==> final(self).or_memo().contains_pair(
                ordered_pair(old(self)@, x, y),
                r,
            ),
            x@ is Internal && y@ is Internal && x != y && old(self).or_memo().contains_key(
                ordered_pair(old(self)@, x, y),
            ) ==> final(self)@ == old(self)@ && final(self).or_memo() == old(self).or_memo(),
            old(self).or_memo().submap_of(final(self).or_memo()),
            final(self).not_memo() == old(self).not_memo(),
            final(self).and_memo() == old(self).and_memo(),
            final(self).exists_memo() == old(self).exists_memo(),
        decreases rank(x) + rank(y),
    {
        proof {
            Self::lemma_terminals(x, y);
        }
        let ix = match x.kind() {
            NodeKind::True => {
                return Node::terminal(true);
            },
            NodeKind::False => {
                return y;
            },
            NodeKind::Internal(ix) => ix,
        };
        let iy = match y.kind() {
            NodeKind::True => {
                return Node::terminal(true);
            },
            NodeKind::False => {
                return x;
            },
            NodeKind::Internal(iy) => iy,
        };
        proof {
            diagram::lemma_at(x);
            diagram::lemma_at(y);
        }
        if ix.get() == iy.get() {
            return x;
        }
        let (ix, iy) = self.sort(ix, iy);
        let first = Node::from_id(ix);
        let second = Node::from_id(iy);
        proof {
            diagram::lemma_at(first);
            diagram::lemma_at(second);
            assert((first == x && second == y) || (first == y && second == x));
        }
        match memo_get(&self.or_cache, (ix.get(), iy.get())) {
            Some(cached) => {
                return cached;
            },
            None => {},
        }
        let ghost s0 = self@;
        let ghost m0 = self.or_memo();
        let nx = *self.nodes.index(ix);
        let ny = *self.nodes.index(iy);
        assert(node_ok(s0, ix@ as int));
        assert(node_ok(s0, iy@ as int));
        let (other_lo, other_hi) = if nx.label.get() == ny.label.get() {
            (ny.lo, ny.hi)
        } else {
            (second, second)
        };
        let lo = self.or(nx.lo, other_lo);
        let ghost s1 = self@;
        let ghost m1 = self.or_memo();
        let hi = self.or(nx.hi, other_hi);
        let ghost s2 = self@;
        proof {
            algebra::lemma_or_extends(s1, s2, nx.lo, other_lo, lo);
            vstd::map_lib::lemma_submap_of_trans(m0, m1, self.or_memo());
        }
        let res = self.new_node(nx.label, lo, hi);
        proof {
            let s3 = self@;
            Self::lemma_memo_keeps(m0, self.or_memo(), (ix@, iy@), res);
            algebra::lemma_or_extends(s2, s3, nx.lo, other_lo, lo);
            algebra::lemma_or_extends(s2, s3, nx.hi, other_hi, hi);
            algebra::lemma_or_node(s3, first, second, lo, hi, res);
            diagram::lemma_grown_for_node(s0, s1, s2, s3, lo, hi, res);
        }
        memo_insert(&mut self.or_cache, (ix.get(), iy.get()), res);
        res
    }

    /// `x` with the variable `label` quantified away: the function that is true where `x` is
    /// true for some value of the variable.
    ///
    /// A terminal stays as it is. For an internal node the memo table is asked first. A node
    /// that tests a later variable cannot depend on `label` and is returned as it is; one that
    /// tests `label` gives the disjunction of its children; one that tests an earlier variable
    /// is rebuilt from its children with `label` quantified away, and the result is kept in the
    /// table.
    pub fn exists_var(&mut self, label: Id<Var>, x: Node) -> (r: Node)
        requires
            old(self).wf(),
            in_range(old(self)@, x),
        ensures
            final(self).wf(),
            extends(old(self)@, final(self)@),
            is_exists(final(self)@, label@, x, r),
            grown_for(old(self)@, final(self)@, r),
            label@ < level(old(self)@, x) ==> r == x && final(self)@ == old(self)@,
            level(old(self)@, x) < label@ ==> final(self).exists_memo().contains_pair(
                (label@, x@->Internal_0@),
                r,
            ),
            x@ is Internal && old(self).exists_memo().contains_key((label@, x@->Internal_0@))
                ==> r == old(self).exists_memo()[(label@, x@->Internal_0@)] && final(self)@ == old(
                self,
            )@ && final(self).exists_memo() == old(self).exists_memo() && final(self).or_memo()
                == old(self).or_memo(),
            old(self).exists_memo().submap_of(final(self).exists_memo()),
            old(self).or_memo().submap_of(final(self).or_memo()),
            final(self).not_memo() == old(self).not_memo(),
            final(self).and_memo() == old(self).and_memo(),
        decreases rank(x),
    {
        let ix = match x.kind() {
            NodeKind::True => {
                return x;
            },
            NodeKind::False => {
                return x;
            },
            NodeKind::Internal(ix) => ix,
        };
        proof {
            diagram::lemma_at(x);
        }
        match memo_get(&self.exists_cache, (label.get(), ix.get())) {
            Some(cached) => {
                proof {
                    if label@ < level(self@, x) {
                        algebra::lemma_exists_skips(self@, label@, x);
                        assert(equivalent(self@, cached, x));
                        diagram::lemma_canonical(self@, cached, x);
                    }
                }
                return cached;
            },
            None => {},
        }
        let ghost s0 = self@;
        let ghost m0 = self.exists_memo();
        let ghost o0 = self.or_memo();
        let nx = *self.nodes.index(ix);
        assert(node_ok(s0, ix@ as int));
        if nx.label.get() > label.get() {
            proof {
                algebra::lemma_exists_skips(s0, label@, x);
            }
            return x;
        }
        if nx.label.get() == label.get() {
            let r = self.or(nx.lo, nx.hi);
            proof {
                algebra::lemma_exists_at_root(self@, x, r);
            }
            return r;
        }
        let lo = self.exists_var(label, nx.lo);
        let ghost s1 = self@;
        let ghost m1 = self.exists_memo();
        let ghost o1 = self.or_memo();
        let hi = self.exists_var(label, nx.hi);
        let ghost s2 = self@;
        proof {
            algebra::lemma_exists_extends(s1, s2, label@, nx.lo, lo);
            vstd::map_lib::lemma_submap_of_trans(m0, m1, self.exists_memo());
            vstd::map_lib::lemma_submap_of_trans(o0, o1, self.or_memo());
        }
        let res = self.new_node(nx.label, lo, hi);
        proof {
            let s3 = self@;
            Self::lemma_memo_keeps(m0, self.exists_memo(), (label@, ix@), res);
            algebra::lemma_exists_extends(s2, s3, label@, nx.lo, lo);
            algebra::lemma_exists_extends(s2, s3, label@, nx.hi, hi);
            algebra::lemma_exists_node(s3, label@, x, lo, hi, res);
            diagram::lemma_grown_for_node(s0, s1, s2, s3, lo, hi, res);
        }
        memo_insert(&mut self.exists_cache, (label.get(), ix.get()), res);
        res
    }

    /// `x` with every variable of `labels` quantified away.
    ///
    /// The variables are taken in ascending order, which lets calls with overlapping sets of
    /// variables share memo entries; the result does not depend on the order.
    pub fn exists_many(&mut self, labels: Vec<Id<Var>>, x: Node) -> (r: Node)
        requires
            old(self).wf(),
            in_range(old(self)@, x),
        ensures
            final(self).wf(),
            extends(old(self)@, final(self)@),
            is_exists_many(final(self)@, label_set(labels@), x, r),
            labels@.len() == 0 ==> r == x && final(self)@ == old(self)@,
            old(self).exists_memo().submap_of(final(self).exists_memo()),
            old(self).or_memo().submap_of(final(self).or_memo()),
            final(self).not_memo() == old(self).not_memo(),
            final(self).and_memo() == old(self).and_memo(),
    {
        let mut sorted = labels;
        sort_labels(&mut sorted);
        proof {
            algebra::lemma_label_set_permuted(sorted@, labels@);
            sorted@.map_values(|label: Id<Var>| label@).to_multiset_ensures();
            labels@.map_values(|label: Id<Var>| label@).to_multiset_ensures();
        }
        self.exists_many_sorted(sorted, x)
    }

    /// `x` with every variable of `labels` quantified away, one after the other in the order
    /// given.
    pub fn exists_many_sorted(&mut self, labels: Vec<Id<Var>>, x: Node) -> (r: Node)
        requires
            old(self).wf(),
            in_range(old(self)@, x),
        ensures
            final(self).wf(),
            extends(old(self)@, final(self)@),
            is_exists_many(final(self)@, label_set(labels@), x, r),
            labels@.len() == 0 ==> r == x && final(self)@ == old(self)@,
            old(self).exists_memo().submap_of(final(self).exists_memo()),
            old(self).or_memo().submap_of(final(self).or_memo()),
            final(self).not_memo() == old(self).not_memo(),
            final(self).and_memo() == old(self).and_memo(),
    {
        let ghost start = self@;
        let ghost first = *self;
        let mut r = x;
        let mut k: usize = 0;
        proof {
            algebra::lemma_exists_none(start, x);
            assert(label_set(labels@.take(0)) =~= Set::<usize>::empty());
        }
        while k < labels.len()
            invariant
                k <= labels@.len(),
                self.wf(),
                extends(start, self@),
                in_range(start, x),
                is_exists_many(self@, label_set(labels@.take(k as int)), x, r),
                k == 0 ==> r == x && self@ == start,
                first.exists_memo().submap_of(self.exists_memo()),
                first.or_memo().submap_of(self.or_memo()),
                self.not_memo() == first.not_memo(),
                self.and_memo() == first.and_memo(),
            decreases labels@.len() - k,
        {
            let ghost s = self@;
            let ghost vars = label_set(labels@.take(k as int));
            let ghost m = self.exists_memo();
            let ghost o = self.or_memo();
            let next = self.exists_var(labels[k], r);
            proof {
                vstd::map_lib::lemma_submap_of_trans(first.exists_memo(), m, self.exists_memo());
                vstd::map_lib::lemma_submap_of_trans(first.or_memo(), o, self.or_memo());
                algebra::lemma_exists_many_extends(s, self@, vars, x, r);
                algebra::lemma_exists_one_more(self@, vars, labels@[k as int]@, x, r, next);
                algebra::lemma_label_set_take(labels@, k as int);
            }
            r = next;
            k += 1;
        }
        assert(labels@.take(k as int) =~= labels@);
        r
    }

    /// A memo table that has grown since it lacked a key still holds what it held then, once
    /// a result is kept for that key.
    proof fn lemma_memo_keeps<K>(
        start: Map<K, Node>,
        grown: Map<K, Node>,
        key: K,
        result: Node,
    )
        requires
            !start.contains_key(key),
            start.submap_of(grown),
        ensures
            start.submap_of(grown.insert(key, result)),
            grown.insert(key, result).contains_pair(key, result),
    {
    }

    /// A handle that stands for a truth value is the terminal for that value.
    proof fn lemma_terminals(x: Node, y: Node)
        ensures
            x@ is True ==> x == Node::terminal(true),
            x@ is False ==> x == Node::terminal(false),
            y@ is True ==> y == Node::terminal(true),
            y@ is False ==> y == Node::terminal(false),
    {
        if x@ is True {
            Node::lemma_is_terminal(x, true);
        }
        if x@ is False {
            Node::lemma_is_terminal(x, false);
        }
        if y@ is True {
            Node::lemma_is_terminal(y, true);
        }
        if y@ is False {
            Node::lemma_is_terminal(y, false);
        }
    }
}

} // verus!
