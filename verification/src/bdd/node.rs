//! The external handle of a diagram and the decision node behind it.

use crate::expr::Var;
use crate::index_table::Id;
use crate::index_table::Interned;
use std::hash::Hasher;
use vstd::prelude::*;

verus! {

/// A handle to a diagram: one of the two terminals, or an internal node of a pool.
///
/// It is a single integer. The two largest values stand for the terminals; every other value
/// is the position of an internal node in the pool's arena. Its view is the [`NodeKind`] it
/// stands for.
#[derive(Clone, Copy, Debug, Hash, PartialEq, Eq, Structural)]
pub struct Node(usize);

/// What a [`Node`] stands for.
#[derive(Clone, Copy, Debug, PartialEq, Eq)]
pub enum NodeKind {
    True,
    False,
    Internal(Id<InternalNode>),
}

/// The decision node for `label`: `lo` is the diagram when the variable is false, `hi` when
/// it is true.
#[derive(Clone, Copy, Debug, Hash, PartialEq, Eq)]
pub struct InternalNode {
    pub label: Id<Var>,
    pub lo: Node,
    pub hi: Node,
}

impl View for Node {
    type V = NodeKind;

    closed spec fn view(&self) -> NodeKind {
        if self.code() == usize::MAX {
            NodeKind::True
        } else if self.code() == usize::MAX - 1 {
            NodeKind::False
        } else {
            NodeKind::Internal(Id::spec_new(self.code()))
        }
    }
}

/// The hash that `rustc_hash::FxHasher` gives to three words written to it in this order.
pub uninterp spec fn fx_digest(first: usize, second: usize, third: usize) -> u64;

/// `rustc_hash::FxHasher`: a fresh hasher, fed the label and the two children of `value` as
/// words, and asked for its hash.
///
/// The hasher starts from a fixed state and has no seed, so on a given machine the hash is a
/// function of the three words.
#[verifier::external_body]
fn fxhash_one(value: &InternalNode) -> (h: u64)
    ensures
        h == fx_digest(value.label@, value.lo.code(), value.hi.code()),
{
    let mut hasher = rustc_hash::FxHasher::default();
    hasher.write_usize(value.label.get());
    hasher.write_usize(value.lo.0);
    hasher.write_usize(value.hi.0);
    hasher.finish()
}

impl Interned for InternalNode {
    open spec fn digest(&self) -> u64 {
        fx_digest(self.label@, self.lo.code(), self.hi.code())
    }

    fn fingerprint(&self) -> (h: u64) {
        fxhash_one(self)
    }

    fn same(&self, other: &Self) -> (b: bool) {
        broadcast use Id::lemma_view_injective;

        self.label.get() == other.label.get() && self.lo == other.lo && self.hi == other.hi
    }
}

impl Node {
    /// The integer that encodes the handle.
    pub closed spec fn code(self) -> usize {
        self.0
    }

    /// The terminal for `value`, in specifications.
    pub closed spec fn spec_terminal(value: bool) -> Node {
        if value {
            Node(usize::MAX)
        } else {
            Node((usize::MAX - 1) as usize)
        }
    }

    /// The handle of the internal node at `id`, in specifications.
    pub closed spec fn spec_internal(id: Id<InternalNode>) -> Node {
        Node(id@)
    }

    /// The terminal for `value`: the largest integer for the true one, the one before it for
    /// the false one.
    #[verifier::when_used_as_spec(spec_terminal)]
    pub fn terminal(value: bool) -> (n: Node)
        ensures
            n == Self::spec_terminal(value),
            n.code() == (if value {
                usize::MAX
            } else {
                (usize::MAX - 1) as usize
            }),
            n@ == (if value {
                NodeKind::True
            } else {
                NodeKind::False
            }),
    {
        if value {
            Node(usize::MAX)
        } else {
            Node(usize::MAX - 1)
        }
    }

    /// What this handle stands for.
    pub fn kind(&self) -> (k: NodeKind)
        ensures
            k == self@,
    {
        if self.0 == usize::MAX {
            NodeKind::True
        } else if self.0 == usize::MAX - 1 {
            NodeKind::False
        } else {
            NodeKind::Internal(Id::new(self.0))
        }
    }

    /// The handle of the internal node at `id`, which is encoded as its position.
    ///
    /// Positions from `isize::MAX` on are not handed out, which keeps every internal handle
    /// clear of the two terminals.
    #[verifier::when_used_as_spec(spec_internal)]
    pub fn from_id(id: Id<InternalNode>) -> (n: Node)
        requires
            id@ < isize::MAX,
        ensures
            n == Self::spec_internal(id),
            n.code() == id@,
            n@ == NodeKind::Internal(id),
    {
        broadcast use Id::lemma_view_injective, Id::lemma_view_of_new;

        Node(id.get())
    }

    /// The handle that stands for `kind`.
    pub fn from_kind(kind: NodeKind) -> (n: Node)
        requires
            kind matches NodeKind::Internal(id) ==> id@ < isize::MAX,
        ensures
            n@ == kind,
    {
        match kind {
            NodeKind::True => Self::terminal(true),
            NodeKind::False => Self::terminal(false),
            NodeKind::Internal(id) => Self::from_id(id),
        }
    }

    /// The integers that encode the terminals, and what they stand for.
    pub broadcast proof fn lemma_terminal(value: bool)
        ensures
            (#[trigger] Self::spec_terminal(value)).code() == (if value {
                usize::MAX
            } else {
                (usize::MAX - 1) as usize
            }),
            Self::spec_terminal(value)@ == (if value {
                NodeKind::True
            } else {
                NodeKind::False
            }),
    {
    }

    /// How a handle is encoded: the largest integer is the true terminal, the one before it
    /// the false terminal, and every other integer the internal node at that position.
    pub proof fn lemma_encoding(n: Node)
        ensures
            n@ == (if n.code() == usize::MAX {
                NodeKind::True
            } else if n.code() == usize::MAX - 1 {
                NodeKind::False
            } else {
                NodeKind::Internal(Id::spec_new(n.code()))
            }),
    {
    }

    /// A handle that stands for a truth value is the terminal for it.
    pub proof fn lemma_is_terminal(n: Node, value: bool)
        requires
            n@ == (if value {
                NodeKind::True
            } else {
                NodeKind::False
            }),
        ensures
            n == Self::spec_terminal(value),
    {
    }

    /// A position below `isize::MAX` is encoded as itself, and stands for the internal node
    /// there.
    pub broadcast proof fn lemma_internal(id: Id<InternalNode>)
        requires
            id@ < isize::MAX,
        ensures
            (#[trigger] Self::spec_internal(id)).code() == id@,
            Self::spec_internal(id)@ == NodeKind::Internal(id),
    {
        broadcast use Id::lemma_view_injective, Id::lemma_view_of_new;

    }

    /// Two handles with the same encoding are the same handle.
    pub broadcast proof fn lemma_code_injective(a: Node, b: Node)
        requires
            #[trigger] a.code() == #[trigger] b.code(),
        ensures
            a == b,
    {
    }

    /// Two handles that stand for the same thing are the same handle.
    pub broadcast proof fn lemma_view_injective(a: Node, b: Node)
        requires
            #[trigger] a@ == #[trigger] b@,
        ensures
            a == b,
    {
        broadcast use Id::lemma_view_of_new;

    }
}

} // verus!
