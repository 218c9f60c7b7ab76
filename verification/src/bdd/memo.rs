//! The memo tables of the operators: maps from operand positions to result handles.

use crate::bdd::node::Node;
use rustc_hash::FxBuildHasher;
use rustc_hash::FxHashMap;
use std::hash::Hash;
use vstd::prelude::*;

verus! {

/// `rustc_hash::FxBuildHasher`, the hasher of the memo tables: a value without state, of which
/// nothing is looked into here.
#[verifier::external_type_specification]
#[verifier::external_body]
pub struct ExFxBuildHasher(FxBuildHasher);

/// The keys of the memo tables: positions and pairs of positions, which are equal and hash
/// alike exactly when they are the same integers.
pub(crate) trait MemoKey {

}

impl MemoKey for usize {

}

impl MemoKey for (usize, usize) {

}

/// `HashMap::with_hasher`, given `rustc_hash::FxBuildHasher`: a map with nothing in it.
#[verifier::external_body]
pub(crate) fn memo_new<K: MemoKey + Copy + Eq + Hash>() -> (memo: FxHashMap<K, Node>)
    ensures
        memo@ == (Map::<K, Node>::empty()),
{
    FxHashMap::with_hasher(FxBuildHasher)
}

/// `HashMap::get` on a map that hashes with `rustc_hash::FxBuildHasher`: the value kept for
/// `key`, if there is one.
#[verifier::external_body]
pub(crate) fn memo_get<K: MemoKey + Copy + Eq + Hash>(
    memo: &FxHashMap<K, Node>,
    key: K,
) -> (found: Option<Node>)
    ensures
        found == (if memo@.contains_key(key) {
            Some(memo@[key])
        } else {
            None
        }),
{
    memo.get(&key).copied()
}

/// `HashMap::insert` on a map that hashes with `rustc_hash::FxBuildHasher`: the map then keeps
/// `value` for `key`, and what it kept for other keys stays.
#[verifier::external_body]
pub(crate) fn memo_insert<K: MemoKey + Copy + Eq + Hash>(
    memo: &mut FxHashMap<K, Node>,
    key: K,
    value: Node,
)
    ensures
        final(memo)@ == old(memo)@.insert(key, value),
{
    memo.insert(key, value);
}

} // verus!
