//! Typed handles and the hash-consing arena that mints them.

use std::cmp::Ordering;
use std::marker::PhantomData;
use vstd::prelude::*;
use vstd::std_specs::cmp::PartialEqSpecImpl;
use vstd::std_specs::cmp::PartialOrdSpecImpl;

verus! {

/// A typed handle: the position of a value of type `T` in the arena that owns it.
///
/// The type parameter only keeps handles of different arenas apart; a handle is its integer.
#[derive(Debug, Hash)]
pub struct Id<T> {
    index: usize,
    _phantom: PhantomData<T>,
}

impl<T> View for Id<T> {
    type V = usize;

    closed spec fn view(&self) -> usize {
        self.index
    }
}

impl<T> Id<T> {
    /// The handle for position `index`, in specifications.
    pub closed spec fn spec_new(index: usize) -> Self {
        Self { index, _phantom: PhantomData }
    }

    /// The handle for position `index`.
    #[verifier::when_used_as_spec(spec_new)]
    pub fn new(index: usize) -> (id: Self)
        ensures
            id == Self::spec_new(index),
            id@ == index,
    {
        Self { index, _phantom: PhantomData }
    }

    /// The position this handle stands for.
    pub fn get(&self) -> (index: usize)
        ensures
            index == self@,
    {
        self.index
    }

    /// The handle made for a position stands for that position.
    pub broadcast proof fn lemma_view_of_new(index: usize)
        ensures
            (#[trigger] Self::spec_new(index))@ == index,
    {
    }

    /// Two handles with the same position are the same handle.
    pub broadcast proof fn lemma_view_injective(a: Self, b: Self)
        requires
            #[trigger] a@ == #[trigger] b@,
        ensures
            a == b,
    {
    }
}

impl<T> Clone for Id<T> {
    fn clone(&self) -> (r: Self)
        ensures
            r == *self,
    {
        *self
    }
}

impl<T> Copy for Id<T> {

}

impl<T> PartialEq for Id<T> {
    fn eq(&self, other: &Self) -> (r: bool) {
        self.index == other.index
    }
}

impl<T> PartialEqSpecImpl for Id<T> {
    open spec fn obeys_eq_spec() -> bool {
        true
    }

    open spec fn eq_spec(&self, other: &Self) -> bool {
        self@ == other@
    }
}

impl<T> Eq for Id<T> {

}

impl<T> PartialOrd for Id<T> {
    fn partial_cmp(&self, other: &Self) -> (r: Option<Ordering>) {
        if self.index < other.index {
            Some(Ordering::Less)
        } else if self.index == other.index {
            Some(Ordering::Equal)
        } else {
            Some(Ordering::Greater)
        }
    }
}

impl<T> PartialOrdSpecImpl for Id<T> {
    open spec fn obeys_partial_cmp_spec() -> bool {
        true
    }

    open spec fn partial_cmp_spec(&self, other: &Self) -> Option<Ordering> {
        if self@ < other@ {
            Some(Ordering::Less)
        } else if self@ == other@ {
            Some(Ordering::Equal)
        } else {
            Some(Ordering::Greater)
        }
    }
}

/// A value that an arena can intern: it has a hash that depends on the value alone, and it can
/// be compared with another value of its type.
pub trait Interned: Sized {
    /// The hash of the value.
    spec fn digest(&self) -> u64;

    /// Computes the hash of the value.
    fn fingerprint(&self) -> (h: u64)
        ensures
            h == self.digest(),
    ;

    /// Whether the two values are equal.
    fn same(&self, other: &Self) -> (b: bool)
        ensures
            b == (*self == *other),
    ;
}

/// The hash index of an arena: positions of the arena's values, each filed under a hash.
///
/// It holds a `hashbrown::HashTable<usize>`, which Verus cannot look into; what it holds is
/// [`index_entries`], and each operation on it is stated over that.
#[verifier::external_body]
pub struct HashIndex {
    table: hashbrown::HashTable<usize>,
}

/// What a hash index holds: the pairs of a hash and a position filed under it.
pub uninterp spec fn index_entries(index: HashIndex) -> Set<(u64, usize)>;

/// Whether the value at `position` is `value`.
fn holds_at<T: Interned>(values: &Vec<T>, position: usize, value: &T) -> (b: bool)
    requires
        position < values@.len(),
    ensures
        b == (values@[position as int] == *value),
{
    values[position].same(value)
}

/// The hash of the value at `position`.
fn digest_at<T: Interned>(values: &Vec<T>, position: usize) -> (h: u64)
    requires
        position < values@.len(),
    ensures
        h == values@[position as int].digest(),
{
    values[position].fingerprint()
}

impl HashIndex {
    /// Whether every position in the index is a position of `values`.
    pub open spec fn within<T>(self, values: Seq<T>) -> bool {
        forall|h: u64, i: usize| #[trigger]
            index_entries(self).contains((h, i)) ==> i < values.len()
    }

    /// Whether every position in the index is filed under the hash of the value it has in
    /// `values`.
    pub open spec fn filed_by_digest<T: Interned>(self, values: Seq<T>) -> bool {
        forall|h: u64, i: usize| #[trigger]
            index_entries(self).contains((h, i)) ==> i < values.len() && values[i as int].digest()
                == h
    }

    /// `hashbrown::HashTable::new`: a table with nothing in it.
    #[verifier::external_body]
    fn empty() -> (index: HashIndex)
        ensures
            index_entries(index) == Set::<(u64, usize)>::empty(),
    {
        HashIndex { table: hashbrown::HashTable::new() }
    }

    /// `hashbrown::HashTable::find`, asked for a position whose value in `values` is `value`.
    ///
    /// The table tries the test on every entry filed under `hash`, and perhaps on others, and
    /// returns an entry that passed it, if one did. So a position that comes back is in the
    /// index and holds `value`; when none comes back, no position filed under `hash` holds
    /// `value`.
    #[verifier::external_body]
    fn find<T: Interned>(&self, hash: u64, values: &Vec<T>, value: &T) -> (found: Option<usize>)
        requires
            self.within(values@),
        ensures
            match found {
                Some(i) => (exists|h: u64| index_entries(*self).contains((h, i)))
                    && values@[i as int] == *value,
                None => forall|i: usize| #[trigger]
                    index_entries(*self).contains((hash, i)) ==> values@[i as int] != *value,
            },
    {
        self.table.find(hash, |position| holds_at(values, *position, value)).copied()
    }

    /// `hashbrown::HashTable::insert_unique`: files `position` under `hash` without looking for
    /// an equal entry.
    ///
    /// When the table grows it asks for the hash of each entry again, which must be the hash
    /// the entry was filed under: the entries must be filed by the hashes of their values.
    #[verifier::external_body]
    fn insert_unique<T: Interned>(&mut self, hash: u64, position: usize, values: &Vec<T>)
        requires
            old(self).filed_by_digest(values@),
            position < values@.len(),
            values@[position as int].digest() == hash,
        ensures
            index_entries(*final(self)) == index_entries(*old(self)).insert((hash, position)),
    {
        self.table.insert_unique(hash, position, |position| digest_at(values, *position));
    }
}

/// A hash-consing arena: an append-only sequence of values in which no value occurs twice.
///
/// Its view is the sequence; a value's handle is its position in it.
pub struct IndexTable<T> {
    values: Vec<T>,
    table: HashIndex,
}

impl<T> View for IndexTable<T> {
    type V = Seq<T>;

    closed spec fn view(&self) -> Seq<T> {
        self.values@
    }
}

/// What [`IndexTable::get_or_insert`] does to an arena that holds `before`: the arena then
/// holds `after`, and `id` is the position of `value` in it.
pub open spec fn interned<T>(before: Seq<T>, value: T, after: Seq<T>, id: usize) -> bool {
    &&& id < after.len()
    &&& after[id as int] == value
    &&& if before.contains(value) {
        after == before
    } else {
        after == before.push(value) && id == before.len()
    }
}

/// Interning is idempotent: interning a value a second time returns the handle that the first
/// time returned and leaves the arena as the first time left it, and the first time adds at
/// most one value.
pub proof fn lemma_interned_twice<T>(
    before: Seq<T>,
    value: T,
    between: Seq<T>,
    first: usize,
    after: Seq<T>,
    second: usize,
)
    requires
        before.no_duplicates(),
        interned(before, value, between, first),
        interned(between, value, after, second),
    ensures
        second == first,
        after == between,
        between.len() <= before.len() + 1,
        between.no_duplicates(),
{
    assert(between.contains(value));
}

impl<T: Interned> Default for IndexTable<T> {
    /// An arena with nothing in it.
    fn default() -> (table: Self)
        ensures
            table.wf(),
            table@ == Seq::<T>::empty(),
    {
        Self { values: Vec::new(), table: HashIndex::empty() }
    }
}

impl<T: Interned> IndexTable<T> {
    /// The index files every position of the arena, under the hash of its value, and nothing
    /// else.
    pub closed spec fn indexed(&self) -> bool {
        &&& self.table.filed_by_digest(self.values@)
        &&& forall|i: int|
            0 <= i < self.values@.len() ==> index_entries(self.table).contains(
                (#[trigger] self.values@[i].digest(), i as usize),
            )
    }

    /// The arena's invariant: no value occurs twice, and the index finds every value.
    pub open spec fn wf(&self) -> bool {
        &&& self@.no_duplicates()
        &&& self.indexed()
    }

    /// The number of values in the arena.
    pub fn len(&self) -> (n: usize)
        ensures
            n == self@.len(),
    {
        self.values.len()
    }

    /// The values of the arena, in the order of their handles.
    pub fn values(&self) -> (values: &Vec<T>)
        ensures
            values@ == self@,
    {
        &self.values
    }

    /// The value that `id` stands for.
    pub fn index(&self, id: Id<T>) -> (value: &T)
        requires
            id@ < self@.len(),
        ensures
            *value == self@[id@ as int],
    {
        &self.values[id.get()]
    }

    /// The handle of `value`: that of the equal value already in the arena, or else a new one,
    /// for which `value` is appended.
    pub fn get_or_insert(&mut self, value: T) -> (id: Id<T>)
        requires
            old(self).wf(),
        ensures
            final(self).wf(),
            interned(old(self)@, value, final(self)@, id@),
    {
        let hash = value.fingerprint();
        match self.table.find(hash, &self.values, &value) {
            Some(position) => Id::new(position),
            None => {
                let position = self.values.len();
                assert(!self.values@.contains(value)) by {
                    if self.values@.contains(value) {
                        let i = self.values@.index_of(value);
                        assert(0 <= i < position && self.values@[i] == value);
                        let at: usize = i as usize;
                        assert(index_entries(self.table).contains(
                            (self.values@[at as int].digest(), at),
                        ));
                    }
                }
                self.values.push(value);
                self.table.insert_unique(hash, position, &self.values);
                Id::new(position)
            },
        }
    }
}

} // verus!
