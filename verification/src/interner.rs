use std::marker::PhantomData;
use vstd::prelude::*;
use vstd::std_specs::cmp::PartialEqSpec;

verus! {

/// Opaque key returned by [`DedupInterner`]: the position of the value in the
/// interner's table.
#[derive(Debug, Hash)]
pub struct InternedId(usize);

impl Clone for InternedId {
    fn clone(&self) -> (copy: Self)
        ensures
            copy == *self,
    {
        *self
    }
}

impl Copy for InternedId {

}


impl InternedId {
    /// The table position this key stands for.
    pub closed spec fn position(self) -> nat {
        self.0 as nat
    }

    /// Two keys with the same position are the same key.
    pub proof fn lemma_same_position(a: Self, b: Self)
        requires
            a.position() == b.position(),
        ensures
            a == b,
    {
    }

    fn from_index(index: usize) -> (id: Self)
        ensures
            id.position() == index,
    {
        InternedId(index)
    }

    fn index(self) -> (index: usize)
        ensures
            index == self.position(),
    {
        self.0
    }
}

/// Interns user values into stable keys used by [`crate::SpaceContext`].
///
/// The model of an interner is a set of valid keys, each standing for an
/// item. Interning never invalidates a key nor changes the item it stands for.
pub trait SpaceInterner: Sized {
    /// The caller-facing value represented by this interner.
    type Item: Eq + std::hash::Hash + std::fmt::Debug;

    /// The key stored in space nodes and engine caches.
    type Key: Clone + Eq + std::hash::Hash + std::fmt::Debug;

    /// Whether `key` was handed out by this interner.
    spec fn valid_key(&self, key: Self::Key) -> bool;

    /// The item that a valid `key` stands for.
    spec fn item(&self, key: Self::Key) -> Self::Item;

    /// A copy of a valid key made by `clone` is valid too.
    proof fn lemma_cloned_key_is_valid(&self, key: Self::Key, copy: Self::Key)
        requires
            self.valid_key(key),
            cloned::<Self::Key>(key, copy),
        ensures
            self.valid_key(copy),
    ;

    /// The interner hands out one key at most for items that `==` finds
    /// equal to each other.
    spec fn distinct_keys(&self) -> bool;

    /// Valid keys of items that `==` finds equal to each other are one key, or
    /// keys that `==` finds equal.
    proof fn lemma_equal_items_same_key(&self, first: Self::Key, second: Self::Key)
        requires
            self.distinct_keys(),
            self.valid_key(first),
            self.valid_key(second),
            Self::Item::obeys_eq_spec(),
            self.item(first).eq_spec(&self.item(second)),
            self.item(second).eq_spec(&self.item(first)),
        ensures
            first == second || (Self::Key::obeys_eq_spec() ==> first.eq_spec(&second)),
    ;

    /// Interns `item` and returns its stable key.
    fn intern(&mut self, item: Self::Item) -> (key: Self::Key)
        ensures
            old(self).distinct_keys() ==> final(self).distinct_keys(),
            final(self).valid_key(key),
            final(self).item(key) == item || (old(self).valid_key(key) && (
            Self::Item::obeys_eq_spec() ==> final(self).item(key).eq_spec(&item))),
            forall|k: Self::Key|
                old(self).valid_key(k) ==> final(self).valid_key(k) && final(self).item(k)
                    == old(self).item(k),
    ;

    /// Resolves a key back to the represented item.
    fn get<'a>(&'a self, key: &'a Self::Key) -> (item: &'a Self::Item)
        requires
            self.valid_key(*key),
        ensures
            *item == self.item(*key),
    ;
}

/// `key` is valid after interning `item`, and stands for `item` itself, or for a
/// value that was already interned and that `==` finds equal to `item`.
pub open spec fn interned_as<I: SpaceInterner>(
    before: I,
    after: I,
    key: I::Key,
    item: I::Item,
) -> bool {
    &&& after.valid_key(key)
    &&& after.item(key) == item || (before.valid_key(key) && (I::Item::obeys_eq_spec()
        ==> after.item(key).eq_spec(&item)))
}

/// Deduplicating interner used by the default [`crate::SpaceContext`].
///
/// Values are kept in insertion order; a value equal (by `==`) to one already
/// present is not stored again.
pub struct DedupInterner<T> {
    values: Vec<T>,
}

impl<T> DedupInterner<T> {
    /// The interned values, in insertion order.
    pub closed spec fn values(&self) -> Seq<T> {
        self.values@
    }

    /// Creates an empty interner.
    pub fn new() -> (interner: Self)
        ensures
            interner.values() == Seq::<T>::empty(),
    {
        DedupInterner { values: Vec::new() }
    }
}

impl<T: Eq + std::hash::Hash + std::fmt::Debug> DedupInterner<T> {
    /// Creates an empty interner, which holds no two values that `==` finds
    /// equal.
    pub(crate) fn fresh() -> (interner: Self)
        ensures
            interner.values() == Seq::<T>::empty(),
            interner.distinct_keys(),
    {
        DedupInterner::new()
    }
}

impl<T> Default for DedupInterner<T> {
    fn default() -> (interner: Self)
        ensures
            interner.values() == Seq::<T>::empty(),
    {
        DedupInterner::new()
    }
}

impl<T: Eq + std::hash::Hash + std::fmt::Debug> DedupInterner<T> {
    /// Interning `item` took `before` to `after` and gave `key`: the key of the
    /// first stored value that `==` finds equal to `item`, the table unchanged;
    /// or, when there is none, the key of `item` appended to the table.
    pub open spec fn interns(before: Self, after: Self, item: T, key: InternedId) -> bool {
        &&& before.values().len() <= after.values().len() <= before.values().len() + 1
        &&& after.values().len() == before.values().len() + 1 ==> after.values() == before.values().push(item)
            && key.position() == before.values().len()
        &&& after.values().len() == before.values().len() ==> after.values() == before.values() && key.position()
            < before.values().len() && (T::obeys_eq_spec() ==> before.values()[key.position() as int].eq_spec(&item)
            && forall|j: int| 0 <= j < key.position() ==> !#[trigger] before.values()[j].eq_spec(&item))
        &&& T::obeys_eq_spec() ==> (after.values().len() == before.values().len() + 1 <==> forall|j: int|
            0 <= j < before.values().len() ==> !#[trigger] before.values()[j].eq_spec(&item))
    }

    /// Interning a value twice gives the same key, and the second time the
    /// table does not grow; the value is one that `==` finds equal to itself.
    pub proof fn lemma_intern_twice(
        start: Self,
        middle: Self,
        end: Self,
        item: T,
        first: InternedId,
        second: InternedId,
    )
        requires
            T::obeys_eq_spec(),
            item.eq_spec(&item),
            Self::interns(start, middle, item, first),
            Self::interns(middle, end, item, second),
        ensures
            first == second,
            end.values() == middle.values(),
    {
        if middle.values().len() == start.values().len() + 1 {
            assert(middle.values()[first.position() as int] == item);
        }
        assert(!(forall|j: int| 0 <= j < middle.values().len() ==> !#[trigger] middle.values()[j].eq_spec(&item)));
        if second.position() < first.position() {
            assert(middle.values()[second.position() as int].eq_spec(&item));
            if middle.values().len() == start.values().len() {
                assert(start.values()[second.position() as int].eq_spec(&item));
            } else {
                assert(middle.values()[second.position() as int] == start.values()[second.position() as int]);
            }
        }
        if first.position() < second.position() {
            assert(middle.values()[first.position() as int].eq_spec(&item));
        }
        InternedId::lemma_same_position(first, second);
    }

    /// Position of the first stored value equal to `item`, if any.
    fn position_of(&self, item: &T) -> (found: Option<usize>)
        ensures
            match found {
                Some(i) => i < self.values().len() && (T::obeys_eq_spec() ==> self.values()[i as int].eq_spec(item)
                    && forall|j: int| 0 <= j < i ==> !#[trigger] self.values()[j].eq_spec(item)),
                None => T::obeys_eq_spec() ==> forall|j: int|
                    0 <= j < self.values().len() ==> !#[trigger] self.values()[j].eq_spec(item),
            },
    {
        let mut i: usize = 0;
        while i < self.values.len()
            invariant
                i <= self.values@.len(),
                T::obeys_eq_spec() ==> forall|j: int| 0 <= j < i ==> !#[trigger] self.values@[j].eq_spec(item),
            decreases self.values@.len() - i,
        {
            if self.values[i] == *item {
                return Some(i);
            }
            i = i + 1;
        }
        None
    }
}

impl<T: Eq + std::hash::Hash + std::fmt::Debug> SpaceInterner for DedupInterner<T> {
    type Item = T;

    type Key = InternedId;

    closed spec fn valid_key(&self, key: InternedId) -> bool {
        key.position() < self.values@.len()
    }

    closed spec fn item(&self, key: InternedId) -> T {
        self.values@[key.position() as int]
    }

    closed spec fn distinct_keys(&self) -> bool {
        T::obeys_eq_spec() ==> forall|i: int, j: int|
            #![trigger self.values@[i].eq_spec(&self.values@[j])]
            0 <= i < j < self.values@.len() ==> !self.values@[i].eq_spec(&self.values@[j])
    }

    proof fn lemma_equal_items_same_key(&self, first: InternedId, second: InternedId) {
        if first.position() < second.position() {
            assert(self.values@[first.position() as int].eq_spec(&self.values@[second.position() as int]));
        } else if second.position() < first.position() {
            assert(self.values@[second.position() as int].eq_spec(&self.values@[first.position() as int]));
        }
        InternedId::lemma_same_position(first, second);
    }

    proof fn lemma_cloned_key_is_valid(&self, key: InternedId, copy: InternedId) {
        if key != copy {
            assert(call_ensures(InternedId::clone, (&key,), copy));
        }
    }

    fn intern(&mut self, item: T) -> (key: InternedId)
        ensures
            DedupInterner::interns(*old(self), *final(self), item, key),
    {
        match self.position_of(&item) {
            Some(index) => InternedId::from_index(index),
            None => {
                let index = self.values.len();
                let ghost before = self.values@;
                self.values.push(item);
                proof {
                    if T::obeys_eq_spec() && old(self).distinct_keys() {
                        assert forall|i: int, j: int| 0 <= i < j < self.values@.len() implies !self.values@[i].eq_spec(
                            &self.values@[j],
                        ) by {
                            assert(self.values@[i] == before[i]);
                            if j < index {
                                assert(self.values@[j] == before[j]);
                            } else {
                                assert(self.values@[j] == item);
                                assert(!old(self).values()[i].eq_spec(&item));
                            }
                        }
                    }
                }
                InternedId::from_index(index)
            },
        }
    }

    fn get<'a>(&'a self, key: &'a InternedId) -> (item: &'a T) {
        &self.values[key.index()]
    }
}

/// Interner for callers that already use cheap, stable, interned values: every
/// value is its own key.
pub struct IdentityInterner<T> {
    _marker: PhantomData<T>,
}

impl<T> IdentityInterner<T> {
    /// Creates the interner.
    pub fn new() -> (interner: Self) {
        IdentityInterner { _marker: PhantomData }
    }
}

impl<T> Default for IdentityInterner<T> {
    fn default() -> (interner: Self) {
        IdentityInterner::new()
    }
}

impl<T: Clone + Eq + std::hash::Hash + std::fmt::Debug> SpaceInterner for IdentityInterner<T> {
    type Item = T;

    type Key = T;

    open spec fn valid_key(&self, key: T) -> bool {
        true
    }

    open spec fn item(&self, key: T) -> T {
        key
    }

    proof fn lemma_cloned_key_is_valid(&self, key: T, copy: T) {
    }

    open spec fn distinct_keys(&self) -> bool {
        true
    }

    proof fn lemma_equal_items_same_key(&self, first: T, second: T) {
    }

    fn intern(&mut self, item: T) -> (key: T)
        ensures
            key == item,
    {
        item
    }

    fn get<'a>(&'a self, key: &'a T) -> (item: &'a T) {
        key
    }
}

impl vstd::std_specs::cmp::PartialEqSpecImpl for InternedId {
    open spec fn obeys_eq_spec() -> bool {
        true
    }

    open spec fn eq_spec(&self, other: &Self) -> bool {
        self.position() == other.position()
    }
}

impl PartialEq for InternedId {
    fn eq(&self, other: &Self) -> (same: bool) {
        self.0 == other.0
    }
}

impl Eq for InternedId {

}

} // verus!
