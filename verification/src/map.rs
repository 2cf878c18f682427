use vstd::prelude::*;

use crate::slots::{
    grow_positions, grown_capacity, grown_capacity_of, lemma_grow, lemma_items_in_view, lemma_push,
    lemma_set_value, lemma_swap_remove, lemma_view_in_items, lemma_view_len, removed_items,
    removed_positions, reversed, slots_consistent, slots_view, NULL_POSITION,
};

verus! {

/// The position of the entry of `index` among `items`.
pub open spec fn position_of<V>(items: Seq<(usize, V)>, index: usize) -> int {
    choose|p: int| 0 <= p < items.len() && items[p].0 == index
}


/// The map obtained from `m` by inserting the entries of `entries` in order.
pub open spec fn inserted_all<V>(m: Map<usize, V>, entries: Seq<(usize, V)>) -> Map<usize, V>
    decreases entries.len(),
{
    if entries.len() == 0 {
        m
    } else {
        inserted_all(m, entries.drop_last()).insert(entries.last().0, entries.last().1)
    }
}

/// Whether the position array may have to grow to hold `index`.
pub open spec fn index_fits(capacity: nat, index: usize) -> bool {
    index < capacity || index <= usize::MAX / 2
}

/// The capacity after making room for `index`.
pub open spec fn capacity_after(capacity: nat, index: usize) -> nat {
    if index < capacity {
        capacity
    } else {
        grown_capacity(index as nat)
    }
}

/// A map from small non-negative integer indices to values, backed by a
/// position array indexed by the key and a dense array of entries.
#[derive(Clone, Debug)]
pub struct IndexMap<ValueT> {
    index_to_position: Vec<usize>,
    items: Vec<(usize, ValueT)>,
}

impl<ValueT> View for IndexMap<ValueT> {
    type V = vstd::map::Map<usize, ValueT>;

    closed spec fn view(&self) -> vstd::map::Map<usize, ValueT> {
        slots_view(self.index_to_position@, self.items@)
    }
}

impl<ValueT> IndexMap<ValueT> {
    /// The two arrays describe each other.
    pub closed spec fn wf(self) -> bool {
        slots_consistent(self.index_to_position@, self.items@)
    }

    /// The entries, in the order `iter` yields them.
    pub closed spec fn items(self) -> Seq<(usize, ValueT)> {
        self.items@
    }

    /// The length of the position array.
    pub closed spec fn spec_capacity(self) -> nat {
        self.index_to_position@.len()
    }

    /// The entries and the map agree, and the map has as many entries as
    /// there are items.
    pub proof fn lemma_items(self)
        requires
            self.wf(),
        ensures
            self@.dom().finite(),
            self@.len() == self.items().len(),
            forall|p: int|
                0 <= p < self.items().len() ==> self@.contains_key(#[trigger] self.items()[p].0)
                    && self@[self.items()[p].0] == self.items()[p].1,
            forall|i: usize| #[trigger]
                self@.contains_key(i) ==> exists|p: int|
                    0 <= p < self.items().len() && self.items()[p] == (i, self@[i]),
            forall|i: usize| #[trigger] self@.contains_key(i) ==> i < self.spec_capacity(),
    {
        lemma_view_len(self.index_to_position@, self.items@);
        assert forall|p: int| 0 <= p < self.items().len() implies self@.contains_key(
            #[trigger] self.items()[p].0,
        ) && self@[self.items()[p].0] == self.items()[p].1 by {
            lemma_items_in_view(self.index_to_position@, self.items@, p);
        }
        assert forall|i: usize| #[trigger] self@.contains_key(i) implies exists|p: int|
            0 <= p < self.items().len() && self.items()[p] == (i, self@[i]) by {
            lemma_view_in_items(self.index_to_position@, self.items@, i);
            let p = self.index_to_position@[i as int] as int;
            assert(self.items()[p] == (i, self@[i]));
        }
    }

    /// No two entries share an index.
    pub proof fn lemma_keys_unique(self)
        requires
            self.wf(),
        ensures
            forall|p: int, q: int|
                0 <= p < self.items().len() && 0 <= q < self.items().len() && p != q
                    ==> #[trigger] self.items()[p].0 != #[trigger] self.items()[q].0,
    {
    }

    /// An empty map.
    pub fn new() -> (map: Self)
        ensures
            map.wf(),
            map@ == vstd::map::Map::<usize, ValueT>::empty(),
            map.spec_capacity() == 0,
            map.items().len() == 0,
    {
        let map = Self { index_to_position: Vec::new(), items: Vec::new() };
        proof {
            assert(map@ =~= vstd::map::Map::<usize, ValueT>::empty());
        }
        map
    }

    /// A map holding the entries of `entries`; a later entry for an index
    /// replaces an earlier one.
    pub fn from_iter(entries: Vec<(usize, ValueT)>) -> (map: Self)
        requires
            forall|k: int| 0 <= k < entries@.len() ==> (#[trigger] entries@[k]).0 <= usize::MAX / 2,
            entries@.len() + 1 < usize::MAX,
        ensures
            map.wf(),
            map@ == inserted_all(vstd::map::Map::<usize, ValueT>::empty(), entries@),
    {
        let mut map = Self::new();
        map.extend(entries);
        map
    }

    /// The number of entries.
    pub fn len(&self) -> (length: usize)
        requires
            self.wf(),
        ensures
            length == self@.len(),
    {
        proof {
            lemma_view_len(self.index_to_position@, self.items@);
        }
        self.items.len()
    }

    /// The number of indices the position array holds without growing.
    pub fn capacity(&self) -> (capacity: usize)
        ensures
            capacity == self.spec_capacity(),
    {
        self.index_to_position.len()
    }

    /// Makes room for `additional` more indices.
    pub fn reserve(&mut self, additional: usize)
        requires
            old(self).wf(),
            old(self).spec_capacity() + additional <= usize::MAX,
        ensures
            final(self).wf(),
            final(self)@ == old(self)@,
            final(self).items() == old(self).items(),
            final(self).spec_capacity() == old(self).spec_capacity() + additional,
    {
        let ghost before = self.index_to_position@;
        let length = self.index_to_position.len() + additional;
        grow_positions(&mut self.index_to_position, length);
        proof {
            lemma_grow(before, self.items@, self.index_to_position@.subrange(before.len() as int, self.index_to_position@.len() as int));
        }
    }

    /// Whether the map has no entry.
    pub fn is_empty(&self) -> (empty: bool)
        requires
            self.wf(),
        ensures
            empty == (self@.len() == 0),
    {
        proof {
            lemma_view_len(self.index_to_position@, self.items@);
        }
        self.items.len() == 0
    }

    /// Whether `index` has an entry.
    pub fn contains_key(&self, index: usize) -> (contains: bool)
        requires
            self.wf(),
        ensures
            contains == self@.contains_key(index),
    {
        if index >= self.index_to_position.len() {
            false
        } else {
            self.index_to_position[index] != NULL_POSITION
        }
    }

    /// The value of `index`, if it has an entry.
    pub fn get(&self, index: usize) -> (value: Option<&ValueT>)
        requires
            self.wf(),
        ensures
            match value {
                Some(v) => self@.contains_key(index) && *v == self@[index],
                None => !self@.contains_key(index),
            },
    {
        if index >= self.index_to_position.len() {
            None
        } else {
            let position = self.index_to_position[index];
            if position == NULL_POSITION {
                None
            } else {
                Some(&self.items[position].1)
            }
        }
    }

    /// Grows the position array so that it holds `index`.
    fn make_room(&mut self, index: usize)
        requires
            old(self).wf(),
            index_fits(old(self).spec_capacity(), index),
        ensures
            final(self).wf(),
            final(self)@ == old(self)@,
            final(self).items() == old(self).items(),
            final(self).spec_capacity() == capacity_after(old(self).spec_capacity(), index),
            index < final(self).spec_capacity(),
    {
        if index >= self.index_to_position.len() {
            let ghost before = self.index_to_position@;
            let length = grown_capacity_of(index);
            grow_positions(&mut self.index_to_position, length);
            proof {
                lemma_grow(
                    before,
                    self.items@,
                    self.index_to_position@.subrange(
                        before.len() as int,
                        self.index_to_position@.len() as int,
                    ),
                );
            }
        }
    }

    /// Sets the value of `index` to `value`.
    pub fn insert(&mut self, index: usize, value: ValueT)
        requires
            old(self).wf(),
            index_fits(old(self).spec_capacity(), index),
            old(self).items().len() + 1 < usize::MAX,
        ensures
            final(self).wf(),
            final(self)@ == old(self)@.insert(index, value),
            final(self).spec_capacity() == capacity_after(old(self).spec_capacity(), index),
            final(self).items().len() == old(self).items().len() + if old(self)@.contains_key(
                index,
            ) {
                0int
            } else {
                1int
            },
            final(self).items() == if old(self)@.contains_key(index) {
                old(self).items().update(position_of(old(self).items(), index), (index, value))
            } else {
                old(self).items().push((index, value))
            },
    {
        proof {
            self.lemma_items();
            self.lemma_keys_unique();
        }
        self.make_room(index);
        let position = self.index_to_position[index];
        if position == NULL_POSITION {
            proof {
                lemma_push(self.index_to_position@, self.items@, index, value);
            }
            self.index_to_position.set(index, self.items.len());
            self.items.push((index, value));
        } else {
            proof {
                lemma_set_value(self.index_to_position@, self.items@, position as int, value);
            }
            self.items.set(position, (index, value));
        }
    }

    /// Inserts the entries of `entries` in order.
    pub fn extend(&mut self, entries: Vec<(usize, ValueT)>)
        requires
            old(self).wf(),
            forall|k: int|
                0 <= k < entries@.len() ==> index_fits(
                    old(self).spec_capacity(),
                    (#[trigger] entries@[k]).0,
                ),
            old(self).items().len() + entries@.len() + 1 < usize::MAX,
        ensures
            final(self).wf(),
            final(self)@ == inserted_all(old(self)@, entries@),
    {
        let ghost all = entries@;
        let ghost start = self@;
        let mut rest = reversed(entries);
        let mut k: usize = 0;
        while rest.len() > 0
            invariant
                self.wf(),
                k + rest@.len() == all.len(),
                rest@ == all.subrange(k as int, all.len() as int).reverse(),
                self@ == inserted_all(start, all.subrange(0, k as int)),
                self.items().len() <= old(self).items().len() + k,
                old(self).items().len() + all.len() + 1 < usize::MAX,
                self.spec_capacity() >= old(self).spec_capacity(),
                forall|j: int|
                    0 <= j < all.len() ==> index_fits(
                        old(self).spec_capacity(),
                        (#[trigger] all[j]).0,
                    ),
            decreases rest@.len(),
        {
            let entry = rest.pop().unwrap();
            proof {
                assert(entry == all[k as int]);
                assert(all.subrange(0, k as int + 1).drop_last() =~= all.subrange(0, k as int));
                assert(rest@ =~= all.subrange(k as int + 1, all.len() as int).reverse());
                lemma_view_len(self.index_to_position@, self.items@);
            }
            self.insert(entry.0, entry.1);
            k = k + 1;
            proof {
                crate::slots::lemma_grown_capacity(entry.0 as nat);
            }
        }
        proof {
            assert(all.subrange(0, all.len() as int) =~= all);
        }
    }

    /// Removes the entry of `index`, returning its value.
    pub fn remove(&mut self, index: usize) -> (value: Option<ValueT>)
        requires
            old(self).wf(),
        ensures
            final(self).wf(),
            final(self)@ == old(self)@.remove(index),
            value == old(self)@.get(index),
            final(self).spec_capacity() == old(self).spec_capacity(),
            final(self).items().len() <= old(self).items().len(),
            final(self).items() == if old(self)@.contains_key(index) {
                removed_items(old(self).items(), position_of(old(self).items(), index))
            } else {
                old(self).items()
            },
    {
        proof {
            self.lemma_items();
            self.lemma_keys_unique();
        }
        if index >= self.index_to_position.len() {
            return None;
        }
        let position = self.index_to_position[index];
        if position == NULL_POSITION {
            proof {
                assert(self@.remove(index) =~= self@);
            }
            return None;
        }
        proof {
            lemma_swap_remove(self.index_to_position@, self.items@, position as int);
        }
        let (_, value) = self.items.swap_remove(position);
        self.index_to_position.set(index, NULL_POSITION);
        if position != self.items.len() {
            let moved = self.items[position].0;
            self.index_to_position.set(moved, position);
        }
        proof {
            assert(self.items@ == removed_items(old(self).items@, position as int));
            assert(self.index_to_position@ == removed_positions(
                old(self).index_to_position@,
                old(self).items@,
                position as int,
            ));
        }
        Some(value)
    }

    /// Removes the last entry in iteration order, if any.
    pub fn pop(&mut self) -> (entry: Option<(usize, ValueT)>)
        requires
            old(self).wf(),
        ensures
            final(self).wf(),
            entry is None <==> old(self)@.len() == 0,
            entry is None ==> final(self)@ == old(self)@,
            entry matches Some(e) ==> e == old(self).items().last() && old(self)@.contains_key(e.0)
                && old(self)@[e.0] == e.1 && final(self)@ == old(self)@.remove(e.0)
                && final(self).items() == old(self).items().drop_last(),
            final(self).spec_capacity() == old(self).spec_capacity(),
    {
        proof {
            lemma_view_len(self.index_to_position@, self.items@);
        }
        let length = self.items.len();
        if length == 0 {
            return None;
        }
        proof {
            lemma_items_in_view(self.index_to_position@, self.items@, length as int - 1);
            lemma_swap_remove(self.index_to_position@, self.items@, length as int - 1);
            assert(removed_items(self.items@, length as int - 1) =~= self.items@.drop_last());
        }
        let entry = self.items.pop().unwrap();
        self.index_to_position.set(entry.0, NULL_POSITION);
        Some(entry)
    }

    /// Removes every entry, keeping the capacity.
    pub fn clear(&mut self)
        requires
            old(self).wf(),
        ensures
            final(self).wf(),
            final(self)@ == vstd::map::Map::<usize, ValueT>::empty(),
            final(self).spec_capacity() == old(self).spec_capacity(),
    {
        while self.items.len() > 0
            invariant
                self.wf(),
                self.spec_capacity() == old(self).spec_capacity(),
            decreases self.items@.len(),
        {
            proof {
                lemma_view_len(self.index_to_position@, self.items@);
            }
            self.pop();
        }
        proof {
            lemma_view_len(self.index_to_position@, self.items@);
            assert(self@ =~= vstd::map::Map::<usize, ValueT>::empty());
        }
    }

    /// The entries in the order they are stored: a new index goes last, and a
    /// removed one is replaced by the last (see `insert`, `remove`).
    pub fn iter(&self) -> (entries: &[(usize, ValueT)])
        ensures
            entries@ == self.items(),
    {
        self.items.as_slice()
    }
}

impl<ValueT> Default for IndexMap<ValueT> {
    fn default() -> (map: Self)
        ensures
            map.wf(),
            map@ == vstd::map::Map::<usize, ValueT>::empty(),
    {
        Self::new()
    }
}

/// A read gives back the last write of an index and is unaffected by writes
/// and removals of other indices; a removal after a write forgets it.
pub proof fn lemma_read_after_write<V>(m: vstd::map::Map<usize, V>, index: usize, value: V, other: usize)
    ensures
        m.insert(index, value).contains_key(index),
        m.insert(index, value)[index] == value,
        other != index ==> m.insert(index, value).contains_key(other) == m.contains_key(other),
        other != index && m.contains_key(other) ==> m.insert(index, value)[other] == m[other],
        other != index ==> m.remove(index).contains_key(other) == m.contains_key(other),
        m.insert(index, value).remove(index) == m.remove(index),
{
    assert(m.insert(index, value).remove(index) =~= m.remove(index));
}

} // verus!
