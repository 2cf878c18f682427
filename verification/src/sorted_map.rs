use vstd::prelude::*;

use crate::comparator::Comparator;
use crate::map::{capacity_after, index_fits};
use crate::slots::{
    grow_positions, grown_capacity_of, lemma_grow, lemma_items_in_view, lemma_view_in_items,
    lemma_view_len, slots_consistent, slots_view, NULL_POSITION,
};

verus! {

/// `s` is in ascending order under `c`.
pub open spec fn sorted_by<V, C: Comparator<(usize, V)>>(c: C, s: Seq<(usize, V)>) -> bool {
    forall|a: int, b: int| 0 <= a < b < s.len() ==> c.spec_le(#[trigger] s[a], #[trigger] s[b])
}

/// `(index, value)` is an entry of `m` that comes, under `c`, no later than
/// any entry of `m`.
pub open spec fn is_min_entry<V, C: Comparator<(usize, V)>>(
    c: C,
    m: Map<usize, V>,
    index: usize,
    value: V,
) -> bool {
    &&& m.contains_key(index)
    &&& m[index] == value
    &&& forall|k: usize| #[trigger] m.contains_key(k) ==> c.spec_le((index, value), (k, m[k]))
}

/// `(index, value)` is an entry of `m` that comes, under `c`, no earlier
/// than any entry of `m`.
pub open spec fn is_max_entry<V, C: Comparator<(usize, V)>>(
    c: C,
    m: Map<usize, V>,
    index: usize,
    value: V,
) -> bool {
    &&& m.contains_key(index)
    &&& m[index] == value
    &&& forall|k: usize| #[trigger] m.contains_key(k) ==> c.spec_le((k, m[k]), (index, value))
}

/// The entries of `items` have pairwise distinct indices.
spec fn distinct_indices<V>(items: Seq<(usize, V)>) -> bool {
    forall|a: int, b: int| 0 <= a < b < items.len() ==> (#[trigger] items[a]).0 != (#[trigger] items[b]).0
}

/// Records in `positions` the position of every item from `from` on, given
/// that the earlier ones are recorded and that every recorded index belongs
/// to some item.
fn reindex<V>(positions: &mut Vec<usize>, items: &Vec<(usize, V)>, from: usize)
    requires
        items@.len() < usize::MAX,
        from <= items@.len(),
        distinct_indices(items@),
        forall|k: int| 0 <= k < items@.len() ==> (#[trigger] items@[k]).0 < old(positions)@.len(),
        forall|k: int| 0 <= k < from ==> old(positions)@[(#[trigger] items@[k]).0 as int] == k,
        forall|i: int|
            0 <= i < old(positions)@.len() && #[trigger] old(positions)@[i] != NULL_POSITION ==> exists|k: int|
                0 <= k < items@.len() && (#[trigger] items@[k]).0 == i,
    ensures
        slots_consistent(final(positions)@, items@),
        final(positions)@.len() == old(positions)@.len(),
{
    let mut k = from;
    while k < items.len()
        invariant
            items@.len() < usize::MAX,
            from <= k <= items@.len(),
            distinct_indices(items@),
            positions@.len() == old(positions)@.len(),
            forall|j: int| 0 <= j < items@.len() ==> (#[trigger] items@[j]).0 < positions@.len(),
            forall|j: int| 0 <= j < k ==> positions@[(#[trigger] items@[j]).0 as int] == j,
            forall|i: int|
                0 <= i < positions@.len() && #[trigger] positions@[i] != NULL_POSITION ==> exists|j: int|
                    0 <= j < items@.len() && (#[trigger] items@[j]).0 == i,
        decreases items@.len() - k,
    {
        let index = items[k].0;
        positions.set(index, k);
        proof {
            assert forall|j: int| 0 <= j < k + 1 implies positions@[(#[trigger] items@[j]).0 as int] == j by {
                if j < k {
                    assert(items@[j].0 != items@[k as int].0);
                }
            }
            assert forall|i: int|
                0 <= i < positions@.len() && #[trigger] positions@[i] != NULL_POSITION implies exists|j: int|
                    0 <= j < items@.len() && (#[trigger] items@[j]).0 == i by {
                if i == index {
                    assert(items@[k as int].0 == i);
                }
            }
        }
        k = k + 1;
    }
    proof {
        assert forall|i: int|
            0 <= i < positions@.len() && #[trigger] positions@[i] != NULL_POSITION implies positions@[i]
                < items@.len() && items@[positions@[i] as int].0 == i by {
            let j = choose|j: int| 0 <= j < items@.len() && (#[trigger] items@[j]).0 == i;
            assert(positions@[items@[j].0 as int] == j);
        }
    }
}

/// A map from small non-negative integer indices to values whose entries are
/// kept in ascending order under a comparator of `(index, value)` pairs.
///
/// The entries are held in ascending order in an array; a position array
/// indexed by the key leads to each entry.
#[derive(Clone, Debug)]
pub struct SortedMap<ValueT, CompareT> {
    comparator: CompareT,
    position_array: Vec<usize>,
    item_array: Vec<(usize, ValueT)>,
}

impl<ValueT, CompareT> View for SortedMap<ValueT, CompareT> {
    type V = Map<usize, ValueT>;

    closed spec fn view(&self) -> Map<usize, ValueT> {
        slots_view(self.position_array@, self.item_array@)
    }
}

impl<ValueT, CompareT: Comparator<(usize, ValueT)>> SortedMap<ValueT, CompareT> {
    /// The arrays describe each other and the entries are in ascending order.
    pub closed spec fn wf(&self) -> bool {
        &&& slots_consistent(self.position_array@, self.item_array@)
        &&& sorted_by(self.comparator, self.item_array@)
    }

    /// The comparator that orders the entries.
    pub closed spec fn comparator(&self) -> CompareT {
        self.comparator
    }

    /// The entries in ascending order.
    pub closed spec fn entries(&self) -> Seq<(usize, ValueT)> {
        self.item_array@
    }

    /// The number of indices the position array holds without growing.
    pub closed spec fn spec_capacity(&self) -> nat {
        self.position_array@.len()
    }

    /// The entries are those of the map, each once, in ascending order.
    pub proof fn lemma_entries(&self)
        requires
            self.wf(),
        ensures
            sorted_by(self.comparator(), self.entries()),
            self@.dom().finite(),
            self@.len() == self.entries().len(),
            forall|k: int|
                0 <= k < self.entries().len() ==> #[trigger] self@.contains_key(self.entries()[k].0)
                    && self@[self.entries()[k].0] == self.entries()[k].1,
            forall|i: usize| #[trigger]
                self@.contains_key(i) ==> exists|k: int|
                    0 <= k < self.entries().len() && #[trigger] self.entries()[k] == (i, self@[i]),
    {
        lemma_view_len(self.position_array@, self.item_array@);
        assert forall|k: int| 0 <= k < self.entries().len() implies #[trigger] self@.contains_key(
            self.entries()[k].0,
        ) && self@[self.entries()[k].0] == self.entries()[k].1 by {
            lemma_items_in_view(self.position_array@, self.item_array@, k);
        }
        assert forall|i: usize| #[trigger] self@.contains_key(i) implies exists|k: int|
            0 <= k < self.entries().len() && #[trigger] self.entries()[k] == (i, self@[i]) by {
            lemma_view_in_items(self.position_array@, self.item_array@, i);
            let k = self.position_array@[i as int] as int;
            assert(self.entries()[k] == (i, self@[i]));
        }
    }

    /// The first entry is a least one.
    proof fn lemma_first_is_min(&self)
        requires
            self.wf(),
            self.item_array@.len() > 0,
        ensures
            is_min_entry(self.comparator, self@, self.item_array@[0].0, self.item_array@[0].1),
    {
        lemma_items_in_view(self.position_array@, self.item_array@, 0);
        assert forall|k: usize| #[trigger] self@.contains_key(k) implies self.comparator.spec_le(
            self.item_array@[0],
            (k, self@[k]),
        ) by {
            lemma_view_in_items(self.position_array@, self.item_array@, k);
            let p = self.position_array@[k as int] as int;
            if p > 0 {
                assert(self.comparator.spec_le(self.item_array@[0], self.item_array@[p]));
            } else {
                self.comparator.lemma_total(self.item_array@[0], self.item_array@[0]);
            }
        }
    }

    /// The last entry is a greatest one.
    proof fn lemma_last_is_max(&self)
        requires
            self.wf(),
            self.item_array@.len() > 0,
        ensures
            is_max_entry(self.comparator, self@, self.item_array@.last().0, self.item_array@.last().1),
    {
        let n = self.item_array@.len() - 1;
        lemma_items_in_view(self.position_array@, self.item_array@, n);
        assert forall|k: usize| #[trigger] self@.contains_key(k) implies self.comparator.spec_le(
            (k, self@[k]),
            self.item_array@[n],
        ) by {
            lemma_view_in_items(self.position_array@, self.item_array@, k);
            let p = self.position_array@[k as int] as int;
            if p < n {
                assert(self.comparator.spec_le(self.item_array@[p], self.item_array@[n]));
            } else {
                self.comparator.lemma_total(self.item_array@[n], self.item_array@[n]);
            }
        }
    }

    /// An empty map ordered by `compare`.
    pub fn new(compare: CompareT) -> (map: Self)
        ensures
            map.wf(),
            map@ == Map::<usize, ValueT>::empty(),
            map.comparator() == compare,
            map.spec_capacity() == 0,
    {
        let map = Self { comparator: compare, position_array: Vec::new(), item_array: Vec::new() };
        proof {
            assert(map@ =~= Map::<usize, ValueT>::empty());
        }
        map
    }

    /// Whether the map has no entry.
    pub fn is_empty(&self) -> (empty: bool)
        requires
            self.wf(),
        ensures
            empty == (self@.len() == 0),
    {
        proof {
            lemma_view_len(self.position_array@, self.item_array@);
        }
        self.item_array.is_empty()
    }

    /// The number of entries.
    pub fn len(&self) -> (length: usize)
        requires
            self.wf(),
        ensures
            length == self@.len(),
            length == self.entries().len(),
    {
        proof {
            lemma_view_len(self.position_array@, self.item_array@);
        }
        self.item_array.len()
    }

    /// A least entry, if any.
    pub fn min_key_value(&self) -> (entry: Option<&(usize, ValueT)>)
        requires
            self.wf(),
        ensures
            entry is None <==> self@.len() == 0,
            entry matches Some(e) ==> is_min_entry(self.comparator(), self@, e.0, e.1),
            entry matches Some(e) ==> *e == self.entries()[0],
    {
        proof {
            lemma_view_len(self.position_array@, self.item_array@);
        }
        if self.item_array.len() == 0 {
            None
        } else {
            proof {
                self.lemma_first_is_min();
            }
            Some(&self.item_array[0])
        }
    }

    /// A greatest entry, if any.
    pub fn max_key_value(&self) -> (entry: Option<&(usize, ValueT)>)
        requires
            self.wf(),
        ensures
            entry is None <==> self@.len() == 0,
            entry matches Some(e) ==> is_max_entry(self.comparator(), self@, e.0, e.1),
            entry matches Some(e) ==> *e == self.entries().last(),
    {
        proof {
            lemma_view_len(self.position_array@, self.item_array@);
        }
        let length = self.item_array.len();
        if length == 0 {
            None
        } else {
            proof {
                self.lemma_last_is_max();
            }
            Some(&self.item_array[length - 1])
        }
    }

    /// Whether `index` has an entry; `index` must be within the capacity.
    pub fn contains_key(&self, index: usize) -> (contains: bool)
        requires
            self.wf(),
            index < self.spec_capacity(),
        ensures
            contains == self@.contains_key(index),
    {
        self.position_array[index] != NULL_POSITION
    }

    /// The value of `index`, if it has an entry.
    pub fn get(&self, index: usize) -> (value: Option<&ValueT>)
        requires
            self.wf(),
        ensures
            match value {
                Some(v) => self@.contains_key(index) && *v == self@[index],
                None => !self@.contains_key(index),
            },
    {
        if index < self.position_array.len() {
            let position = self.position_array[index];
            if position != NULL_POSITION {
                return Some(&self.item_array[position].1);
            }
        }
        None
    }

    /// Removes the item at `position`, keeping the positions up to date.
    fn remove_at(&mut self, position: usize) -> (removed: (usize, ValueT))
        requires
            old(self).wf(),
            position < old(self).item_array@.len(),
        ensures
            final(self).wf(),
            removed == old(self).item_array@[position as int],
            final(self).item_array@ == old(self).item_array@.remove(position as int),
            final(self)@ == old(self)@.remove(removed.0),
            final(self).comparator == old(self).comparator,
            final(self).position_array@.len() == old(self).position_array@.len(),
    {
        let ghost p0 = self.position_array@;
        let ghost s0 = self.item_array@;
        let removed = self.item_array.remove(position);
        self.position_array.set(removed.0, NULL_POSITION);
        proof {
            let s = self.item_array@;
            assert forall|a: int, b: int| 0 <= a < b < s.len() implies (#[trigger] s[a]).0 != (
            #[trigger] s[b]).0 by {
                let a0 = if a < position { a } else { a + 1 };
                let b0 = if b < position { b } else { b + 1 };
                assert(s[a] == s0[a0] && s[b] == s0[b0]);
                assert(p0[s0[a0].0 as int] == a0 && p0[s0[b0].0 as int] == b0);
            }
            assert forall|k: int| 0 <= k < s.len() implies (#[trigger] s[k]).0 < self.position_array@.len() by {
                let k0 = if k < position { k } else { k + 1 };
                assert(s[k] == s0[k0]);
            }
            assert forall|k: int| 0 <= k < position implies self.position_array@[(#[trigger] s[k]).0 as int] == k by {
                assert(s[k] == s0[k]);
                assert(p0[s0[k].0 as int] == k);
                assert(p0[s0[position as int].0 as int] == position);
            }
            assert forall|i: int|
                0 <= i < self.position_array@.len() && #[trigger] self.position_array@[i] != NULL_POSITION implies exists|k: int|
                    0 <= k < s.len() && (#[trigger] s[k]).0 == i by {
                let q = p0[i] as int;
                assert(s0[q].0 == i);
                assert(q != position);
                if q < position {
                    assert(s[q] == s0[q]);
                } else {
                    assert(s[q - 1] == s0[q]);
                }
            }
        }
        reindex(&mut self.position_array, &self.item_array, position);
        proof {
            let s = self.item_array@;
            assert forall|a: int, b: int| 0 <= a < b < s.len() implies self.comparator.spec_le(
                #[trigger] s[a],
                #[trigger] s[b],
            ) by {
                let a0 = if a < position { a } else { a + 1 };
                let b0 = if b < position { b } else { b + 1 };
                assert(s[a] == s0[a0] && s[b] == s0[b0]);
                assert(self.comparator.spec_le(s0[a0], s0[b0]));
            }
            assert(self@ =~= slots_view(p0, s0).remove(removed.0)) by {
                assert forall|i: usize| #[trigger] self@.contains_key(i) implies slots_view(p0, s0).remove(
                    removed.0,
                ).contains_key(i) && self@[i] == slots_view(p0, s0).remove(removed.0)[i] by {
                    lemma_view_in_items(self.position_array@, s, i);
                    let k = self.position_array@[i as int] as int;
                    let k0 = if k < position { k } else { k + 1 };
                    assert(s[k] == s0[k0]);
                    lemma_items_in_view(p0, s0, k0);
                    assert(k0 != position);
                }
                assert forall|i: usize| #[trigger] slots_view(p0, s0).remove(removed.0).contains_key(i) implies self@.contains_key(i) by {
                    lemma_view_in_items(p0, s0, i);
                    let k0 = p0[i as int] as int;
                    assert(k0 != position);
                    let k = if k0 < position { k0 } else { k0 - 1 };
                    assert(s[k] == s0[k0]);
                    lemma_items_in_view(self.position_array@, s, k);
                }
            }
        }
        removed
    }

    /// Inserts an entry for an absent index at its place in the order.
    fn insert_new(&mut self, new_item: (usize, ValueT))
        requires
            old(self).wf(),
            new_item.0 < old(self).position_array@.len(),
            !old(self)@.contains_key(new_item.0),
            old(self).item_array@.len() + 1 < usize::MAX,
        ensures
            final(self).wf(),
            final(self)@ == old(self)@.insert(new_item.0, new_item.1),
            final(self).comparator == old(self).comparator,
            final(self).position_array@.len() == old(self).position_array@.len(),
    {
        let ghost p0 = self.position_array@;
        let ghost s0 = self.item_array@;
        let index = new_item.0;
        let ghost value = new_item.1;
        // The first entry that does not come before the new one.
        let mut position: usize = 0;
        while position < self.item_array.len()
            invariant
                self.wf(),
                self.item_array@ == s0,
                self.position_array@ == p0,
                position <= s0.len(),
                forall|j: int| 0 <= j < position ==> !self.comparator.spec_le(new_item, #[trigger] s0[j]),
            ensures
                self.wf(),
                self.item_array@ == s0,
                self.position_array@ == p0,
                position <= s0.len(),
                forall|j: int| 0 <= j < position ==> !self.comparator.spec_le(new_item, #[trigger] s0[j]),
                position < s0.len() ==> self.comparator.spec_le(new_item, s0[position as int]),
            decreases s0.len() - position,
        {
            if self.comparator.le(&new_item, &self.item_array[position]) {
                break;
            }
            position = position + 1;
        }
        proof {
            assert(p0[index as int] == NULL_POSITION);
        }
        self.item_array.insert(position, new_item);
        self.position_array.set(index, position);
        proof {
            let s = self.item_array@;
            assert(s[position as int] == new_item);
            assert forall|k: int| 0 <= k < s.len() implies #[trigger] s[k] == if k < position {
                s0[k]
            } else if k == position {
                new_item
            } else {
                s0[k - 1]
            } by {}
            assert forall|a: int, b: int| 0 <= a < b < s.len() implies (#[trigger] s[a]).0 != (
            #[trigger] s[b]).0 by {
                if a != position && b != position {
                    let a0 = if a < position { a } else { a - 1 };
                    let b0 = if b < position { b } else { b - 1 };
                    assert(p0[s0[a0].0 as int] == a0 && p0[s0[b0].0 as int] == b0);
                } else if a == position {
                    let b0 = b - 1;
                    assert(p0[s0[b0].0 as int] == b0);
                } else {
                    assert(p0[s0[a].0 as int] == a);
                }
            }
            assert forall|k: int| 0 <= k < s.len() implies (#[trigger] s[k]).0 < self.position_array@.len() by {
                if k != position {
                    let k0 = if k < position { k } else { k - 1 };
                    assert(p0[s0[k0].0 as int] == k0);
                }
            }
            assert forall|k: int| 0 <= k < position implies self.position_array@[(#[trigger] s[k]).0 as int] == k by {
                assert(p0[s0[k].0 as int] == k);
            }
            assert forall|i: int|
                0 <= i < self.position_array@.len() && #[trigger] self.position_array@[i] != NULL_POSITION implies exists|k: int|
                    0 <= k < s.len() && (#[trigger] s[k]).0 == i by {
                if i == index {
                    assert(s[position as int].0 == i);
                } else {
                    let q = p0[i] as int;
                    assert(s0[q].0 == i);
                    if q < position {
                        assert(s[q] == s0[q]);
                    } else {
                        assert(s[q + 1] == s0[q]);
                    }
                }
            }
        }
        reindex(&mut self.position_array, &self.item_array, position);
        proof {
            let s = self.item_array@;
            let c = self.comparator;
            if position < s0.len() {
                assert(c.spec_le(new_item, s0[position as int]));
            }
            assert forall|a: int, b: int| 0 <= a < b < s.len() implies c.spec_le(#[trigger] s[a], #[trigger] s[b]) by {
                if a != position && b != position {
                    let a0 = if a < position { a } else { a - 1 };
                    let b0 = if b < position { b } else { b - 1 };
                    assert(c.spec_le(s0[a0], s0[b0]));
                } else if a == position {
                    let b0 = b - 1;
                    if b0 > position {
                        assert(c.spec_le(s0[position as int], s0[b0]));
                        c.lemma_transitive(new_item, s0[position as int], s0[b0]);
                    }
                } else {
                    assert(!c.spec_le(new_item, s0[a]));
                    c.lemma_total(new_item, s0[a]);
                }
            }
            assert(self@ =~= slots_view(p0, s0).insert(index, value)) by {
                assert forall|i: usize| #[trigger] self@.contains_key(i) implies slots_view(p0, s0).insert(
                    index,
                    value,
                ).contains_key(i) && self@[i] == slots_view(p0, s0).insert(index, value)[i] by {
                    lemma_view_in_items(self.position_array@, s, i);
                    let k = self.position_array@[i as int] as int;
                    if k != position {
                        let k0 = if k < position { k } else { k - 1 };
                        lemma_items_in_view(p0, s0, k0);
                    }
                }
                assert forall|i: usize| #[trigger] slots_view(p0, s0).insert(index, value).contains_key(i) implies self@.contains_key(i) by {
                    if i == index {
                        lemma_items_in_view(self.position_array@, s, position as int);
                    } else {
                        lemma_view_in_items(p0, s0, i);
                        let k0 = p0[i as int] as int;
                        let k = if k0 < position { k0 } else { k0 + 1 };
                        lemma_items_in_view(self.position_array@, s, k);
                    }
                }
            }
        }
    }

    /// Sets the value of `index` to `value`, moving the entry to its place
    /// in the order.
    pub fn insert(&mut self, index: usize, value: ValueT)
        requires
            old(self).wf(),
            index_fits(old(self).spec_capacity(), index),
            old(self)@.len() + 1 < usize::MAX / 2,
        ensures
            final(self).wf(),
            final(self)@ == old(self)@.insert(index, value),
            final(self).comparator() == old(self).comparator(),
            final(self).spec_capacity() == capacity_after(old(self).spec_capacity(), index),
    {
        proof {
            lemma_view_len(self.position_array@, self.item_array@);
        }
        if index >= self.position_array.len() {
            let ghost before = self.position_array@;
            let length = grown_capacity_of(index);
            grow_positions(&mut self.position_array, length);
            proof {
                lemma_grow(
                    before,
                    self.item_array@,
                    self.position_array@.subrange(before.len() as int, self.position_array@.len() as int),
                );
            }
        }
        let ghost view0 = self@;
        let current = self.position_array[index];
        let new_item = (index, value);
        if current != NULL_POSITION {
            let length = self.item_array.len();
            let in_place = if self.comparator.le(&self.item_array[current], &new_item) {
                current + 1 == length || self.comparator.le(&new_item, &self.item_array[current + 1])
            } else {
                current == 0 || self.comparator.le(&self.item_array[current - 1], &new_item)
            };
            if in_place {
                let ghost s0 = self.item_array@;
                proof {
                    let c = self.comparator;
                    let p = current as int;
                    assert(s0[p].0 == index);
                    if c.spec_le(s0[p], new_item) {
                        assert forall|j: int| 0 <= j < p implies c.spec_le(#[trigger] s0[j], new_item) by {
                            c.lemma_transitive(s0[j], s0[p], new_item);
                        }
                        assert forall|j: int| p < j < s0.len() implies c.spec_le(new_item, #[trigger] s0[j]) by {
                            if j > p + 1 {
                                c.lemma_transitive(new_item, s0[p + 1], s0[j]);
                            }
                        }
                    } else {
                        c.lemma_total(s0[p], new_item);
                        assert forall|j: int| 0 <= j < p implies c.spec_le(#[trigger] s0[j], new_item) by {
                            if j < p - 1 {
                                c.lemma_transitive(s0[j], s0[p - 1], new_item);
                            }
                        }
                        assert forall|j: int| p < j < s0.len() implies c.spec_le(new_item, #[trigger] s0[j]) by {
                            c.lemma_transitive(new_item, s0[p], s0[j]);
                        }
                    }
                }
                self.item_array.set(current, new_item);
                proof {
                    let s = self.item_array@;
                    let c = self.comparator;
                    let p = current as int;
                    assert forall|a: int, b: int| 0 <= a < b < s.len() implies c.spec_le(
                        #[trigger] s[a],
                        #[trigger] s[b],
                    ) by {
                        if a != p && b != p {
                            assert(c.spec_le(s0[a], s0[b]));
                        }
                    }
                    assert(slots_consistent(self.position_array@, s));
                    assert(self@ =~= view0.insert(index, value)) by {
                        assert forall|i: usize| #[trigger] self@.contains_key(i) implies view0.insert(
                            index,
                            value,
                        ).contains_key(i) && self@[i] == view0.insert(index, value)[i] by {
                            if i != index {
                                lemma_view_in_items(self.position_array@, s, i);
                            }
                        }
                    }
                }
                return ;
            }
            self.remove_at(current);
            proof {
                lemma_view_len(self.position_array@, self.item_array@);
            }
        }
        self.insert_new(new_item);
        proof {
            assert(self@ =~= view0.insert(index, value));
        }
    }

    /// Removes the entry of `index` and returns its value, if it has one.
    pub fn remove(&mut self, index: usize) -> (value: Option<ValueT>)
        requires
            old(self).wf(),
        ensures
            final(self).wf(),
            final(self)@ == old(self)@.remove(index),
            value == old(self)@.get(index),
            final(self).comparator() == old(self).comparator(),
            final(self).spec_capacity() == old(self).spec_capacity(),
    {
        if index >= self.position_array.len() {
            proof {
                assert(self@.remove(index) =~= self@);
            }
            return None;
        }
        let position = self.position_array[index];
        if position == NULL_POSITION {
            proof {
                assert(self@.remove(index) =~= self@);
            }
            return None;
        }
        proof {
            lemma_view_in_items(self.position_array@, self.item_array@, index);
        }
        let (_, value) = self.remove_at(position);
        Some(value)
    }

    /// Removes every entry.
    pub fn clear(&mut self)
        requires
            old(self).wf(),
        ensures
            final(self).wf(),
            final(self)@ == Map::<usize, ValueT>::empty(),
            final(self).comparator() == old(self).comparator(),
            final(self).spec_capacity() == 0,
    {
        self.position_array.clear();
        self.item_array.clear();
        proof {
            assert(self@ =~= Map::<usize, ValueT>::empty());
        }
    }

    /// The entries in the order in which they are stored, which is
    /// ascending.
    pub fn iter(&self) -> (entries: &[(usize, ValueT)])
        requires
            self.wf(),
        ensures
            entries@ == self.entries(),
    {
        self.item_array.as_slice()
    }

    /// The entries in ascending order.
    pub fn iter_in_ascending_order(&self) -> (iterator: Iterator<'_, ValueT, CompareT>)
        requires
            self.wf(),
        ensures
            iterator.wf(),
            iterator.sorted_map() == *self,
            iterator.spec_current() is None,
            !iterator.spec_descending(),
    {
        Iterator::new(self)
    }

    /// The entries in descending order: the returned cursor's `next` moves
    /// down and its `next_back` up.
    pub fn iter_in_descending_order(&self) -> (iterator: Iterator<'_, ValueT, CompareT>)
        requires
            self.wf(),
        ensures
            iterator.wf(),
            iterator.sorted_map() == *self,
            iterator.spec_current() is None,
            iterator.spec_descending(),
    {
        Iterator::reversed(self)
    }
}

impl<ValueT, CompareT: Comparator<(usize, ValueT)> + Default> Default for SortedMap<ValueT, CompareT> {
    fn default() -> (map: Self)
        ensures
            map.wf(),
            map@ == Map::<usize, ValueT>::empty(),
            map.spec_capacity() == 0,
    {
        Self::new(CompareT::default())
    }
}

/// A cursor over the entries of a sorted map. Ascending, `next` moves to
/// the following entry and `next_back` to the preceding one; from the
/// position before the first entry (and after the last) they move to the
/// first and the last entry. Descending, the two are swapped.
pub struct Iterator<'a, ValueT, CompareT> {
    sorted_map: &'a SortedMap<ValueT, CompareT>,
    current: usize,
    descending: bool,
}

impl<'a, ValueT, CompareT: Comparator<(usize, ValueT)>> Iterator<'a, ValueT, CompareT> {
    /// The cursor is on an entry or before the first one.
    pub closed spec fn wf(&self) -> bool {
        &&& self.sorted_map.wf()
        &&& (self.current == NULL_POSITION || self.current < self.sorted_map.entries().len())
    }

    /// The map walked over.
    pub closed spec fn sorted_map(&self) -> SortedMap<ValueT, CompareT> {
        *self.sorted_map
    }

    /// Whether `next` walks down.
    pub closed spec fn spec_descending(&self) -> bool {
        self.descending
    }

    /// The position in ascending order of the entry the cursor is on.
    pub closed spec fn spec_current(&self) -> Option<int> {
        if self.current == NULL_POSITION {
            None
        } else {
            Some(self.current as int)
        }
    }

    /// A cursor before the first entry of `sorted_map`.
    fn new(sorted_map: &'a SortedMap<ValueT, CompareT>) -> (iterator: Self)
        requires
            sorted_map.wf(),
        ensures
            iterator.wf(),
            iterator.sorted_map() == *sorted_map,
            iterator.spec_current() is None,
            !iterator.spec_descending(),
    {
        Self { sorted_map, current: NULL_POSITION, descending: false }
    }

    /// A descending cursor before the first entry of `sorted_map`.
    fn reversed(sorted_map: &'a SortedMap<ValueT, CompareT>) -> (iterator: Self)
        requires
            sorted_map.wf(),
        ensures
            iterator.wf(),
            iterator.sorted_map() == *sorted_map,
            iterator.spec_current() is None,
            iterator.spec_descending(),
    {
        Self { sorted_map, current: NULL_POSITION, descending: true }
    }

    /// Moves up in a descending cursor, down in an ascending one (see
    /// `step_up` and `step_down`).
    pub fn next(&mut self) -> (entry: Option<&'a (usize, ValueT)>)
        requires
            old(self).wf(),
        ensures
            final(self).wf(),
            final(self).sorted_map() == old(self).sorted_map(),
            final(self).spec_descending() == old(self).spec_descending(),
            !old(self).spec_descending() ==> Self::moved_up(*old(self), *final(self), entry),
            old(self).spec_descending() ==> Self::moved_down(*old(self), *final(self), entry),
    {
        if self.descending {
            self.step_down()
        } else {
            self.step_up()
        }
    }

    /// Moves down in an ascending cursor, up in a descending one.
    pub fn next_back(&mut self) -> (entry: Option<&'a (usize, ValueT)>)
        requires
            old(self).wf(),
        ensures
            final(self).wf(),
            final(self).sorted_map() == old(self).sorted_map(),
            final(self).spec_descending() == old(self).spec_descending(),
            !old(self).spec_descending() ==> Self::moved_down(*old(self), *final(self), entry),
            old(self).spec_descending() ==> Self::moved_up(*old(self), *final(self), entry),
    {
        if self.descending {
            self.step_up()
        } else {
            self.step_down()
        }
    }

    /// Where the ascending cursor stands after `k` steps from the start.
    proof fn lemma_ascending_position(cursors: Seq<Self>, entries: Seq<Option<&'a (usize, ValueT)>>, k: int)
        requires
            cursors.len() == entries.len() + 1,
            0 <= k < cursors.len(),
            k <= cursors[0].sorted_map().entries().len(),
            cursors[0].spec_current() is None,
            forall|j: int|
                0 <= j < entries.len() ==> #[trigger] cursors[j + 1].sorted_map() == cursors[0].sorted_map()
                    && Self::moved_up(cursors[j], cursors[j + 1], entries[j]),
        ensures
            cursors[k].spec_current() == if k == 0 {
                None::<int>
            } else {
                Some(k - 1)
            },
        decreases k,
    {
        if k > 0 {
            Self::lemma_ascending_position(cursors, entries, k - 1);
            assert(cursors[(k - 1) + 1].sorted_map() == cursors[0].sorted_map());
            assert(Self::moved_up(cursors[k - 1], cursors[(k - 1) + 1], entries[k - 1]));
        }
    }

    /// An ascending walk from the start: the `k`-th step gives the `k`-th
    /// entry, and nothing once the entries are used up.
    pub proof fn lemma_ascending_walk(cursors: Seq<Self>, entries: Seq<Option<&'a (usize, ValueT)>>)
        requires
            cursors.len() == entries.len() + 1,
            entries.len() <= cursors[0].sorted_map().entries().len() + 1,
            cursors[0].spec_current() is None,
            forall|k: int|
                0 <= k < entries.len() ==> #[trigger] cursors[k + 1].sorted_map() == cursors[0].sorted_map()
                    && Self::moved_up(cursors[k], cursors[k + 1], entries[k]),
        ensures
            forall|k: int|
                0 <= k < entries.len() ==> #[trigger] entries[k] == if k < cursors[0].sorted_map().entries().len() {
                    Some(&cursors[0].sorted_map().entries()[k])
                } else {
                    None
                },
    {
        assert forall|k: int| 0 <= k < entries.len() implies #[trigger] entries[k] == if k
            < cursors[0].sorted_map().entries().len() {
            Some(&cursors[0].sorted_map().entries()[k])
        } else {
            None
        } by {
            Self::lemma_ascending_position(cursors, entries, k);
            if k > 0 {
                assert(cursors[(k - 1) + 1].sorted_map() == cursors[0].sorted_map());
            }
            assert(cursors[k + 1].sorted_map() == cursors[0].sorted_map());
            assert(Self::moved_up(cursors[k], cursors[k + 1], entries[k]));
        }
    }

    /// The descending walk over all the entries of a map gives the
    /// ascending walk's entries in reverse order.
    pub proof fn lemma_descending_reverses_ascending(
        up_cursors: Seq<Self>,
        up_entries: Seq<Option<&'a (usize, ValueT)>>,
        down_cursors: Seq<Self>,
        down_entries: Seq<Option<&'a (usize, ValueT)>>,
    )
        requires
            up_cursors.len() == up_entries.len() + 1,
            down_cursors.len() == down_entries.len() + 1,
            up_cursors[0].sorted_map() == down_cursors[0].sorted_map(),
            up_entries.len() == up_cursors[0].sorted_map().entries().len(),
            down_entries.len() == up_entries.len(),
            up_cursors[0].spec_current() is None,
            down_cursors[0].spec_current() is None,
            forall|k: int|
                0 <= k < up_entries.len() ==> #[trigger] up_cursors[k + 1].sorted_map() == up_cursors[0].sorted_map()
                    && Self::moved_up(up_cursors[k], up_cursors[k + 1], up_entries[k]),
            forall|k: int|
                0 <= k < down_entries.len() ==> #[trigger] down_cursors[k + 1].sorted_map() == down_cursors[0].sorted_map()
                    && Self::moved_down(down_cursors[k], down_cursors[k + 1], down_entries[k]),
        ensures
            down_entries == up_entries.reverse(),
    {
        Self::lemma_ascending_walk(up_cursors, up_entries);
        Self::lemma_descending_walk(down_cursors, down_entries);
        let n = up_entries.len();
        assert forall|k: int| 0 <= k < n implies down_entries[k] == up_entries.reverse()[k] by {
            assert(up_entries.reverse()[k] == up_entries[n - 1 - k]);
        }
        assert(down_entries =~= up_entries.reverse());
    }

    /// A descending cursor walks the entries from the last to the first:
    /// started before the first entry, its `k`-th step (see `next`) gives
    /// the entry that an ascending cursor gives at step `len - k + 1`, and
    /// the step after the last entry gives `None`.
    pub proof fn lemma_descending_walk(
        cursors: Seq<Self>,
        entries: Seq<Option<&'a (usize, ValueT)>>,
    )
        requires
            cursors.len() == entries.len() + 1,
            entries.len() <= cursors[0].sorted_map().entries().len() + 1,
            cursors[0].spec_current() is None,
            forall|k: int|
                0 <= k < entries.len() ==> #[trigger] cursors[k + 1].sorted_map() == cursors[0].sorted_map()
                    && Self::moved_down(cursors[k], cursors[k + 1], entries[k]),
        ensures
            forall|k: int|
                0 <= k < entries.len() ==> #[trigger] entries[k] == if k < cursors[0].sorted_map().entries().len() {
                    Some(&cursors[0].sorted_map().entries()[cursors[0].sorted_map().entries().len() - 1 - k])
                } else {
                    None
                },
        decreases entries.len(),
    {
        if entries.len() > 0 {
            let n = cursors[0].sorted_map().entries().len();
            let shorter = entries.drop_last();
            let fewer = cursors.drop_last();
            assert forall|j: int| 0 <= j < shorter.len() implies #[trigger] fewer[j + 1].sorted_map() == fewer[0].sorted_map()
                && Self::moved_down(fewer[j], fewer[j + 1], shorter[j]) by {
                assert(fewer[j + 1] == cursors[j + 1] && fewer[j] == cursors[j] && shorter[j] == entries[j]);
                assert(cursors[j + 1].sorted_map() == cursors[0].sorted_map());
            }
            Self::lemma_descending_walk(fewer, shorter);
            assert(fewer[0] == cursors[0]);
            let k = entries.len() - 1;
            assert forall|j: int| 0 <= j < entries.len() implies #[trigger] entries[j] == if j < n {
                Some(&cursors[0].sorted_map().entries()[n - 1 - j])
            } else {
                None
            } by {
                if j < k {
                    assert(entries[j] == shorter[j]);
                } else {
                    Self::lemma_descending_position(cursors, entries, k);
                    if k > 0 {
                        assert(cursors[(k - 1) + 1].sorted_map() == cursors[0].sorted_map());
                    }
                    assert(cursors[k + 1].sorted_map() == cursors[0].sorted_map());
                    assert(Self::moved_down(cursors[k], cursors[k + 1], entries[k]));
                }
            }
        }
    }

    /// After `k` steps down from before the first entry, a cursor is on
    /// entry `len - k`, or before the first entry once `k` reaches `len`.
    proof fn lemma_descending_position(cursors: Seq<Self>, entries: Seq<Option<&'a (usize, ValueT)>>, k: int)
        requires
            cursors.len() == entries.len() + 1,
            0 <= k < cursors.len(),
            k <= cursors[0].sorted_map().entries().len(),
            cursors[0].spec_current() is None,
            forall|j: int|
                0 <= j < entries.len() ==> #[trigger] cursors[j + 1].sorted_map() == cursors[0].sorted_map()
                    && Self::moved_down(cursors[j], cursors[j + 1], entries[j]),
        ensures
            cursors[k].spec_current() == if k == 0 {
                None::<int>
            } else {
                Some(cursors[0].sorted_map().entries().len() - k)
            },
        decreases k,
    {
        if k > 0 {
            Self::lemma_descending_position(cursors, entries, k - 1);
            assert(cursors[(k - 1) + 1].sorted_map() == cursors[0].sorted_map());
            assert(Self::moved_down(cursors[k - 1], cursors[(k - 1) + 1], entries[k - 1]));
        }
    }

    /// The cursor moved from `before` to the following entry (the first
    /// one from before the first) and gave it as `entry`, or moved before
    /// the first entry and gave `None` when there is none.
    pub open spec fn moved_up(before: Self, after: Self, entry: Option<&'a (usize, ValueT)>) -> bool {
        let entries = before.sorted_map().entries();
        let target = match before.spec_current() {
            None => 0,
            Some(p) => p + 1,
        };
        if target < entries.len() {
            after.spec_current() == Some(target) && entry == Some(&entries[target])
        } else {
            after.spec_current() is None && entry is None
        }
    }

    /// The cursor moved from `before` to the preceding entry (the last one
    /// from before the first) and gave it as `entry`, or moved before the
    /// first entry and gave `None` when there is none.
    pub open spec fn moved_down(before: Self, after: Self, entry: Option<&'a (usize, ValueT)>) -> bool {
        let entries = before.sorted_map().entries();
        let target = match before.spec_current() {
            None => entries.len() - 1,
            Some(p) => p - 1,
        };
        if 0 <= target {
            after.spec_current() == Some(target) && entry == Some(&entries[target])
        } else {
            after.spec_current() is None && entry is None
        }
    }

    /// Moves to the entry after the current one (the first one from before
    /// the first) and returns it, or moves before the first entry and
    /// returns `None` when there is none.
    fn step_up(&mut self) -> (entry: Option<&'a (usize, ValueT)>)
        requires
            old(self).wf(),
        ensures
            final(self).wf(),
            final(self).sorted_map() == old(self).sorted_map(),
            final(self).spec_descending() == old(self).spec_descending(),
            Self::moved_up(*old(self), *final(self), entry),
    {
        let length = self.sorted_map.item_array.len();
        let target = if self.current == NULL_POSITION {
            0
        } else {
            self.current + 1
        };
        if target < length {
            self.current = target;
            Some(&self.sorted_map.item_array[target])
        } else {
            self.current = NULL_POSITION;
            None
        }
    }

    /// Moves to the entry before the current one (the last one from before
    /// the first) and returns it, or moves before the first entry and
    /// returns `None` when there is none.
    fn step_down(&mut self) -> (entry: Option<&'a (usize, ValueT)>)
        requires
            old(self).wf(),
        ensures
            final(self).wf(),
            final(self).sorted_map() == old(self).sorted_map(),
            final(self).spec_descending() == old(self).spec_descending(),
            Self::moved_down(*old(self), *final(self), entry),
    {
        let length = self.sorted_map.item_array.len();
        if self.current == NULL_POSITION {
            if length > 0 {
                self.current = length - 1;
                return Some(&self.sorted_map.item_array[length - 1]);
            }
        } else if self.current > 0 {
            self.current = self.current - 1;
            return Some(&self.sorted_map.item_array[self.current]);
        }
        self.current = NULL_POSITION;
        None
    }
}

} // verus!
