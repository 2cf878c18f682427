use vstd::prelude::*;

use crate::comparator::Comparator;
use crate::heap_sort::{
    down_ready, heap_except_at, is_heap, lemma_down_step, lemma_down_stop, lemma_heap_root_least,
    lemma_remove_root, lemma_up_step, left_of, parent, parent_of, right_of, swapped, up_ready,
};
use crate::map::{capacity_after, index_fits, inserted_all};
use crate::slots::{
    grow_positions, grown_capacity_of, lemma_grow, lemma_grown_capacity, lemma_items_in_view,
    lemma_push, lemma_set_value, lemma_swap, lemma_swap_remove, lemma_view_in_items,
    lemma_view_len, removed_items, removed_positions, reversed, slots_consistent, slots_view,
    swapped_positions, NULL_POSITION,
};

verus! {

/// `(index, value)` is an entry of `m` that comes, under `c`, no later than
/// any entry of `m`.
pub open spec fn is_least_entry<V, C: Comparator<(usize, V)>>(
    c: C,
    m: Map<usize, V>,
    index: usize,
    value: V,
) -> bool {
    &&& m.contains_key(index)
    &&& m[index] == value
    &&& forall|k: usize| #[trigger] m.contains_key(k) ==> c.spec_le((index, value), (k, m[k]))
}

/// A heap whose element at `p` was replaced keeps the order on every edge
/// that does not touch `p`.
proof fn lemma_replace_ready<V, C: Comparator<V>>(c: C, s: Seq<V>, p: int, x: V)
    requires
        is_heap(c, s),
        0 <= p < s.len(),
    ensures
        heap_except_at(c, s.update(p, x), p),
{
    let t = s.update(p, x);
    assert forall|i: int|
        0 < i < t.len() && i != p && parent(i) != p implies c.spec_le(t[parent(i)], #[trigger] t[i]) by {
        assert(c.spec_le(s[parent(i)], s[i]));
    }
    if p > 0 {
        assert forall|i: int| 0 < i < t.len() && parent(i) == p implies c.spec_le(
            t[parent(p)],
            #[trigger] t[i],
        ) by {
            assert(c.spec_le(s[parent(i)], s[i]));
            assert(c.spec_le(s[parent(p)], s[p]));
            c.lemma_transitive(s[parent(p)], s[p], s[i]);
        }
    }
}

/// Removing the element at `p` of a heap by moving the last element into
/// its place keeps the order on every edge that does not touch `p`.
proof fn lemma_removed_ready<V, C: Comparator<V>>(c: C, s: Seq<V>, p: int)
    requires
        is_heap(c, s),
        0 <= p < s.len() - 1,
    ensures
        heap_except_at(c, s.update(p, s.last()).drop_last(), p),
{
    let t = s.update(p, s.last()).drop_last();
    assert forall|i: int|
        0 < i < t.len() && i != p && parent(i) != p implies c.spec_le(t[parent(i)], #[trigger] t[i]) by {
        assert(c.spec_le(s[parent(i)], s[i]));
    }
    if p > 0 {
        assert forall|i: int| 0 < i < t.len() && parent(i) == p implies c.spec_le(
            t[parent(p)],
            #[trigger] t[i],
        ) by {
            assert(c.spec_le(s[parent(i)], s[i]));
            assert(c.spec_le(s[parent(p)], s[p]));
            c.lemma_transitive(s[parent(p)], s[p], s[i]);
        }
    }
}

/// Exchanges the items at `a` and `b` and their recorded positions.
fn swap_slots<V>(positions: &mut Vec<usize>, items: &mut Vec<(usize, V)>, a: usize, b: usize)
    requires
        slots_consistent(old(positions)@, old(items)@),
        a < old(items)@.len(),
        b < old(items)@.len(),
    ensures
        final(items)@ == swapped(old(items)@, a as int, b as int),
        final(positions)@ == swapped_positions(old(positions)@, old(items)@, a as int, b as int),
        slots_consistent(final(positions)@, final(items)@),
        slots_view(final(positions)@, final(items)@) == slots_view(old(positions)@, old(items)@),
{
    proof {
        lemma_swap(positions@, items@, a as int, b as int);
    }
    let index_a = items[a].0;
    let index_b = items[b].0;
    items.as_mut_slice().swap(a, b);
    positions.set(index_a, b);
    positions.set(index_b, a);
}

/// Sifts the item at `position` up, keeping the positions up to date.
fn sift_up_slots<V, C: Comparator<(usize, V)>>(
    compare: &C,
    positions: &mut Vec<usize>,
    items: &mut Vec<(usize, V)>,
    position: usize,
)
    requires
        slots_consistent(old(positions)@, old(items)@),
        position < old(items)@.len(),
        up_ready(*compare, old(items)@, position as int),
    ensures
        slots_consistent(final(positions)@, final(items)@),
        slots_view(final(positions)@, final(items)@) == slots_view(old(positions)@, old(items)@),
        final(items)@.len() == old(items)@.len(),
        final(positions)@.len() == old(positions)@.len(),
        is_heap(*compare, final(items)@),
{
    let ghost s0 = items@;
    let ghost view0 = slots_view(positions@, items@);
    let length = items.len();
    let mut current = position;
    loop
        invariant
            current < items@.len(),
            items@.len() == length,
            positions@.len() == old(positions)@.len(),
            slots_consistent(positions@, items@),
            slots_view(positions@, items@) == view0,
            up_ready(*compare, items@, current as int),
        ensures
            slots_consistent(positions@, items@),
            slots_view(positions@, items@) == view0,
            items@.len() == length,
            positions@.len() == old(positions)@.len(),
            is_heap(*compare, items@),
        decreases current,
    {
        if current == 0 {
            break;
        }
        let parent = parent_of(current);
        if !compare.ge(&items[current], &items[parent]) {
            proof {
                lemma_up_step(*compare, items@, current as int);
            }
            swap_slots(positions, items, parent, current);
            current = parent;
        } else {
            break;
        }
    }
}

/// Sifts the item at `position` down, keeping the positions up to date.
fn sift_down_slots<V, C: Comparator<(usize, V)>>(
    compare: &C,
    positions: &mut Vec<usize>,
    items: &mut Vec<(usize, V)>,
    position: usize,
)
    requires
        slots_consistent(old(positions)@, old(items)@),
        position < old(items)@.len(),
        old(items)@.len() <= usize::MAX / 2,
        down_ready(*compare, old(items)@, position as int),
    ensures
        slots_consistent(final(positions)@, final(items)@),
        slots_view(final(positions)@, final(items)@) == slots_view(old(positions)@, old(items)@),
        final(items)@.len() == old(items)@.len(),
        final(positions)@.len() == old(positions)@.len(),
        is_heap(*compare, final(items)@),
{
    let ghost view0 = slots_view(positions@, items@);
    let ghost length = items@.len();
    let mut current = position;
    loop
        invariant
            current < items@.len(),
            items@.len() == length,
            length <= usize::MAX / 2,
            positions@.len() == old(positions)@.len(),
            slots_consistent(positions@, items@),
            slots_view(positions@, items@) == view0,
            down_ready(*compare, items@, current as int),
        ensures
            slots_consistent(positions@, items@),
            slots_view(positions@, items@) == view0,
            items@.len() == length,
            positions@.len() == old(positions)@.len(),
            is_heap(*compare, items@),
        decreases items@.len() - current,
    {
        let left = left_of(current);
        if left >= items.len() {
            proof {
                assert forall|i: int| 0 < i < items@.len() implies compare.spec_le(
                    items@[parent(i)],
                    #[trigger] items@[i],
                ) by {
                    assert(parent(i) != current);
                }
            }
            break;
        }
        let right = right_of(current);
        let child = if right >= items.len() || !compare.ge(&items[left], &items[right]) {
            left
        } else {
            right
        };
        proof {
            compare.lemma_total(items@[left as int], items@[right as int]);
            assert forall|i: int| 0 < i < items@.len() && parent(i) == current implies compare.spec_le(
                items@[child as int],
                #[trigger] items@[i],
            ) by {
                compare.lemma_total(items@[i], items@[i]);
            }
        }
        if !compare.ge(&items[child], &items[current]) {
            proof {
                lemma_down_step(*compare, items@, current as int, child as int);
            }
            swap_slots(positions, items, current, child);
            current = child;
        } else {
            proof {
                compare.lemma_total(items@[current as int], items@[child as int]);
                lemma_down_stop(*compare, items@, current as int, child as int);
            }
            break;
        }
    }
}

/// Restores the heap after the item at `position` was replaced.
fn update_slots<V, C: Comparator<(usize, V)>>(
    compare: &C,
    positions: &mut Vec<usize>,
    items: &mut Vec<(usize, V)>,
    position: usize,
)
    requires
        slots_consistent(old(positions)@, old(items)@),
        position < old(items)@.len(),
        old(items)@.len() <= usize::MAX / 2,
        heap_except_at(*compare, old(items)@, position as int),
    ensures
        slots_consistent(final(positions)@, final(items)@),
        slots_view(final(positions)@, final(items)@) == slots_view(old(positions)@, old(items)@),
        final(items)@.len() == old(items)@.len(),
        final(positions)@.len() == old(positions)@.len(),
        is_heap(*compare, final(items)@),
{
    let ghost s = items@;
    if position != 0 && !compare.ge(&items[position], &items[parent_of(position)]) {
        proof {
            let c = *compare;
            let p = parent(position as int);
            c.lemma_total(s[position as int], s[p]);
            assert forall|i: int| 0 < i < s.len() && i != position implies c.spec_le(
                s[parent(i)],
                #[trigger] s[i],
            ) by {
                if parent(i) == position {
                    c.lemma_transitive(s[position as int], s[p], s[i]);
                }
            }
        }
        sift_up_slots(compare, positions, items, position);
    } else {
        proof {
            if position != 0 {
                compare.lemma_total(s[position as int], s[parent(position as int)]);
            }
        }
        sift_down_slots(compare, positions, items, position);
    }
}

/// A map from small non-negative integer indices to values that keeps a
/// least entry (under a comparator of `(index, value)` pairs) at hand: a
/// binary heap of entries with a position array for lookup by index.
#[derive(Clone, Debug)]
pub struct HeapedMap<ValueT, CompareT> {
    compare: CompareT,
    index_to_position: Vec<usize>,
    item_array: Vec<(usize, ValueT)>,
}

impl<ValueT, CompareT> View for HeapedMap<ValueT, CompareT> {
    type V = Map<usize, ValueT>;

    closed spec fn view(&self) -> Map<usize, ValueT> {
        slots_view(self.index_to_position@, self.item_array@)
    }
}

impl<ValueT, CompareT: Comparator<(usize, ValueT)>> HeapedMap<ValueT, CompareT> {
    /// The entries form a heap under the comparator and agree with the
    /// position array.
    pub closed spec fn wf(self) -> bool {
        &&& slots_consistent(self.index_to_position@, self.item_array@)
        &&& is_heap(self.compare, self.item_array@)
        &&& self.item_array@.len() <= usize::MAX / 2
    }

    /// The comparator.
    pub closed spec fn comparator(self) -> CompareT {
        self.compare
    }

    /// The entries, in heap order.
    pub closed spec fn items(self) -> Seq<(usize, ValueT)> {
        self.item_array@
    }

    /// The length of the position array.
    pub closed spec fn spec_capacity(self) -> nat {
        self.index_to_position@.len()
    }

    /// The map is finite with one entry per item, and items and entries agree.
    pub proof fn lemma_items(self)
        requires
            self.wf(),
        ensures
            self@.dom().finite(),
            self@.len() == self.items().len(),
            forall|p: int|
                0 <= p < self.items().len() ==> self@.contains_key(#[trigger] self.items()[p].0)
                    && self@[self.items()[p].0] == self.items()[p].1,
            forall|k: usize| #[trigger] self@.contains_key(k) ==> k < self.spec_capacity(),
    {
        lemma_view_len(self.index_to_position@, self.item_array@);
        assert forall|p: int| 0 <= p < self.items().len() implies self@.contains_key(
            #[trigger] self.items()[p].0,
        ) && self@[self.items()[p].0] == self.items()[p].1 by {
            lemma_items_in_view(self.index_to_position@, self.item_array@, p);
        }
    }

    /// The root item is a least entry.
    proof fn lemma_root_least(self)
        requires
            self.wf(),
            self.item_array@.len() > 0,
        ensures
            is_least_entry(self.compare, self@, self.item_array@[0].0, self.item_array@[0].1),
    {
        let s = self.item_array@;
        lemma_items_in_view(self.index_to_position@, s, 0);
        assert forall|k: usize| #[trigger] self@.contains_key(k) implies self.compare.spec_le(
            (s[0].0, s[0].1),
            (k, self@[k]),
        ) by {
            lemma_view_in_items(self.index_to_position@, s, k);
            lemma_heap_root_least(self.compare, s, self.index_to_position@[k as int] as int);
        }
    }

    /// An empty map ordered by `compare`.
    pub fn new(compare: CompareT) -> (map: Self)
        ensures
            map.wf(),
            map@ == Map::<usize, ValueT>::empty(),
            map.comparator() == compare,
            map.spec_capacity() == 0,
    {
        let map = Self { compare, index_to_position: Vec::new(), item_array: Vec::new() };
        proof {
            assert(map@ =~= Map::<usize, ValueT>::empty());
        }
        map
    }

    /// The number of entries.
    pub fn len(&self) -> (length: usize)
        requires
            self.wf(),
        ensures
            length == self@.len(),
    {
        proof {
            lemma_view_len(self.index_to_position@, self.item_array@);
        }
        self.item_array.len()
    }

    /// The number of indices the position array holds without growing.
    pub fn capacity(&self) -> (capacity: usize)
        ensures
            capacity == self.spec_capacity(),
    {
        self.index_to_position.len()
    }

    /// Whether the map has no entry.
    pub fn is_empty(&self) -> (empty: bool)
        requires
            self.wf(),
        ensures
            empty == (self@.len() == 0),
    {
        proof {
            lemma_view_len(self.index_to_position@, self.item_array@);
        }
        self.item_array.is_empty()
    }

    /// A least entry, if any.
    pub fn first(&self) -> (entry: Option<(&usize, &ValueT)>)
        requires
            self.wf(),
        ensures
            entry is None <==> self@.len() == 0,
            entry matches Some((i, v)) ==> is_least_entry(self.comparator(), self@, *i, *v),
            entry matches Some((i, v)) ==> (*i, *v) == self.items()[0],
    {
        proof {
            lemma_view_len(self.index_to_position@, self.item_array@);
        }
        if self.item_array.len() == 0 {
            None
        } else {
            proof {
                self.lemma_root_least();
            }
            let item = &self.item_array[0];
            Some((&item.0, &item.1))
        }
    }

    /// Whether `index` has an entry.
    pub fn contains_key(&self, index: usize) -> (contains: bool)
        requires
            self.wf(),
        ensures
            contains == self@.contains_key(index),
            index >= self.spec_capacity() ==> !contains,
    {
        if index >= self.index_to_position.len() {
            false
        } else {
            self.index_to_position[index] != NULL_POSITION
        }
    }

    /// The value of `index`, if it has an entry.
    pub fn get(&self, index: usize) -> (value: Option<&ValueT>)
        requires
            self.wf(),
        ensures
            match value {
                Some(v) => self@.contains_key(index) && *v == self@[index],
                None => !self@.contains_key(index),
            },
    {
        if index >= self.index_to_position.len() {
            None
        } else {
            let position = self.index_to_position[index];
            if position == NULL_POSITION {
                None
            } else {
                Some(&self.item_array[position].1)
            }
        }
    }

    /// Makes room for `additional` more indices.
    pub fn reserve(&mut self, additional: usize)
        requires
            old(self).wf(),
            old(self).spec_capacity() + additional <= usize::MAX,
        ensures
            final(self).wf(),
            final(self)@ == old(self)@,
            final(self).comparator() == old(self).comparator(),
            final(self).spec_capacity() == old(self).spec_capacity() + additional,
            final(self).items() == old(self).items(),
    {
        let ghost before = self.index_to_position@;
        let length = self.index_to_position.len() + additional;
        grow_positions(&mut self.index_to_position, length);
        proof {
            lemma_grow(
                before,
                self.item_array@,
                self.index_to_position@.subrange(
                    before.len() as int,
                    self.index_to_position@.len() as int,
                ),
            );
        }
    }

    /// Sets the value of `index` to `value`.
    pub fn insert(&mut self, index: usize, value: ValueT)
        requires
            old(self).wf(),
            index_fits(old(self).spec_capacity(), index),
            old(self)@.len() + 1 < usize::MAX / 2,
        ensures
            final(self).wf(),
            final(self)@ == old(self)@.insert(index, value),
            final(self).comparator() == old(self).comparator(),
            final(self).spec_capacity() == capacity_after(old(self).spec_capacity(), index),
    {
        proof {
            lemma_view_len(self.index_to_position@, self.item_array@);
        }
        if index >= self.index_to_position.len() {
            let ghost before = self.index_to_position@;
            let length = grown_capacity_of(index);
            grow_positions(&mut self.index_to_position, length);
            proof {
                lemma_grow(
                    before,
                    self.item_array@,
                    self.index_to_position@.subrange(
                        before.len() as int,
                        self.index_to_position@.len() as int,
                    ),
                );
            }
        }
        let ghost view0 = self@;
        let position = self.index_to_position[index];
        if position == NULL_POSITION {
            let position = self.item_array.len();
            proof {
                lemma_push(self.index_to_position@, self.item_array@, index, value);
                let s = self.item_array@.push((index, value));
                assert forall|i: int| 0 < i < s.len() && i != position implies self.compare.spec_le(
                    s[parent(i)],
                    #[trigger] s[i],
                ) by {
                    assert(s[i] == self.item_array@[i]);
                }
            }
            self.index_to_position.set(index, position);
            self.item_array.push((index, value));
            sift_up_slots(
                &self.compare,
                &mut self.index_to_position,
                &mut self.item_array,
                position,
            );
        } else {
            proof {
                lemma_set_value(self.index_to_position@, self.item_array@, position as int, value);
                lemma_replace_ready(self.compare, self.item_array@, position as int, (index, value));
            }
            self.item_array.set(position, (index, value));
            update_slots(&self.compare, &mut self.index_to_position, &mut self.item_array, position);
        }
    }

    /// Inserts the entries of `entries` in order.
    pub fn extend(&mut self, entries: Vec<(usize, ValueT)>)
        requires
            old(self).wf(),
            forall|k: int|
                0 <= k < entries@.len() ==> index_fits(
                    old(self).spec_capacity(),
                    (#[trigger] entries@[k]).0,
                ),
            old(self)@.len() + entries@.len() + 1 < usize::MAX / 2,
        ensures
            final(self).wf(),
            final(self)@ == inserted_all(old(self)@, entries@),
            final(self).comparator() == old(self).comparator(),
    {
        let ghost all = entries@;
        let ghost start = self@;
        let mut rest = reversed(entries);
        let mut k: usize = 0;
        proof {
            lemma_view_len(self.index_to_position@, self.item_array@);
        }
        while rest.len() > 0
            invariant
                self.wf(),
                self.comparator() == old(self).comparator(),
                k + rest@.len() == all.len(),
                rest@ == all.subrange(k as int, all.len() as int).reverse(),
                self@ == inserted_all(start, all.subrange(0, k as int)),
                self@.dom().finite(),
                self@.len() <= start.len() + k,
                start.len() + all.len() + 1 < usize::MAX / 2,
                self.spec_capacity() >= old(self).spec_capacity(),
                forall|j: int|
                    0 <= j < all.len() ==> index_fits(
                        old(self).spec_capacity(),
                        (#[trigger] all[j]).0,
                    ),
            decreases rest@.len(),
        {
            let entry = rest.pop().unwrap();
            proof {
                assert(entry == all[k as int]);
                assert(all.subrange(0, k as int + 1).drop_last() =~= all.subrange(0, k as int));
                assert(rest@ =~= all.subrange(k as int + 1, all.len() as int).reverse());
                lemma_grown_capacity(entry.0 as nat);
            }
            self.insert(entry.0, entry.1);
            k = k + 1;
            proof {
                lemma_view_len(self.index_to_position@, self.item_array@);
            }
        }
        proof {
            assert(all.subrange(0, all.len() as int) =~= all);
        }
    }

    /// Removes the entry of `index`, returning its value.
    pub fn remove(&mut self, index: usize) -> (value: Option<ValueT>)
        requires
            old(self).wf(),
        ensures
            final(self).wf(),
            final(self)@ == old(self)@.remove(index),
            value == old(self)@.get(index),
            final(self).comparator() == old(self).comparator(),
            final(self).spec_capacity() == old(self).spec_capacity(),
    {
        if index >= self.index_to_position.len() {
            return None;
        }
        let position = self.index_to_position[index];
        if position == NULL_POSITION {
            proof {
                assert(self@.remove(index) =~= self@);
            }
            return None;
        }
        proof {
            lemma_swap_remove(self.index_to_position@, self.item_array@, position as int);
            if position as int != self.item_array@.len() - 1 {
                lemma_removed_ready(self.compare, self.item_array@, position as int);
            } else {
                assert forall|i: int|
                    0 < i < self.item_array@.len() - 1 implies self.compare.spec_le(
                    self.item_array@.drop_last()[parent(i)],
                    #[trigger] self.item_array@.drop_last()[i],
                ) by {
                    assert(self.compare.spec_le(self.item_array@[parent(i)], self.item_array@[i]));
                }
                assert(removed_items(self.item_array@, position as int) =~= self.item_array@.drop_last());
            }
        }
        let (_, value) = self.item_array.swap_remove(position);
        self.index_to_position.set(index, NULL_POSITION);
        if position != self.item_array.len() {
            let moved = self.item_array[position].0;
            self.index_to_position.set(moved, position);
            proof {
                assert(self.index_to_position@ == removed_positions(
                    old(self).index_to_position@,
                    old(self).item_array@,
                    position as int,
                ));
            }
            update_slots(&self.compare, &mut self.index_to_position, &mut self.item_array, position);
        }
        Some(value)
    }

    /// Removes and returns a least entry, if any.
    pub fn pop_first(&mut self) -> (entry: Option<(usize, ValueT)>)
        requires
            old(self).wf(),
        ensures
            final(self).wf(),
            final(self).comparator() == old(self).comparator(),
            final(self).spec_capacity() == old(self).spec_capacity(),
            entry is None <==> old(self)@.len() == 0,
            entry is None ==> final(self)@ == old(self)@,
            entry matches Some(e) ==> is_least_entry(old(self).comparator(), old(self)@, e.0, e.1)
                && final(self)@ == old(self)@.remove(e.0),
    {
        proof {
            lemma_view_len(self.index_to_position@, self.item_array@);
        }
        if self.item_array.is_empty() {
            return None;
        }
        proof {
            self.lemma_root_least();
            lemma_swap_remove(self.index_to_position@, self.item_array@, 0);
            lemma_remove_root(self.compare, self.item_array@);
        }
        let (index, value) = self.item_array.swap_remove(0);
        self.index_to_position.set(index, NULL_POSITION);
        if !self.item_array.is_empty() {
            let moved = self.item_array[0].0;
            self.index_to_position.set(moved, 0);
            proof {
                assert(self.index_to_position@ == removed_positions(
                    old(self).index_to_position@,
                    old(self).item_array@,
                    0,
                ));
            }
            sift_down_slots(&self.compare, &mut self.index_to_position, &mut self.item_array, 0);
        } else {
            proof {
                assert(self.index_to_position@ == removed_positions(
                    old(self).index_to_position@,
                    old(self).item_array@,
                    0,
                ));
            }
        }
        Some((index, value))
    }

    /// Removes every entry, keeping the capacity.
    pub fn clear(&mut self)
        requires
            old(self).wf(),
        ensures
            final(self).wf(),
            final(self)@ == Map::<usize, ValueT>::empty(),
            final(self).comparator() == old(self).comparator(),
            final(self).spec_capacity() == old(self).spec_capacity(),
    {
        while self.item_array.len() > 0
            invariant
                self.wf(),
                self.comparator() == old(self).comparator(),
                self.spec_capacity() == old(self).spec_capacity(),
            decreases self.item_array@.len(),
        {
            let ghost s = self.item_array@;
            proof {
                lemma_swap_remove(self.index_to_position@, s, s.len() - 1);
                assert(removed_items(s, s.len() - 1) =~= s.drop_last());
                assert forall|i: int| 0 < i < s.len() - 1 implies self.compare.spec_le(
                    s.drop_last()[parent(i)],
                    #[trigger] s.drop_last()[i],
                ) by {
                    assert(self.compare.spec_le(s[parent(i)], s[i]));
                }
            }
            let (index, _) = self.item_array.pop().unwrap();
            self.index_to_position.set(index, NULL_POSITION);
        }
        proof {
            lemma_view_len(self.index_to_position@, self.item_array@);
            assert(self@ =~= Map::<usize, ValueT>::empty());
        }
    }

    /// The entries, in heap order.
    pub fn iter(&self) -> (entries: &[(usize, ValueT)])
        ensures
            entries@ == self.items(),
    {
        self.item_array.as_slice()
    }
}

impl<ValueT, CompareT: Comparator<(usize, ValueT)> + Default> Default for HeapedMap<
    ValueT,
    CompareT,
> {
    fn default() -> (map: Self)
        ensures
            map.wf(),
            map@ == Map::<usize, ValueT>::empty(),
    {
        Self::new(CompareT::default())
    }
}

} // verus!
