use vstd::prelude::*;

use crate::map::{capacity_after, index_fits, position_of, IndexMap};

verus! {

/// How many elements of `s` belong to `set`, counted with repetition.
pub open spec fn count_contained(s: Seq<usize>, set: vstd::set::Set<usize>) -> nat
    decreases s.len(),
{
    if s.len() == 0 {
        0
    } else {
        count_contained(s.drop_last(), set) + if set.contains(s.last()) {
            1nat
        } else {
            0nat
        }
    }
}

/// The set obtained from `set` by inserting the elements of `s`.
pub open spec fn inserted_all_keys(set: vstd::set::Set<usize>, s: Seq<usize>) -> vstd::set::Set<
    usize,
> {
    set.union(s.to_set())
}

/// Over distinct indices, the count of those in `set` is the size of the
/// intersection.
proof fn lemma_count_is_intersection(s: Seq<usize>, set: vstd::set::Set<usize>)
    requires
        s.no_duplicates(),
        set.finite(),
    ensures
        count_contained(s, set) == s.to_set().intersect(set).len(),
        s.to_set().intersect(set).finite(),
    decreases s.len(),
{
    if s.len() == 0 {
        assert(s.to_set().intersect(set) =~= vstd::set::Set::<usize>::empty());
    } else {
        let rest = s.drop_last();
        let x = s.last();
        assert(rest.no_duplicates()) by {
            assert forall|i: int, j: int| 0 <= i < rest.len() && 0 <= j < rest.len() && i != j implies rest[i]
                != rest[j] by {
                assert(rest[i] == s[i] && rest[j] == s[j]);
            }
        }
        lemma_count_is_intersection(rest, set);
        assert(s.to_set() =~= rest.to_set().insert(x)) by {
            assert forall|y: usize| #[trigger] s.contains(y) <==> rest.contains(y) || y == x by {
                if s.contains(y) {
                    let i = choose|i: int| 0 <= i < s.len() && s[i] == y;
                    if i < s.len() - 1 {
                        assert(rest[i] == y);
                    }
                }
                if rest.contains(y) {
                    let i = choose|i: int| 0 <= i < rest.len() && rest[i] == y;
                    assert(s[i] == y);
                }
                if y == x {
                    assert(s[s.len() - 1] == y);
                }
            }
        }
        assert(!rest.contains(x)) by {
            if rest.contains(x) {
                let i = choose|i: int| 0 <= i < rest.len() && rest[i] == x;
                assert(s[i] == s[s.len() - 1]);
            }
        }
        let before = rest.to_set().intersect(set);
        if set.contains(x) {
            assert(s.to_set().intersect(set) =~= before.insert(x));
        } else {
            assert(s.to_set().intersect(set) =~= before);
        }
    }
}

/// A finite set meets another in as many elements as it has exactly when
/// it is a subset of it.
proof fn lemma_full_intersection(a: vstd::set::Set<usize>, set: vstd::set::Set<usize>)
    requires
        set.finite(),
        a.intersect(set).finite(),
    ensures
        a.intersect(set).len() == set.len() <==> set.subset_of(a),
{
    if set.subset_of(a) {
        assert(a.intersect(set) =~= set);
    } else {
        let x = choose|x: usize| set.contains(x) && !a.contains(x);
        vstd::set_lib::lemma_len_subset(a.intersect(set), set.remove(x));
    }
}

/// `elements` with each of `indices` not yet among them added at the end,
/// in order.
pub open spec fn appended_new<A>(elements: Seq<A>, indices: Seq<A>) -> Seq<A>
    decreases indices.len(),
{
    if indices.len() == 0 {
        elements
    } else {
        let before = appended_new(elements, indices.drop_last());
        if before.contains(indices.last()) {
            before
        } else {
            before.push(indices.last())
        }
    }
}

/// `s` with the first occurrence of `x` replaced by the last element, and
/// the last element dropped.
pub open spec fn swap_removed<A>(s: Seq<A>, x: A) -> Seq<A> {
    let p = choose|p: int| 0 <= p < s.len() && s[p] == x;
    s.update(p, s.last()).drop_last()
}

/// A set of small non-negative integers.
#[derive(Clone, Debug)]
pub struct IndexSet {
    map: IndexMap<()>,
}

impl View for IndexSet {
    type V = vstd::set::Set<usize>;

    closed spec fn view(&self) -> vstd::set::Set<usize> {
        self.map@.dom()
    }
}

impl IndexSet {
    /// The underlying map is well formed.
    pub closed spec fn wf(self) -> bool {
        self.map.wf()
    }

    /// The length of the position array.
    pub closed spec fn spec_capacity(self) -> nat {
        self.map.spec_capacity()
    }

    /// The elements in the order they are stored: a new element goes last,
    /// and a removed one is replaced by the last.
    pub closed spec fn elements(self) -> Seq<usize> {
        self.map.items().map_values(|e: (usize, ())| e.0)
    }

    /// The stored elements are the elements of the set, each once.
    pub proof fn lemma_elements(self)
        requires
            self.wf(),
        ensures
            forall|i: usize| #[trigger] self.elements().contains(i) <==> self@.contains(i),
            self.elements().no_duplicates(),
            self.elements().len() == self.spec_len(),
    {
        self.map.lemma_items();
        self.map.lemma_keys_unique();
        let e = self.elements();
        assert forall|i: usize| #[trigger] e.contains(i) <==> self@.contains(i) by {
            if e.contains(i) {
                let p = choose|p: int| 0 <= p < e.len() && e[p] == i;
                assert(self.map.items()[p].0 == i);
            }
            if self@.contains(i) {
                let p = choose|p: int| 0 <= p < self.map.items().len() && self.map.items()[p] == (i, self.map@[i]);
                assert(e[p] == i);
            }
        }
        assert forall|p: int, q: int| 0 <= p < e.len() && 0 <= q < e.len() && p != q implies e[p] != e[q] by {
            assert(self.map.items()[p].0 == e[p] && self.map.items()[q].0 == e[q]);
        }
    }

    /// The number of elements, as a sequence length.
    pub closed spec fn spec_len(self) -> nat {
        self.map.items().len()
    }

    /// The set is finite, with `spec_len` elements, all below the capacity.
    pub proof fn lemma_wf(self)
        requires
            self.wf(),
        ensures
            self@.finite(),
            self@.len() == self.spec_len(),
            forall|i: usize| #[trigger] self@.contains(i) ==> i < self.spec_capacity(),
    {
        self.map.lemma_items();
    }

    /// An empty set.
    pub fn new() -> (set: Self)
        ensures
            set.wf(),
            set@ == vstd::set::Set::<usize>::empty(),
            set.spec_capacity() == 0,
            set.spec_len() == 0,
            set.elements() == Seq::<usize>::empty(),
    {
        let set = Self { map: IndexMap::new() };
        proof {
            assert(set@ =~= vstd::set::Set::<usize>::empty());
            set.map.lemma_items();
            assert(set.elements() =~= Seq::<usize>::empty());
        }
        set
    }

    /// The set of the elements of `keys`.
    pub fn from_iter(keys: Vec<usize>) -> (set: Self)
        requires
            forall|k: int| 0 <= k < keys@.len() ==> #[trigger] keys@[k] <= usize::MAX / 2,
            keys@.len() + 1 < usize::MAX,
        ensures
            set.wf(),
            set@ == keys@.to_set(),
            set.elements() == appended_new(Seq::<usize>::empty(), keys@),
    {
        let mut set = Self::new();
        set.extend(keys);
        proof {
            assert(set@ =~= keys@.to_set());
        }
        set
    }

    /// The number of elements.
    pub fn len(&self) -> (length: usize)
        requires
            self.wf(),
        ensures
            length == self@.len(),
    {
        proof {
            self.map.lemma_items();
        }
        self.map.len()
    }

    /// The number of elements the position array holds without growing.
    pub fn capacity(&self) -> (capacity: usize)
        ensures
            capacity == self.spec_capacity(),
    {
        self.map.capacity()
    }

    /// Makes room for `additional` more elements.
    pub fn reserve(&mut self, additional: usize)
        requires
            old(self).wf(),
            old(self).spec_capacity() + additional <= usize::MAX,
        ensures
            final(self).wf(),
            final(self)@ == old(self)@,
            final(self).spec_len() == old(self).spec_len(),
            final(self).elements() == old(self).elements(),
            final(self).spec_capacity() == old(self).spec_capacity() + additional,
    {
        self.map.reserve(additional);
    }

    /// Whether the set is empty.
    pub fn is_empty(&self) -> (empty: bool)
        requires
            self.wf(),
        ensures
            empty == (self@.len() == 0),
    {
        proof {
            self.map.lemma_items();
        }
        self.map.is_empty()
    }

    /// Whether `index` is an element.
    pub fn contains_key(&self, index: usize) -> (contains: bool)
        requires
            self.wf(),
        ensures
            contains == self@.contains(index),
    {
        self.map.contains_key(index)
    }

    /// Whether as many elements of `indices` (counted with repetition)
    /// belong to the set as the set has elements; for `indices` without
    /// repetition this is whether the set is a subset of them.
    pub fn is_subset_of(&self, indices: &[usize]) -> (subset: bool)
        requires
            self.wf(),
        ensures
            subset == (count_contained(indices@, self@) == self@.len()),
            indices@.no_duplicates() ==> (subset <==> self@.subset_of(indices@.to_set())),
    {
        let mut count: usize = 0;
        let mut k: usize = 0;
        while k < indices.len()
            invariant
                self.wf(),
                k <= indices@.len(),
                count == count_contained(indices@.subrange(0, k as int), self@),
                count <= k,
            decreases indices@.len() - k,
        {
            proof {
                assert(indices@.subrange(0, k as int + 1).drop_last() =~= indices@.subrange(
                    0,
                    k as int,
                ));
            }
            if self.contains_key(indices[k]) {
                count = count + 1;
            }
            k = k + 1;
        }
        proof {
            assert(indices@.subrange(0, indices@.len() as int) =~= indices@);
            self.lemma_wf();
            if indices@.no_duplicates() {
                lemma_count_is_intersection(indices@, self@);
                lemma_full_intersection(indices@.to_set(), self@);
            }
        }
        count == self.len()
    }

    /// Adds `index`.
    pub fn insert(&mut self, index: usize)
        requires
            old(self).wf(),
            index_fits(old(self).spec_capacity(), index),
            old(self).spec_len() + 1 < usize::MAX,
        ensures
            final(self).wf(),
            final(self)@ == old(self)@.insert(index),
            final(self).spec_capacity() == capacity_after(old(self).spec_capacity(), index),
            final(self).spec_len() == old(self).spec_len() + if old(self)@.contains(index) {
                0int
            } else {
                1int
            },
            final(self).elements() == if old(self)@.contains(index) {
                old(self).elements()
            } else {
                old(self).elements().push(index)
            },
    {
        self.map.insert(index, ());
        proof {
            assert(self@ =~= old(self)@.insert(index));
            if old(self)@.contains(index) {
                let items = old(self).map.items();
                let p = position_of(items, index);
                old(self).map.lemma_items();
                let q = choose|q: int| 0 <= q < items.len() && items[q] == (index, old(self).map@[index]);
                assert(0 <= p < items.len() && items[p].0 == index);
                assert(self.elements() =~= old(self).elements());
            } else {
                assert(self.elements() =~= old(self).elements().push(index));
            }
        }
    }

    /// Adds every element of `indices`.
    pub fn extend(&mut self, indices: Vec<usize>)
        requires
            old(self).wf(),
            forall|k: int|
                0 <= k < indices@.len() ==> index_fits(old(self).spec_capacity(), #[trigger] indices@[k]),
            old(self).spec_len() + indices@.len() + 1 < usize::MAX,
        ensures
            final(self).wf(),
            final(self)@ == inserted_all_keys(old(self)@, indices@),
            final(self).elements() == appended_new(old(self).elements(), indices@),
    {
        let mut k: usize = 0;
        while k < indices.len()
            invariant
                self.wf(),
                k <= indices@.len(),
                self@ == inserted_all_keys(old(self)@, indices@.subrange(0, k as int)),
                self.elements() == appended_new(old(self).elements(), indices@.subrange(0, k as int)),
                self.spec_len() <= old(self).spec_len() + k,
                self.spec_capacity() >= old(self).spec_capacity(),
                old(self).spec_len() + indices@.len() + 1 < usize::MAX,
                forall|j: int|
                    0 <= j < indices@.len() ==> index_fits(
                        old(self).spec_capacity(),
                        #[trigger] indices@[j],
                    ),
            decreases indices@.len() - k,
        {
            let index = indices[k];
            proof {
                crate::slots::lemma_grown_capacity(index as nat);
                assert(indices@.subrange(0, k as int + 1) =~= indices@.subrange(0, k as int).push(
                    index,
                ));
                let before = indices@.subrange(0, k as int);
                let after = indices@.subrange(0, k as int + 1);
                assert forall|i: usize| #[trigger] after.to_set().contains(i) implies before.to_set().insert(
                    index,
                ).contains(i) by {
                    let p = choose|p: int| 0 <= p < after.len() && after[p] == i;
                    if p < before.len() {
                        assert(before[p] == i);
                    }
                }
                assert forall|i: usize| #[trigger] before.to_set().insert(index).contains(
                    i,
                ) implies after.to_set().contains(i) by {
                    if i == index {
                        assert(after[k as int] == i);
                    } else {
                        let p = choose|p: int| 0 <= p < before.len() && before[p] == i;
                        assert(after[p] == i);
                    }
                }
                assert(after.to_set() =~= before.to_set().insert(index));
            }
            proof {
                self.lemma_elements();
                assert(indices@.subrange(0, k as int + 1).drop_last() =~= indices@.subrange(0, k as int));
            }
            self.insert(index);
            k = k + 1;
            proof {
                assert(self@ =~= inserted_all_keys(old(self)@, indices@.subrange(0, k as int)));
            }
        }
        proof {
            assert(indices@.subrange(0, indices@.len() as int) =~= indices@);
        }
    }

    /// Removes `index`; `Some(())` when it was an element.
    pub fn remove(&mut self, index: usize) -> (removed: Option<()>)
        requires
            old(self).wf(),
        ensures
            final(self).wf(),
            final(self)@ == old(self)@.remove(index),
            removed is Some <==> old(self)@.contains(index),
            final(self).spec_capacity() == old(self).spec_capacity(),
            final(self).elements() == if old(self)@.contains(index) {
                swap_removed(old(self).elements(), index)
            } else {
                old(self).elements()
            },
    {
        let removed = self.map.remove(index);
        proof {
            assert(self@ =~= old(self)@.remove(index));
            if old(self)@.contains(index) {
                let items = old(self).map.items();
                old(self).map.lemma_items();
                old(self).map.lemma_keys_unique();
                let q = choose|q: int| 0 <= q < items.len() && items[q] == (index, old(self).map@[index]);
                let p = position_of(items, index);
                assert(0 <= p < items.len() && items[p].0 == index);
                assert(p == q);
                let e = old(self).elements();
                assert(e[q] == index);
                let r = choose|r: int| 0 <= r < e.len() && e[r] == index;
                assert(items[r].0 == index);
                assert(r == q);
                assert(self.elements() =~= swap_removed(e, index));
            }
        }
        removed
    }

    /// Removes some element, if any, and returns it.
    pub fn pop(&mut self) -> (element: Option<usize>)
        requires
            old(self).wf(),
        ensures
            final(self).wf(),
            element is None <==> old(self)@.len() == 0,
            element is None ==> final(self)@ == old(self)@,
            element matches Some(i) ==> old(self)@.contains(i) && final(self)@ == old(self)@.remove(i),
            element matches Some(i) ==> i == old(self).elements().last() && final(self).elements()
                == old(self).elements().drop_last(),
            final(self).spec_capacity() == old(self).spec_capacity(),
    {
        proof {
            self.map.lemma_items();
        }
        match self.map.pop() {
            Some((index, _)) => {
                proof {
                    assert(self@ =~= old(self)@.remove(index));
                    assert(self.elements() =~= old(self).elements().drop_last());
                }
                Some(index)
            },
            None => None,
        }
    }

    /// Removes every element, keeping the capacity.
    pub fn clear(&mut self)
        requires
            old(self).wf(),
        ensures
            final(self).wf(),
            final(self)@ == vstd::set::Set::<usize>::empty(),
            final(self).spec_capacity() == old(self).spec_capacity(),
            final(self).spec_len() == 0,
            final(self).elements() == Seq::<usize>::empty(),
    {
        self.map.clear();
        proof {
            assert(self@ =~= vstd::set::Set::<usize>::empty());
            self.map.lemma_items();
            assert(self.elements() =~= Seq::<usize>::empty());
        }
    }

    /// The elements, each once, in the order they are stored (see
    /// `elements`).
    pub fn iter(&self) -> (elements: Vec<usize>)
        requires
            self.wf(),
        ensures
            elements@ == self.elements(),
            elements@.to_set() == self@,
            elements@.no_duplicates(),
            elements@.len() == self@.len(),
    {
        let entries = self.map.iter();
        let mut elements: Vec<usize> = Vec::new();
        let mut k: usize = 0;
        proof {
            self.map.lemma_items();
        }
        while k < entries.len()
            invariant
                self.wf(),
                entries@ == self.map.items(),
                k <= entries@.len(),
                elements@ == entries@.subrange(0, k as int).map_values(|e: (usize, ())| e.0),
            decreases entries@.len() - k,
        {
            elements.push(entries[k].0);
            k = k + 1;
            proof {
                assert(elements@ =~= entries@.subrange(0, k as int).map_values(
                    |e: (usize, ())| e.0,
                ));
            }
        }
        proof {
            assert(entries@.subrange(0, entries@.len() as int) =~= entries@);
            self.map.lemma_items();
            self.map.lemma_keys_unique();
            assert(elements@.to_set() =~= self@) by {
                assert forall|i: usize| #[trigger] elements@.to_set().contains(i) implies self@.contains(i) by {
                    let p = choose|p: int| 0 <= p < elements@.len() && elements@[p] == i;
                    assert(self.map.items()[p].0 == i);
                }
                assert forall|i: usize| self@.contains(i) implies #[trigger] elements@.to_set().contains(i) by {
                    let p = choose|p: int|
                        0 <= p < self.map.items().len() && self.map.items()[p] == (i, self.map@[i]);
                    assert(elements@[p] == i);
                }
            }
        }
        elements
    }
}

impl Default for IndexSet {
    fn default() -> (set: Self)
        ensures
            set.wf(),
            set@ == vstd::set::Set::<usize>::empty(),
    {
        Self::new()
    }
}

} // verus!
