use vstd::prelude::*;
use vstd::multiset::Multiset;

use crate::comparator::Comparator;
use crate::heap_sort::{down_heap, is_heap, is_least, lemma_heap_root_is_least, lemma_remove_root, up_heap};

verus! {

broadcast use vstd::seq_lib::group_to_multiset_ensures;

/// A priority queue: a binary heap whose front is a least element under the
/// comparator.
#[derive(Clone, Debug)]
pub struct PriorityQueue<ValueT, ComparatorT> {
    compare: ComparatorT,
    array: Vec<ValueT>,
}

impl<ValueT, ComparatorT> View for PriorityQueue<ValueT, ComparatorT> {
    type V = Multiset<ValueT>;

    /// The multiset of queued values.
    closed spec fn view(&self) -> Multiset<ValueT> {
        self.array@.to_multiset()
    }
}

impl<ValueT, ComparatorT: Comparator<ValueT>> PriorityQueue<ValueT, ComparatorT> {
    /// The heap array, in heap order.
    pub closed spec fn items(self) -> Seq<ValueT> {
        self.array@
    }

    /// The comparator that orders the queue.
    pub closed spec fn comparator(self) -> ComparatorT {
        self.compare
    }

    /// The heap order holds and the array is small enough to index its
    /// children.
    pub closed spec fn wf(self) -> bool {
        &&& is_heap(self.compare, self.array@)
        &&& self.array@.len() <= usize::MAX / 2
    }

    /// The view is the multiset of the items.
    pub proof fn lemma_view(self)
        ensures
            self@ == self.items().to_multiset(),
            self@.len() == self.items().len(),
    {
    }

    /// An empty queue ordered by `compare`.
    pub fn new(compare: ComparatorT) -> (queue: Self)
        ensures
            queue.wf(),
            queue@ == Multiset::<ValueT>::empty(),
            queue.comparator() == compare,
    {
        let queue = Self { compare, array: Vec::new() };
        proof {
            assert(queue.array@ =~= Seq::<ValueT>::empty());
        }
        queue
    }

    /// The number of queued values.
    pub fn len(&self) -> (length: usize)
        ensures
            length == self@.len(),
    {
        self.array.len()
    }

    /// Whether the queue holds no value.
    pub fn is_empty(&self) -> (empty: bool)
        ensures
            empty == (self@.len() == 0),
    {
        self.array.is_empty()
    }

    /// The queued values, in heap order.
    pub fn iter(&self) -> (items: &[ValueT])
        ensures
            items@ == self.items(),
            items@.to_multiset() == self@,
    {
        self.array.as_slice()
    }

    /// A least queued value, if any.
    pub fn peek(&self) -> (first: Option<&ValueT>)
        requires
            self.wf(),
        ensures
            first is None <==> self@.len() == 0,
            first matches Some(x) ==> is_least(self.comparator(), *x, self@),
    {
        if self.array.len() == 0 {
            None
        } else {
            proof {
                lemma_heap_root_is_least(self.compare, self.array@);
            }
            Some(&self.array[0])
        }
    }

    /// Adds `value` to the queue.
    pub fn push(&mut self, value: ValueT)
        requires
            old(self).wf(),
            old(self)@.len() < usize::MAX / 2,
        ensures
            final(self).wf(),
            final(self)@ == old(self)@.insert(value),
            final(self).comparator() == old(self).comparator(),
    {
        let position = self.array.len();
        self.array.push(value);
        proof {
            assert(self.array@ == old(self).array@.push(value));
            assert forall|i: int|
                0 < i < self.array@.len() && i != position implies self.compare.spec_le(
                self.array@[crate::heap_sort::parent(i)],
                #[trigger] self.array@[i],
            ) by {
                assert(self.array@[i] == old(self).array@[i]);
            }
        }
        up_heap(&mut self.array, position, &self.compare);
    }

    /// Adds every value of `values` to the queue.
    pub fn extend(&mut self, values: Vec<ValueT>)
        requires
            old(self).wf(),
            old(self)@.len() + values@.len() < usize::MAX / 2,
        ensures
            final(self).wf(),
            final(self)@ == old(self)@.add(values@.to_multiset()),
            final(self).comparator() == old(self).comparator(),
    {
        let mut values = values;
        let ghost all = values@;
        let ghost start = self@;
        while values.len() > 0
            invariant
                self.wf(),
                self.comparator() == old(self).comparator(),
                values@ == all.subrange(0, values@.len() as int),
                values@.len() <= all.len(),
                self@ == start.add(all.subrange(values@.len() as int, all.len() as int).to_multiset()),
                start.len() + all.len() < usize::MAX / 2,
            decreases values@.len(),
        {
            let ghost n = values@.len() as int;
            let value = values.pop().unwrap();
            proof {
                let rest = all.subrange(n, all.len() as int);
                assert(all.subrange(n - 1, all.len() as int) =~= seq![value] + rest);
                vstd::seq_lib::lemma_multiset_commutative(seq![value], rest);
                assert(seq![value].to_multiset() =~= Multiset::<ValueT>::empty().insert(value)) by {
                    broadcast use vstd::multiset::group_multiset_axioms;
                    assert(seq![value] =~= Seq::<ValueT>::empty().push(value));
                }
                assert(values@ =~= all.subrange(0, n - 1));
                broadcast use vstd::multiset::group_multiset_axioms;
                assert(rest.to_multiset().len() == rest.len());
            }
            self.push(value);
            proof {
                broadcast use vstd::multiset::group_multiset_axioms;
                let rest = all.subrange(n, all.len() as int);
                assert(self@ =~= start.add(all.subrange(n - 1, all.len() as int).to_multiset()));
            }
        }
        proof {
            assert(all.subrange(0, all.len() as int) =~= all);
        }
    }

    /// Removes and returns a least queued value, if any.
    pub fn pop(&mut self) -> (first: Option<ValueT>)
        requires
            old(self).wf(),
        ensures
            final(self).wf(),
            final(self).comparator() == old(self).comparator(),
            first is None <==> old(self)@.len() == 0,
            first is None ==> final(self)@ == old(self)@,
            first matches Some(x) ==> is_least(old(self).comparator(), x, old(self)@)
                && final(self)@ == old(self)@.remove(x),
    {
        if self.array.is_empty() {
            None
        } else {
            proof {
                lemma_heap_root_is_least(self.compare, self.array@);
                lemma_remove_root(self.compare, self.array@);
            }
            let value = self.array.swap_remove(0);
            if !self.array.is_empty() {
                down_heap(&mut self.array, 0, &self.compare);
            }
            Some(value)
        }
    }

    /// Removes every value.
    pub fn clear(&mut self)
        ensures
            final(self).wf(),
            final(self)@ == Multiset::<ValueT>::empty(),
            final(self).comparator() == old(self).comparator(),
    {
        self.array.clear();
        proof {
            assert(self.array@ =~= Seq::<ValueT>::empty());
        }
    }
}

impl<ValueT, ComparatorT: Comparator<ValueT> + Default> Default for PriorityQueue<
    ValueT,
    ComparatorT,
> {
    fn default() -> (queue: Self)
        ensures
            queue.wf(),
            queue@ == Multiset::<ValueT>::empty(),
    {
        Self::new(ComparatorT::default())
    }
}

/// Popping repeatedly yields values in order: a least element of a multiset
/// comes no later than a least element of what remains once it is removed.
pub proof fn lemma_pop_order<ValueT, ComparatorT: Comparator<ValueT>>(
    comparator: ComparatorT,
    values: Multiset<ValueT>,
    first: ValueT,
    second: ValueT,
)
    requires
        is_least(comparator, first, values),
        is_least(comparator, second, values.remove(first)),
    ensures
        comparator.spec_le(first, second),
{
    broadcast use vstd::multiset::group_multiset_axioms;

    assert(values.remove(first).count(second) <= values.count(second));
}

} // verus!
