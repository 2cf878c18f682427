//! Binary-heap maintenance on a vector, ordered by a comparator: the least
//! element (under the comparator's preorder) sits at position 0.
use vstd::prelude::*;
use vstd::multiset::Multiset;

use crate::comparator::Comparator;

verus! {

broadcast use vstd::seq_lib::group_to_multiset_ensures;

/// Swaps two elements of a slice.
///
/// Trusted: `<[T]>::swap` of std, which exchanges the elements at `a` and `b`
/// (leaving the slice unchanged when `a == b`) and panics when either index is
/// out of bounds.
pub assume_specification<ElementT>[ <[ElementT]>::swap ](slice: &mut [ElementT], a: usize, b: usize)
    requires
        a < old(slice)@.len(),
        b < old(slice)@.len(),
    ensures
        final(slice)@ == old(slice)@.update(a as int, old(slice)@[b as int]).update(
            b as int,
            old(slice)@[a as int],
        ),
;

/// The position of the parent of position `i` (for `i > 0`).
pub open spec fn parent(i: int) -> int {
    (i + 1) / 2 - 1
}

/// `s` with the elements at `i` and `j` exchanged.
pub open spec fn swapped<V>(s: Seq<V>, i: int, j: int) -> Seq<V> {
    s.update(i, s[j]).update(j, s[i])
}

/// Every element comes no earlier than its parent.
pub open spec fn is_heap<V, C: Comparator<V>>(c: C, s: Seq<V>) -> bool {
    forall|i: int| 0 < i < s.len() ==> c.spec_le(s[parent(i)], #[trigger] s[i])
}

/// A heap but for the element at `pos`, which may come before its parent;
/// the children of `pos` come no earlier than the parent of `pos`.
/// This is what sifting `pos` up repairs.
pub open spec fn up_ready<V, C: Comparator<V>>(c: C, s: Seq<V>, pos: int) -> bool {
    &&& forall|i: int| 0 < i < s.len() && i != pos ==> c.spec_le(s[parent(i)], #[trigger] s[i])
    &&& pos > 0 ==> forall|i: int|
        0 < i < s.len() && parent(i) == pos ==> c.spec_le(s[parent(pos)], #[trigger] s[i])
}

/// A heap but for the element at `pos`, which may come after its children;
/// the children of `pos` come no earlier than the parent of `pos`.
/// This is what sifting `pos` down repairs.
pub open spec fn down_ready<V, C: Comparator<V>>(c: C, s: Seq<V>, pos: int) -> bool {
    &&& forall|i: int|
        0 < i < s.len() && parent(i) != pos ==> c.spec_le(s[parent(i)], #[trigger] s[i])
    &&& pos > 0 ==> forall|i: int|
        0 < i < s.len() && parent(i) == pos ==> c.spec_le(s[parent(pos)], #[trigger] s[i])
}

/// A heap whose element at `pos` was replaced by an arbitrary value: the
/// order holds on every edge that does not touch `pos`, and the children of
/// `pos` come no earlier than the parent of `pos`.
pub open spec fn heap_except_at<V, C: Comparator<V>>(c: C, s: Seq<V>, pos: int) -> bool {
    &&& forall|i: int|
        0 < i < s.len() && i != pos && parent(i) != pos ==> c.spec_le(
            s[parent(i)],
            #[trigger] s[i],
        )
    &&& pos > 0 ==> forall|i: int|
        0 < i < s.len() && parent(i) == pos ==> c.spec_le(s[parent(pos)], #[trigger] s[i])
}

/// `x` occurs in `m` and comes no later than any element of `m`.
pub open spec fn is_least<V, C: Comparator<V>>(c: C, x: V, m: Multiset<V>) -> bool {
    &&& m.count(x) > 0
    &&& forall|y: V| m.count(y) > 0 ==> c.spec_le(x, y)
}

/// The root of a heap comes no later than any of its elements.
pub proof fn lemma_heap_root_least<V, C: Comparator<V>>(c: C, s: Seq<V>, i: int)
    requires
        is_heap(c, s),
        0 <= i < s.len(),
    ensures
        c.spec_le(s[0], s[i]),
    decreases i,
{
    if i == 0 {
        c.lemma_total(s[0], s[0]);
    } else {
        let p = parent(i);
        lemma_heap_root_least(c, s, p);
        assert(c.spec_le(s[p], s[i]));
        c.lemma_transitive(s[0], s[p], s[i]);
    }
}

/// The root of a non-empty heap is a least element of its multiset.
pub proof fn lemma_heap_root_is_least<V, C: Comparator<V>>(c: C, s: Seq<V>)
    requires
        is_heap(c, s),
        s.len() > 0,
    ensures
        is_least(c, s[0], s.to_multiset()),
{
    assert(s.contains(s[0]));
    assert forall|y: V| s.to_multiset().count(y) > 0 implies c.spec_le(s[0], y) by {
        assert(s.contains(y));
        let i = choose|i: int| 0 <= i < s.len() && s[i] == y;
        lemma_heap_root_least(c, s, i);
    }
}

/// Removing the root of a heap by moving the last element to the root
/// removes the root from the multiset and leaves the rest ready for sifting
/// down from the root.
pub proof fn lemma_remove_root<V, C: Comparator<V>>(c: C, s: Seq<V>)
    requires
        is_heap(c, s),
        s.len() > 0,
    ensures
        s.update(0, s.last()).drop_last().to_multiset() == s.to_multiset().remove(s[0]),
        down_ready(c, s.update(0, s.last()).drop_last(), 0),
{
    broadcast use vstd::multiset::group_multiset_axioms;

    let t = s.update(0, s.last());
    let u = t.drop_last();
    assert(t.to_multiset() == s.to_multiset().insert(s.last()).remove(s[0]));
    assert(t =~= u.push(s.last()));
    assert(t.to_multiset() == u.to_multiset().insert(s.last()));
    assert(s.contains(s[0]));
    assert(s.to_multiset().count(s[0]) > 0);
    assert forall|x: V| #[trigger] u.to_multiset().count(x) == s.to_multiset().remove(s[0]).count(
        x,
    ) by {
        assert(t.to_multiset().count(x) == u.to_multiset().insert(s.last()).count(x));
    }
    assert(u.to_multiset() =~= s.to_multiset().remove(s[0]));
    assert forall|i: int| 0 < i < u.len() && parent(i) != 0 implies c.spec_le(
        u[parent(i)],
        #[trigger] u[i],
    ) by {
        assert(u[i] == s[i]);
        assert(c.spec_le(s[parent(i)], s[i]));
    }
}

/// Exchanging two elements keeps the multiset of elements.
pub proof fn lemma_swap_multiset<V>(s: Seq<V>, i: int, j: int)
    requires
        0 <= i < s.len(),
        0 <= j < s.len(),
    ensures
        swapped(s, i, j).to_multiset() == s.to_multiset(),
        swapped(s, i, j).len() == s.len(),
{
    broadcast use vstd::multiset::group_multiset_axioms;

    let t = s.update(i, s[j]);
    assert(t.to_multiset() == s.to_multiset().insert(s[j]).remove(s[i]));
    assert(t[j] == if i == j { s[j] } else { s[j] });
    assert(swapped(s, i, j).to_multiset() == t.to_multiset().insert(s[i]).remove(t[j]));
    assert(s.to_multiset().count(s[i]) > 0);
    assert(s.to_multiset().count(s[j]) > 0);
    assert(swapped(s, i, j).to_multiset() =~= s.to_multiset());
}

/// One step of sifting up keeps `up_ready` at the parent.
pub proof fn lemma_up_step<V, C: Comparator<V>>(c: C, s: Seq<V>, cur: int)
    requires
        0 < cur < s.len(),
        up_ready(c, s, cur),
        !c.spec_le(s[parent(cur)], s[cur]),
    ensures
        up_ready(c, swapped(s, parent(cur), cur), parent(cur)),
{
    let p = parent(cur);
    let a = s[cur];
    let b = s[p];
    let t = swapped(s, p, cur);
    c.lemma_total(a, b);
    assert forall|i: int| 0 < i < t.len() && i != p implies c.spec_le(
        t[parent(i)],
        #[trigger] t[i],
    ) by {
        if i == cur {
        } else if parent(i) == cur {
            assert(s[i] == t[i]);
        } else if parent(i) == p {
            assert(c.spec_le(s[parent(i)], s[i]));
            c.lemma_transitive(a, b, s[i]);
        } else {
            assert(s[i] == t[i]);
            assert(c.spec_le(s[parent(i)], s[i]));
        }
    }
    if p > 0 {
        let g = parent(p);
        assert(c.spec_le(s[parent(p)], s[p]));
        assert forall|i: int| 0 < i < t.len() && parent(i) == p implies c.spec_le(
            t[parent(p)],
            #[trigger] t[i],
        ) by {
            if i == cur {
            } else {
                assert(c.spec_le(s[parent(i)], s[i]));
                c.lemma_transitive(s[g], b, s[i]);
            }
        }
    }
}

/// One step of sifting down keeps `down_ready` at the child.
pub proof fn lemma_down_step<V, C: Comparator<V>>(c: C, s: Seq<V>, cur: int, child: int)
    requires
        0 <= cur < child < s.len(),
        parent(child) == cur,
        down_ready(c, s, cur),
        forall|i: int| 0 < i < s.len() && parent(i) == cur ==> c.spec_le(s[child], #[trigger] s[i]),
        !c.spec_le(s[cur], s[child]),
    ensures
        down_ready(c, swapped(s, cur, child), child),
{
    let a = s[cur];
    let b = s[child];
    let t = swapped(s, cur, child);
    c.lemma_total(a, b);
    assert forall|i: int| 0 < i < t.len() && parent(i) != child implies c.spec_le(
        t[parent(i)],
        #[trigger] t[i],
    ) by {
        if i == child {
        } else if parent(i) == cur {
            assert(c.spec_le(s[child], s[i]));
        } else if i == cur {
            assert(c.spec_le(s[parent(cur)], s[child]));
        } else {
            assert(s[i] == t[i]);
            assert(c.spec_le(s[parent(i)], s[i]));
        }
    }
    assert forall|i: int| 0 < i < t.len() && parent(i) == child implies c.spec_le(
        t[parent(child)],
        #[trigger] t[i],
    ) by {
        assert(s[i] == t[i]);
        assert(c.spec_le(s[parent(i)], s[i]));
    }
}

/// Sifting down may stop at `cur` once `cur` comes no later than its least child.
pub proof fn lemma_down_stop<V, C: Comparator<V>>(c: C, s: Seq<V>, cur: int, child: int)
    requires
        0 <= cur < child < s.len(),
        parent(child) == cur,
        down_ready(c, s, cur),
        forall|i: int| 0 < i < s.len() && parent(i) == cur ==> c.spec_le(s[child], #[trigger] s[i]),
        c.spec_le(s[cur], s[child]),
    ensures
        is_heap(c, s),
{
    assert forall|i: int| 0 < i < s.len() implies c.spec_le(s[parent(i)], #[trigger] s[i]) by {
        if parent(i) == cur {
            assert(c.spec_le(s[child], s[i]));
            c.lemma_transitive(s[cur], s[child], s[i]);
        }
    }
}

/// The position of the parent of `position`.
pub(crate) fn parent_of(position: usize) -> (parent_position: usize)
    requires
        0 < position < usize::MAX,
    ensures
        parent_position == parent(position as int),
        parent_position < position,
{
    (position + 1) / 2 - 1
}

/// The position of the left child of `position`.
pub(crate) fn left_of(position: usize) -> (left: usize)
    requires
        position < usize::MAX / 2,
    ensures
        left == 2 * position + 1,
        parent(left as int) == position,
{
    (position + 1) * 2 - 1
}

/// The position of the right child of `position`.
pub(crate) fn right_of(position: usize) -> (right: usize)
    requires
        position < usize::MAX / 2,
    ensures
        right == 2 * position + 2,
        parent(right as int) == position,
{
    (position + 1) * 2
}

/// Exchanges the elements at `i` and `j`.
pub(crate) fn swap_elements<V>(array: &mut Vec<V>, i: usize, j: usize)
    requires
        i < old(array)@.len(),
        j < old(array)@.len(),
    ensures
        final(array)@ == swapped(old(array)@, i as int, j as int),
        final(array)@.to_multiset() == old(array)@.to_multiset(),
{
    proof {
        lemma_swap_multiset(array@, i as int, j as int);
    }
    array.as_mut_slice().swap(i, j);
}

/// Moves the element at `position` towards the root while it comes strictly
/// before its parent.
///
/// The elements are only permuted; when `array` was a heap but for the
/// element at `position` coming too early (`up_ready`), it is a heap after.
pub fn up_heap<ValueT, ComparatorT: Comparator<ValueT>>(
    array: &mut Vec<ValueT>,
    position: usize,
    comparator: &ComparatorT,
)
    requires
        position < old(array)@.len(),
    ensures
        final(array)@.len() == old(array)@.len(),
        final(array)@.to_multiset() == old(array)@.to_multiset(),
        up_ready(*comparator, old(array)@, position as int) ==> is_heap(*comparator, final(array)@),
{
    let ghost s0 = array@;
    let ghost ready = up_ready(*comparator, s0, position as int);
    let length = array.len();
    let mut current = position;
    loop
        invariant
            current < array@.len(),
            array@.len() == length,
            array@.len() == s0.len(),
            array@.to_multiset() == s0.to_multiset(),
            ready ==> up_ready(*comparator, array@, current as int),
            ready == up_ready(*comparator, s0, position as int),
        ensures
            array@.len() == s0.len(),
            array@.to_multiset() == s0.to_multiset(),
            ready ==> is_heap(*comparator, array@),
        decreases current,
    {
        if current == 0 {
            break;
        }
        let parent = parent_of(current);
        if !comparator.ge(&array[current], &array[parent]) {
            proof {
                if ready {
                    lemma_up_step(*comparator, array@, current as int);
                }
            }
            swap_elements(array, parent, current);
            current = parent;
        } else {
            break;
        }
    }
}

/// Moves the element at `position` towards the leaves while it comes strictly
/// after its least child.
///
/// The elements are only permuted; when `array` was a heap but for the
/// element at `position` coming too late (`down_ready`), it is a heap after.
pub fn down_heap<ValueT, ComparatorT: Comparator<ValueT>>(
    array: &mut Vec<ValueT>,
    position: usize,
    comparator: &ComparatorT,
)
    requires
        position < old(array)@.len(),
        old(array)@.len() <= usize::MAX / 2,
    ensures
        final(array)@.len() == old(array)@.len(),
        final(array)@.to_multiset() == old(array)@.to_multiset(),
        down_ready(*comparator, old(array)@, position as int) ==> is_heap(
            *comparator,
            final(array)@,
        ),
{
    let ghost s0 = array@;
    let ghost ready = down_ready(*comparator, s0, position as int);
    let mut current = position;
    loop
        invariant
            current < array@.len(),
            array@.len() == s0.len(),
            s0.len() <= usize::MAX / 2,
            array@.to_multiset() == s0.to_multiset(),
            ready ==> down_ready(*comparator, array@, current as int),
        ensures
            array@.len() == s0.len(),
            array@.to_multiset() == s0.to_multiset(),
            ready ==> is_heap(*comparator, array@),
        decreases array@.len() - current,
    {
        let left = left_of(current);
        if left >= array.len() {
            proof {
                if ready {
                    assert forall|i: int| 0 < i < array@.len() implies comparator.spec_le(
                        array@[parent(i)],
                        #[trigger] array@[i],
                    ) by {
                        assert(parent(i) != current);
                    }
                }
            }
            break;
        }
        let right = right_of(current);
        let child = if right >= array.len() || !comparator.ge(&array[left], &array[right]) {
            left
        } else {
            right
        };
        proof {
            comparator.lemma_total(array@[left as int], array@[right as int]);
            assert forall|i: int| 0 < i < array@.len() && parent(i) == current implies comparator.spec_le(
                array@[child as int],
                #[trigger] array@[i],
            ) by {
                comparator.lemma_total(array@[i], array@[i]);
            }
        }
        if !comparator.ge(&array[child], &array[current]) {
            proof {
                if ready {
                    lemma_down_step(*comparator, array@, current as int, child as int);
                }
            }
            swap_elements(array, current, child);
            current = child;
        } else {
            proof {
                if ready {
                    comparator.lemma_total(array@[current as int], array@[child as int]);
                    lemma_down_stop(*comparator, array@, current as int, child as int);
                }
            }
            break;
        }
    }
}

/// Restores the heap after the element at `position` was replaced: sifts it
/// up when it comes strictly before its parent, and down otherwise.
///
/// The elements are only permuted; when `array` was a heap but for the
/// replaced element (`heap_except_at`), it is a heap after.
pub fn update_heap<ValueT, ComparatorT: Comparator<ValueT>>(
    array: &mut Vec<ValueT>,
    position: usize,
    comparator: &ComparatorT,
)
    requires
        position < old(array)@.len(),
        old(array)@.len() <= usize::MAX / 2,
    ensures
        final(array)@.len() == old(array)@.len(),
        final(array)@.to_multiset() == old(array)@.to_multiset(),
        heap_except_at(*comparator, old(array)@, position as int) ==> is_heap(
            *comparator,
            final(array)@,
        ),
{
    let ghost s = array@;
    if position != 0 && !comparator.ge(&array[position], &array[parent_of(position)]) {
        proof {
            let c = *comparator;
            let p = parent(position as int);
            if heap_except_at(c, s, position as int) {
                c.lemma_total(s[position as int], s[p]);
                assert forall|i: int| 0 < i < s.len() && parent(i) == position implies c.spec_le(
                    s[parent(position as int)],
                    #[trigger] s[i],
                ) by {}
                assert forall|i: int| 0 < i < s.len() && i != position implies c.spec_le(
                    s[parent(i)],
                    #[trigger] s[i],
                ) by {
                    if parent(i) == position {
                        c.lemma_transitive(s[position as int], s[p], s[i]);
                    }
                }
            }
        }
        up_heap(array, position, comparator);
    } else {
        proof {
            let c = *comparator;
            if heap_except_at(c, s, position as int) && position != 0 {
                c.lemma_total(s[position as int], s[parent(position as int)]);
            }
        }
        down_heap(array, position, comparator);
    }
}

} // verus!
