//! The sparse index layout shared by the index maps: an array from index to
//! position, and an array of `(index, value)` items.
use vstd::prelude::*;

verus! {

/// The position recorded for an index that is absent.
pub const NULL_POSITION: usize = usize::MAX;

/// The item array and the position array describe each other: every item's
/// index leads back to the item, and every non-null position holds an item
/// with that index.
pub open spec fn slots_consistent<V>(positions: Seq<usize>, items: Seq<(usize, V)>) -> bool {
    &&& NULL_POSITION == usize::MAX
    &&& items.len() < usize::MAX
    &&& forall|p: int|
        0 <= p < items.len() ==> (#[trigger] items[p]).0 < positions.len() && positions[items[p].0 as int]
            == p
    &&& forall|i: int|
        0 <= i < positions.len() && #[trigger] positions[i] != NULL_POSITION ==> positions[i]
            < items.len() && items[positions[i] as int].0 == i
}

/// The map from index to value that the two arrays describe.
pub open spec fn slots_view<V>(positions: Seq<usize>, items: Seq<(usize, V)>) -> Map<usize, V> {
    Map::new(
        |i: usize| i < positions.len() && positions[i as int] != NULL_POSITION,
        |i: usize| items[positions[i as int] as int].1,
    )
}

/// Every item is an entry of the map.
pub proof fn lemma_items_in_view<V>(positions: Seq<usize>, items: Seq<(usize, V)>, p: int)
    requires
        slots_consistent(positions, items),
        0 <= p < items.len(),
    ensures
        slots_view(positions, items).contains_key(items[p].0),
        slots_view(positions, items)[items[p].0] == items[p].1,
{
}

/// Every entry of the map is an item.
pub proof fn lemma_view_in_items<V>(positions: Seq<usize>, items: Seq<(usize, V)>, i: usize)
    requires
        slots_consistent(positions, items),
        slots_view(positions, items).contains_key(i),
    ensures
        0 <= positions[i as int] < items.len(),
        items[positions[i as int] as int] == (i, slots_view(positions, items)[i]),
{
}

/// The map has as many entries as there are items.
pub proof fn lemma_view_len<V>(positions: Seq<usize>, items: Seq<(usize, V)>)
    requires
        slots_consistent(positions, items),
    ensures
        slots_view(positions, items).dom().finite(),
        slots_view(positions, items).dom().len() == items.len(),
{
    broadcast use vstd::seq_lib::seq_to_set_is_finite;

    let keys = Seq::new(items.len(), |p: int| items[p].0);
    assert(keys.no_duplicates()) by {
        assert forall|p: int, q: int|
            0 <= p < keys.len() && 0 <= q < keys.len() && p != q implies keys[p] != keys[q] by {
            assert(items[p].0 == keys[p]);
            assert(items[q].0 == keys[q]);
        }
    }
    keys.unique_seq_to_set();
    assert(slots_view(positions, items).dom() =~= keys.to_set()) by {
        assert forall|i: usize| #[trigger] keys.to_set().contains(i) implies slots_view(
            positions,
            items,
        ).dom().contains(i) by {
            let p = choose|p: int| 0 <= p < keys.len() && keys[p] == i;
            assert(items[p].0 == i);
        }
        assert forall|i: usize| slots_view(positions, items).dom().contains(
            i,
        ) implies #[trigger] keys.to_set().contains(i) by {
            let p = positions[i as int] as int;
            assert(keys[p] == i);
        }
    }
}

/// Appending a new item for an absent index inserts it into the map.
pub proof fn lemma_push<V>(positions: Seq<usize>, items: Seq<(usize, V)>, i: usize, v: V)
    requires
        slots_consistent(positions, items),
        i < positions.len(),
        positions[i as int] == NULL_POSITION,
        items.len() + 1 < usize::MAX,
    ensures
        slots_consistent(positions.update(i as int, items.len() as usize), items.push((i, v))),
        slots_view(positions.update(i as int, items.len() as usize), items.push((i, v)))
            =~= slots_view(positions, items).insert(i, v),
{
    let ps = positions.update(i as int, items.len() as usize);
    let its = items.push((i, v));
    assert forall|p: int| 0 <= p < its.len() implies (#[trigger] its[p]).0 < ps.len() && ps[its[p].0 as int]
        == p by {
        if p < items.len() {
            assert(items[p] == its[p]);
        }
    }
}

/// Replacing the value of an item replaces it in the map.
pub proof fn lemma_set_value<V>(positions: Seq<usize>, items: Seq<(usize, V)>, p: int, v: V)
    requires
        slots_consistent(positions, items),
        0 <= p < items.len(),
    ensures
        slots_consistent(positions, items.update(p, (items[p].0, v))),
        slots_view(positions, items.update(p, (items[p].0, v))) =~= slots_view(
            positions,
            items,
        ).insert(items[p].0, v),
{
    let its = items.update(p, (items[p].0, v));
    assert forall|q: int| 0 <= q < its.len() implies (#[trigger] its[q]).0 < positions.len()
        && positions[its[q].0 as int] == q by {
        assert(items[q].0 == its[q].0);
    }
}

/// The position array after exchanging the items at `a` and `b`.
pub open spec fn swapped_positions<V>(
    positions: Seq<usize>,
    items: Seq<(usize, V)>,
    a: int,
    b: int,
) -> Seq<usize> {
    positions.update(items[a].0 as int, b as usize).update(items[b].0 as int, a as usize)
}

/// Exchanging two items (and their positions) keeps the map.
pub proof fn lemma_swap<V>(positions: Seq<usize>, items: Seq<(usize, V)>, a: int, b: int)
    requires
        slots_consistent(positions, items),
        0 <= a < items.len(),
        0 <= b < items.len(),
    ensures
        slots_consistent(
            swapped_positions(positions, items, a, b),
            crate::heap_sort::swapped(items, a, b),
        ),
        slots_view(swapped_positions(positions, items, a, b), crate::heap_sort::swapped(items, a, b))
            =~= slots_view(positions, items),
{
    let ps = swapped_positions(positions, items, a, b);
    let its = crate::heap_sort::swapped(items, a, b);
    let ia = items[a].0;
    let ib = items[b].0;
    assert forall|p: int| 0 <= p < its.len() implies (#[trigger] its[p]).0 < ps.len() && ps[its[p].0 as int]
        == p by {
        if p != a && p != b {
            assert(its[p] == items[p]);
            assert(items[p].0 != ia);
            assert(items[p].0 != ib);
        }
    }
    assert forall|i: int| 0 <= i < ps.len() && #[trigger] ps[i] != NULL_POSITION implies ps[i]
        < its.len() && its[ps[i] as int].0 == i by {
        if i != ia && i != ib {
            assert(ps[i] == positions[i]);
        }
    }
    assert forall|i: usize| #[trigger] slots_view(ps, its).contains_key(i) implies slots_view(
        positions,
        items,
    ).contains_key(i) && slots_view(ps, its)[i] == slots_view(positions, items)[i] by {
        if i != ia && i != ib {
            assert(ps[i as int] == positions[i as int]);
        }
    }
    assert forall|i: usize| #[trigger] slots_view(positions, items).contains_key(i) implies slots_view(
        ps,
        its,
    ).contains_key(i) by {
        if i != ia && i != ib {
            assert(ps[i as int] == positions[i as int]);
        }
    }
}

/// The position array after removing the item at `p` by moving the last item
/// into its place.
pub open spec fn removed_positions<V>(positions: Seq<usize>, items: Seq<(usize, V)>, p: int) -> Seq<
    usize,
> {
    if p == items.len() - 1 {
        positions.update(items[p].0 as int, NULL_POSITION)
    } else {
        positions.update(items[p].0 as int, NULL_POSITION).update(items.last().0 as int, p as usize)
    }
}

/// The item array after removing the item at `p` by moving the last item
/// into its place.
pub open spec fn removed_items<V>(items: Seq<(usize, V)>, p: int) -> Seq<(usize, V)> {
    items.update(p, items.last()).drop_last()
}

/// Removing an item (moving the last item into its place) removes its index
/// from the map.
pub proof fn lemma_swap_remove<V>(positions: Seq<usize>, items: Seq<(usize, V)>, p: int)
    requires
        slots_consistent(positions, items),
        0 <= p < items.len(),
    ensures
        slots_consistent(removed_positions(positions, items, p), removed_items(items, p)),
        slots_view(removed_positions(positions, items, p), removed_items(items, p))
            =~= slots_view(positions, items).remove(items[p].0),
{
    let ps = removed_positions(positions, items, p);
    let its = removed_items(items, p);
    let i = items[p].0;
    let last = items.len() - 1;
    let j = items[last].0;
    assert forall|q: int| 0 <= q < its.len() implies (#[trigger] its[q]).0 < ps.len() && ps[its[q].0 as int]
        == q by {
        if q == p {
            assert(its[q] == items[last]);
        } else {
            assert(its[q] == items[q]);
            assert(items[q].0 != i);
            assert(items[q].0 != j);
        }
    }
    assert forall|k: int| 0 <= k < ps.len() && #[trigger] ps[k] != NULL_POSITION implies ps[k]
        < its.len() && its[ps[k] as int].0 == k by {
        if k != i && k != j {
            assert(ps[k] == positions[k]);
            assert(positions[k] != p);
            assert(positions[k] != last);
        }
    }
    assert forall|k: usize| #[trigger] slots_view(ps, its).contains_key(k) implies slots_view(
        positions,
        items,
    ).remove(i).contains_key(k) && slots_view(ps, its)[k] == slots_view(positions, items)[k] by {
        if k != i && k != j {
            assert(ps[k as int] == positions[k as int]);
        }
    }
    assert forall|k: usize| #[trigger] slots_view(positions, items).remove(i).contains_key(
        k,
    ) implies slots_view(ps, its).contains_key(k) by {
        if k != j {
            assert(ps[k as int] == positions[k as int]);
        }
    }
}

/// Appending absent positions keeps the map.
pub proof fn lemma_grow<V>(positions: Seq<usize>, items: Seq<(usize, V)>, extra: Seq<usize>)
    requires
        slots_consistent(positions, items),
        forall|k: int| 0 <= k < extra.len() ==> extra[k] == NULL_POSITION,
    ensures
        slots_consistent(positions + extra, items),
        slots_view(positions + extra, items) =~= slots_view(positions, items),
{
    let ps = positions + extra;
    assert forall|p: int| 0 <= p < items.len() implies (#[trigger] items[p]).0 < ps.len() && ps[items[p].0 as int]
        == p by {}
    assert forall|k: int| 0 <= k < ps.len() && #[trigger] ps[k] != NULL_POSITION implies ps[k]
        < items.len() && items[ps[k] as int].0 == k by {
        if k >= positions.len() {
            assert(ps[k] == extra[k - positions.len()]);
        }
    }
}

/// The smallest power of two above `index`: the capacity the position array
/// grows to when `index` does not fit.
pub open spec fn grown_capacity(index: nat) -> nat
    decreases index,
{
    if index == 0 {
        1
    } else {
        2 * grown_capacity(index / 2)
    }
}

/// `grown_capacity(index)` exceeds `index` and is at most twice it.
pub proof fn lemma_grown_capacity(index: nat)
    ensures
        index < grown_capacity(index),
        grown_capacity(index) <= 2 * index || index == 0,
        grown_capacity(index) >= 1,
    decreases index,
{
    if index > 0 {
        lemma_grown_capacity(index / 2);
    }
}

/// The smallest power of two above `index`.
pub fn grown_capacity_of(index: usize) -> (capacity: usize)
    requires
        index <= usize::MAX / 2,
    ensures
        capacity == grown_capacity(index as nat),
        index < capacity,
    decreases index,
{
    proof {
        lemma_grown_capacity(index as nat);
    }
    if index == 0 {
        1
    } else {
        2 * grown_capacity_of(index / 2)
    }
}

/// Grows `positions` with absent positions to `length`.
pub fn grow_positions(positions: &mut Vec<usize>, length: usize)
    ensures
        final(positions)@.len() == if length <= old(positions)@.len() {
            old(positions)@.len()
        } else {
            length as nat
        },
        final(positions)@ == old(positions)@ + final(positions)@.subrange(
            old(positions)@.len() as int,
            final(positions)@.len() as int,
        ),
        forall|k: int|
            old(positions)@.len() <= k < final(positions)@.len() ==> final(positions)@[k]
                == NULL_POSITION,
{
    let ghost start = positions@;
    while positions.len() < length
        invariant
            positions@.len() >= start.len(),
            length > start.len() ==> positions@.len() <= length,
            length <= start.len() ==> positions@.len() == start.len(),
            positions@.subrange(0, start.len() as int) == start,
            forall|k: int| start.len() <= k < positions@.len() ==> positions@[k] == NULL_POSITION,
        decreases length - positions@.len(),
    {
        positions.push(NULL_POSITION);
    }
    proof {
        assert(positions@ =~= start + positions@.subrange(start.len() as int, positions@.len() as int));
    }
}

/// The elements of `v` in reverse order.
pub fn reversed<T>(v: Vec<T>) -> (r: Vec<T>)
    ensures
        r@ == v@.reverse(),
{
    let mut v = v;
    let ghost all = v@;
    let mut r: Vec<T> = Vec::new();
    while v.len() > 0
        invariant
            v@ == all.subrange(0, v@.len() as int),
            r@ == all.subrange(v@.len() as int, all.len() as int).reverse(),
            v@.len() <= all.len(),
        decreases v@.len(),
    {
        let ghost n = v@.len() as int;
        let x = v.pop().unwrap();
        r.push(x);
        proof {
            assert(v@ =~= all.subrange(0, n - 1));
            assert(r@ =~= all.subrange(n - 1, all.len() as int).reverse());
        }
    }
    proof {
        assert(all.subrange(0, all.len() as int) =~= all);
    }
    r
}

} // verus!
