use vstd::prelude::*;
use std::collections::VecDeque;
use fxhash::FxHashSet;

verus! {

/// `std::hash::BuildHasherDefault`, the hasher builder of `FxHashSet`.
#[verifier::external_type_specification]
#[verifier::external_body]
#[verifier::reject_recursive_types(H)]
pub struct ExBuildHasherDefault<H>(std::hash::BuildHasherDefault<H>);

/// The hasher of `fxhash`.
#[verifier::external_type_specification]
#[verifier::external_body]
pub struct ExFxHasher(fxhash::FxHasher);

/// An empty set of row indices.
///
/// Trusted: `Default::default` for `fxhash::FxHashSet` (a std `HashSet`
/// with the hasher of `fxhash`), which makes an empty set.
#[verifier::external_body]
fn empty_index_set() -> (set: FxHashSet<usize>)
    ensures
        set@ == vstd::set::Set::<usize>::empty(),
{
    FxHashSet::default()
}

/// Adds `index` to `set`.
///
/// Trusted: `HashSet::insert` of std on an `fxhash::FxHashSet`, which adds
/// the element; the hasher of `fxhash` hashes equal keys alike, so the
/// set holds each index once.
#[verifier::external_body]
fn insert_index(set: &mut FxHashSet<usize>, index: usize)
    ensures
        final(set)@ == old(set)@.insert(index),
{
    set.insert(index);
}

/// Whether `index` is in `set`.
///
/// Trusted: `HashSet::contains` of std on an `fxhash::FxHashSet`, which
/// tells whether the element is present.
#[verifier::external_body]
pub(crate) fn contains_index(set: &FxHashSet<usize>, index: usize) -> (contains: bool)
    ensures
        contains == set@.contains(index),
{
    set.contains(&index)
}

/// The identifier of a row of a `RowStorage`.
#[derive(Clone, Copy, PartialEq, Eq, Structural, Hash, Debug)]
pub struct RowId {
    index: usize,
}

impl RowId {
    /// The slot the row occupies.
    pub closed spec fn spec_index(self) -> usize {
        self.index
    }

    /// The row identifier of slot `index`.
    pub closed spec fn of(index: usize) -> RowId {
        RowId { index }
    }

    /// The slot the row occupies.
    pub(crate) fn index(&self) -> (index: usize)
        ensures
            index == self.spec_index(),
    {
        self.index
    }

    /// Row identifiers are determined by their slot.
    pub broadcast proof fn lemma_of(index: usize)
        ensures
            #[trigger] RowId::of(index).spec_index() == index,
    {
    }

    /// Row identifiers are determined by their slot.
    pub broadcast proof fn lemma_index(id: RowId)
        ensures
            RowId::of(#[trigger] id.spec_index()) == id,
    {
    }
}

/// Slots for rows; freed slots are reused first in, first out.
#[derive(Clone, Debug)]
pub struct RowStorage<T> {
    slots: Vec<Option<T>>,
    vacant_row_ids: VecDeque<RowId>,
}

/// The rows that occupy slots of `slots`, in slot order.
pub open spec fn occupied_rows<T>(slots: Seq<Option<T>>) -> Seq<(RowId, T)>
    decreases slots.len(),
{
    if slots.len() == 0 {
        Seq::empty()
    } else {
        let rest = occupied_rows(slots.drop_last());
        match slots.last() {
            Some(value) => rest.push((RowId::of((slots.len() - 1) as usize), value)),
            None => rest,
        }
    }
}

/// Each occupied row names its slot, which holds it, and the slots come in
/// increasing order.
pub proof fn lemma_occupied<T>(slots: Seq<Option<T>>)
    requires
        slots.len() <= usize::MAX,
    ensures
        forall|k: int|
            0 <= k < occupied_rows(slots).len() ==> {
                let i = (#[trigger] occupied_rows(slots)[k]).0.spec_index() as int;
                &&& 0 <= i < slots.len()
                &&& slots[i] == Some(occupied_rows(slots)[k].1)
            },
        forall|a: int, b: int|
            0 <= a < b < occupied_rows(slots).len() ==> (#[trigger] occupied_rows(slots)[a]).0.spec_index()
                < (#[trigger] occupied_rows(slots)[b]).0.spec_index(),
    decreases slots.len(),
{
    broadcast use RowId::lemma_of;

    if slots.len() > 0 {
        let rest = slots.drop_last();
        lemma_occupied(rest);
        let occ = occupied_rows(slots);
        let before = occupied_rows(rest);
        assert forall|k: int| 0 <= k < before.len() implies {
            let i = (#[trigger] before[k]).0.spec_index() as int;
            &&& 0 <= i < slots.len() - 1
            &&& slots[i] == Some(before[k].1)
        } by {
            let i = before[k].0.spec_index() as int;
            assert(rest[i] == slots[i]);
        }
        assert forall|k: int|
            0 <= k < occ.len() implies {
            let i = (#[trigger] occ[k]).0.spec_index() as int;
            &&& 0 <= i < slots.len()
            &&& slots[i] == Some(occ[k].1)
        } by {
            if k < before.len() {
                assert(occ[k] == before[k]);
            }
        }
        assert forall|a: int, b: int| 0 <= a < b < occ.len() implies (#[trigger] occ[a]).0.spec_index()
            < (#[trigger] occ[b]).0.spec_index() by {
            assert(occ[a] == before[a]);
            if b < before.len() {
                assert(occ[b] == before[b]);
            }
        }
    }
}

/// The empty slots of `slots`.
pub open spec fn empty_slots<T>(slots: Seq<Option<T>>) -> vstd::set::Set<int> {
    vstd::set::Set::new(|i: int| 0 <= i < slots.len() && slots[i] is None)
}

/// The slots are the occupied ones and the empty ones.
proof fn lemma_slots_split<T>(slots: Seq<Option<T>>)
    ensures
        empty_slots(slots).finite(),
        empty_slots(slots).len() + occupied_rows(slots).len() == slots.len(),
    decreases slots.len(),
{
    if slots.len() == 0 {
        assert(empty_slots(slots) =~= vstd::set::Set::<int>::empty());
    } else {
        let rest = slots.drop_last();
        lemma_slots_split(rest);
        let last = slots.len() - 1;
        if slots[last] is None {
            assert(empty_slots(slots) =~= empty_slots(rest).insert(last));
        } else {
            assert(empty_slots(slots) =~= empty_slots(rest));
        }
    }
}

/// Slot `i` is the slot of one of `row_ids`.
pub open spec fn is_removed(row_ids: Seq<RowId>, i: int) -> bool {
    exists|k: int| 0 <= k < row_ids.len() && (#[trigger] row_ids[k]).spec_index() == i
}

/// The slots with those of `row_ids` emptied.
pub open spec fn emptied<T>(slots: Seq<Option<T>>, row_ids: Seq<RowId>) -> Seq<Option<T>> {
    Seq::new(slots.len(), |i: int| if is_removed(row_ids, i) { None } else { slots[i] })
}

/// The identifiers among `row_ids` whose slot holds a row, each at its
/// first occurrence, in order: the slots that freeing `row_ids` frees.
pub open spec fn freed<T>(slots: Seq<Option<T>>, row_ids: Seq<RowId>) -> Seq<RowId>
    decreases row_ids.len(),
{
    if row_ids.len() == 0 {
        Seq::empty()
    } else {
        let rest = freed(slots, row_ids.drop_last());
        let i = row_ids.last().spec_index() as int;
        if slots[i] is Some && !is_removed(row_ids.drop_last(), i) {
            rest.push(row_ids.last())
        } else {
            rest
        }
    }
}

/// The slots of `row_ids`, as a hash set of their indices.
pub fn removal_set(row_ids: &[RowId]) -> (removed: FxHashSet<usize>)
    ensures
        forall|i: usize| #[trigger] removed@.contains(i) <==> is_removed(row_ids@, i as int),
{
    let mut removed = empty_index_set();
    let mut j: usize = 0;
    while j < row_ids.len()
        invariant
            j <= row_ids@.len(),
            forall|i: usize| #[trigger] removed@.contains(i) <==> is_removed(row_ids@.take(j as int), i as int),
        decreases row_ids@.len() - j,
    {
        insert_index(&mut removed, row_ids[j].index);
        j = j + 1;
        proof {
            assert forall|i: usize| #[trigger] removed@.contains(i) <==> is_removed(row_ids@.take(j as int), i as int) by {
                if is_removed(row_ids@.take(j as int), i as int) {
                    let k = choose|k: int| 0 <= k < row_ids@.take(j as int).len() && (#[trigger] row_ids@.take(j as int)[k]).spec_index() == i;
                    if k < j - 1 {
                        assert(row_ids@.take(j as int - 1)[k] == row_ids@.take(j as int)[k]);
                    }
                }
                if is_removed(row_ids@.take(j as int - 1), i as int) {
                    let k = choose|k: int| 0 <= k < row_ids@.take(j as int - 1).len() && (#[trigger] row_ids@.take(j as int - 1)[k]).spec_index() == i;
                    assert(row_ids@.take(j as int)[k] == row_ids@.take(j as int - 1)[k]);
                }
                if i == row_ids@[j - 1].spec_index() {
                    assert(row_ids@.take(j as int)[j - 1] == row_ids@[j - 1]);
                }
            }
        }
    }
    proof {
        assert(row_ids@.take(row_ids@.len() as int) =~= row_ids@);
    }
    removed
}

impl<T> RowStorage<T> {
    /// The slots.
    pub closed spec fn slots(self) -> Seq<Option<T>> {
        self.slots@
    }

    /// The free slots, in the order they are reused.
    pub closed spec fn vacant(self) -> Seq<RowId> {
        self.vacant_row_ids@
    }

    /// The free slots are exactly the empty slots, each listed once.
    pub open spec fn wf(self) -> bool {
        &&& self.vacant().no_duplicates()
        &&& forall|k: int|
            0 <= k < self.vacant().len() ==> (#[trigger] self.vacant()[k]).spec_index()
                < self.slots().len() && self.slots()[self.vacant()[k].spec_index() as int] is None
        &&& forall|i: int|
            0 <= i < self.slots().len() && (#[trigger] self.slots()[i]) is None ==> exists|k: int|
                0 <= k < self.vacant().len() && self.vacant()[k].spec_index() == i
    }

    /// There are at most `usize::MAX` slots.
    pub proof fn lemma_slots_len(self)
        ensures
            self.slots().len() <= usize::MAX,
    {
        assert(self.slots@.len() == self.slots.len());
    }

    /// An empty storage.
    pub fn new() -> (storage: Self)
        ensures
            storage.wf(),
            storage.slots() == Seq::<Option<T>>::empty(),
            storage.vacant() == Seq::<RowId>::empty(),
    {
        Self { slots: Vec::new(), vacant_row_ids: VecDeque::new() }
    }

    /// The number of rows.
    pub fn len(&self) -> (length: usize)
        requires
            self.wf(),
        ensures
            length == self.slots().len() - self.vacant().len(),
            length == occupied_rows(self.slots()).len(),
    {
        proof {
            self.lemma_len_counts_rows();
        }
        self.slots.len() - self.vacant_row_ids.len()
    }

    /// The number of rows (see `len`) is the number of occupied slots: the
    /// rows that were allocated and not freed since.
    pub proof fn lemma_len_counts_rows(self)
        requires
            self.wf(),
        ensures
            self.vacant().len() <= self.slots().len(),
            self.slots().len() - self.vacant().len() == occupied_rows(self.slots()).len(),
    {
        broadcast use {RowId::lemma_of, RowId::lemma_index};

        self.lemma_vacant_fits();
        let indices = self.vacant().map_values(|id: RowId| id.spec_index() as int);
        assert(indices.no_duplicates()) by {
            assert forall|p: int, q: int|
                0 <= p < indices.len() && 0 <= q < indices.len() && p != q implies indices[p]
                != indices[q] by {
                assert(self.vacant()[p] != self.vacant()[q]);
                assert(RowId::of(self.vacant()[p].spec_index()) == self.vacant()[p]);
                assert(RowId::of(self.vacant()[q].spec_index()) == self.vacant()[q]);
            }
        }
        indices.unique_seq_to_set();
        assert(indices.to_set() =~= empty_slots(self.slots())) by {
            assert forall|i: int| #[trigger] indices.to_set().contains(i) <==> empty_slots(self.slots()).contains(i) by {
                if indices.to_set().contains(i) {
                    let k = choose|k: int| 0 <= k < indices.len() && indices[k] == i;
                    assert(self.vacant()[k].spec_index() == i);
                }
                if empty_slots(self.slots()).contains(i) {
                    let k = choose|k: int| 0 <= k < self.vacant().len() && self.vacant()[k].spec_index() == i;
                    assert(indices[k] == i);
                }
            }
        }
        lemma_slots_split(self.slots());
    }

    /// There are no more free slots than slots.
    proof fn lemma_vacant_fits(self)
        requires
            self.wf(),
        ensures
            self.vacant().len() <= self.slots().len(),
    {
        broadcast use {RowId::lemma_of, RowId::lemma_index};

        let indices = self.vacant().map_values(|id: RowId| id.spec_index() as int);
        let all = vstd::set_lib::set_int_range(0, self.slots().len() as int);
        assert(indices.no_duplicates()) by {
            assert forall|p: int, q: int|
                0 <= p < indices.len() && 0 <= q < indices.len() && p != q implies indices[p]
                != indices[q] by {
                assert(self.vacant()[p] != self.vacant()[q]);
                assert(RowId::of(self.vacant()[p].spec_index()) == self.vacant()[p]);
                assert(RowId::of(self.vacant()[q].spec_index()) == self.vacant()[q]);
            }
        }
        indices.unique_seq_to_set();
        assert(indices.to_set().subset_of(all));
        vstd::set_lib::lemma_int_range(0, self.slots().len() as int);
        vstd::set_lib::lemma_len_subset(indices.to_set(), all);
    }

    /// Stores `value` in the first free slot, or in a new slot when none is
    /// free, and returns its identifier.
    pub fn allocate(&mut self, value: T) -> (row_id: RowId)
        requires
            old(self).wf(),
        ensures
            final(self).wf(),
            old(self).vacant().len() > 0 ==> row_id == old(self).vacant()[0] && final(self).vacant()
                == old(self).vacant().drop_first() && final(self).slots() == old(self).slots().update(
                row_id.spec_index() as int,
                Some(value),
            ),
            old(self).vacant().len() == 0 ==> row_id.spec_index() == old(self).slots().len()
                && final(self).vacant() == old(self).vacant() && final(self).slots() == old(
                self,
            ).slots().push(Some(value)),
    {
        broadcast use {RowId::lemma_of, RowId::lemma_index};

        match self.vacant_row_ids.pop_front() {
            Some(row_id) => {
                proof {
                    assert(old(self).vacant()[0] == row_id);
                    assert(self.vacant() =~= old(self).vacant().drop_first());
                }
                self.slots.set(row_id.index, Some(value));
                proof {
                    assert forall|i: int|
                        0 <= i < self.slots().len() && (#[trigger] self.slots()[i]) is None implies exists|k: int|
                        0 <= k < self.vacant().len() && self.vacant()[k].spec_index() == i by {
                        let k = choose|k: int|
                            0 <= k < old(self).vacant().len() && old(self).vacant()[k].spec_index() == i;
                        assert(k != 0);
                        assert(self.vacant()[k - 1] == old(self).vacant()[k]);
                    }
                    assert forall|k: int| 0 <= k < self.vacant().len() implies (
                    #[trigger] self.vacant()[k]).spec_index() < self.slots().len()
                        && self.slots()[self.vacant()[k].spec_index() as int] is None by {
                        assert(self.vacant()[k] == old(self).vacant()[k + 1]);
                        assert(old(self).vacant()[k + 1] != old(self).vacant()[0]);
                    }
                }
                row_id
            },
            None => {
                let row_id = RowId { index: self.slots.len() };
                self.slots.push(Some(value));
                proof {
                    assert forall|i: int|
                        0 <= i < self.slots().len() && (#[trigger] self.slots()[i]) is None implies exists|k: int|
                        0 <= k < self.vacant().len() && self.vacant()[k].spec_index() == i by {
                        assert(old(self).slots()[i] is None);
                    }
                }
                row_id
            },
        }
    }

    /// Frees the slots of `row_ids` that hold a row, in order.
    pub fn deallocate_all(&mut self, row_ids: &[RowId])
        requires
            old(self).wf(),
            forall|k: int| 0 <= k < row_ids@.len() ==> (#[trigger] row_ids@[k]).spec_index() < old(self).slots().len(),
        ensures
            final(self).wf(),
            final(self).slots() == emptied(old(self).slots(), row_ids@),
            final(self).vacant() == old(self).vacant() + freed(old(self).slots(), row_ids@),
    {
        let mut j: usize = 0;
        while j < row_ids.len()
            invariant
                self.wf(),
                j <= row_ids@.len(),
                forall|k: int| 0 <= k < row_ids@.len() ==> (#[trigger] row_ids@[k]).spec_index() < old(self).slots().len(),
                self.slots() == emptied(old(self).slots(), row_ids@.take(j as int)),
                self.vacant() == old(self).vacant() + freed(old(self).slots(), row_ids@.take(j as int)),
            decreases row_ids@.len() - j,
        {
            let ghost before = self.slots();
            let ghost ids = row_ids@.take(j as int + 1);
            let ghost i = row_ids@[j as int].spec_index() as int;
            proof {
                assert(ids.drop_last() =~= row_ids@.take(j as int));
                assert(ids.last() == row_ids@[j as int]);
                assert(is_removed(row_ids@.take(j as int), i) ==> before[i] is None);
                assert(!is_removed(row_ids@.take(j as int), i) ==> before[i] == old(self).slots()[i]);
            }
            self.deallocate(row_ids[j]);
            proof {
                assert(is_removed(ids, i)) by {
                    assert(ids[j as int].spec_index() == i);
                }
                assert forall|m: int| 0 <= m < old(self).slots().len() implies is_removed(ids, m) == (is_removed(
                    row_ids@.take(j as int),
                    m,
                ) || m == i) by {
                    if is_removed(ids, m) {
                        let k = choose|k: int| 0 <= k < ids.len() && (#[trigger] ids[k]).spec_index() == m;
                        if k < j {
                            assert(row_ids@.take(j as int)[k] == ids[k]);
                        }
                    }
                    if is_removed(row_ids@.take(j as int), m) {
                        let k = choose|k: int|
                            0 <= k < row_ids@.take(j as int).len() && (#[trigger] row_ids@.take(j as int)[k]).spec_index() == m;
                        assert(ids[k] == row_ids@.take(j as int)[k]);
                    }
                }
                assert(self.slots() =~= emptied(old(self).slots(), ids));
                assert(self.vacant() =~= old(self).vacant() + freed(old(self).slots(), ids));
            }
            j = j + 1;
        }
        proof {
            assert(row_ids@.take(row_ids@.len() as int) =~= row_ids@);
        }
    }

    /// Frees the slot of `row_id`, if it holds a row.
    pub fn deallocate(&mut self, row_id: RowId)
        requires
            old(self).wf(),
            row_id.spec_index() < old(self).slots().len(),
        ensures
            final(self).wf(),
            old(self).slots()[row_id.spec_index() as int] is Some ==> final(self).slots() == old(
                self,
            ).slots().update(row_id.spec_index() as int, None) && final(self).vacant() == old(
                self,
            ).vacant().push(row_id),
            old(self).slots()[row_id.spec_index() as int] is None ==> final(self).slots() == old(
                self,
            ).slots() && final(self).vacant() == old(self).vacant(),
    {
        broadcast use {RowId::lemma_of, RowId::lemma_index};

        if self.slots[row_id.index].is_some() {
            self.slots.set(row_id.index, None);
            self.vacant_row_ids.push_back(row_id);
            proof {
                assert forall|p: int, q: int|
                    0 <= p < self.vacant().len() && 0 <= q < self.vacant().len() && p != q implies self.vacant()[p]
                    != self.vacant()[q] by {
                    if p < old(self).vacant().len() && q == old(self).vacant().len() {
                        assert(old(self).slots()[old(self).vacant()[p].spec_index() as int] is None);
                    }
                    if q < old(self).vacant().len() && p == old(self).vacant().len() {
                        assert(old(self).slots()[old(self).vacant()[q].spec_index() as int] is None);
                    }
                }
                assert forall|i: int|
                    0 <= i < self.slots().len() && (#[trigger] self.slots()[i]) is None implies exists|k: int|
                    0 <= k < self.vacant().len() && self.vacant()[k].spec_index() == i by {
                    if i == row_id.spec_index() {
                        assert(self.vacant()[old(self).vacant().len() as int] == row_id);
                    } else {
                        let k = choose|k: int|
                            0 <= k < old(self).vacant().len() && old(self).vacant()[k].spec_index() == i;
                        assert(self.vacant()[k] == old(self).vacant()[k]);
                    }
                }
                assert forall|k: int| 0 <= k < self.vacant().len() implies (
                #[trigger] self.vacant()[k]).spec_index() < self.slots().len()
                    && self.slots()[self.vacant()[k].spec_index() as int] is None by {
                    if k < old(self).vacant().len() {
                        assert(self.vacant()[k] == old(self).vacant()[k]);
                    }
                }
            }
        }
    }

    /// Whether the slot of `row_id` exists and holds a row.
    pub fn holds(&self, row_id: RowId) -> (holds: bool)
        ensures
            holds == (row_id.spec_index() < self.slots().len() && self.slots()[row_id.spec_index() as int] is Some),
    {
        row_id.index < self.slots.len() && self.slots[row_id.index].is_some()
    }

    /// The row of `row_id`, if its slot holds one.
    pub fn get(&self, row_id: RowId) -> (row: Option<&T>)
        requires
            row_id.spec_index() < self.slots().len(),
        ensures
            match row {
                Some(r) => self.slots()[row_id.spec_index() as int] == Some(*r),
                None => self.slots()[row_id.spec_index() as int] is None,
            },
    {
        match &self.slots[row_id.index] {
            Some(value) => Some(value),
            None => None,
        }
    }

    /// Replaces the row of `row_id`, if its slot holds one, returning whether
    /// it did.
    pub fn set(&mut self, row_id: RowId, value: T) -> (replaced: bool)
        requires
            old(self).wf(),
            row_id.spec_index() < old(self).slots().len(),
        ensures
            final(self).wf(),
            final(self).vacant() == old(self).vacant(),
            replaced == old(self).slots()[row_id.spec_index() as int] is Some,
            replaced ==> final(self).slots() == old(self).slots().update(
                row_id.spec_index() as int,
                Some(value),
            ),
            !replaced ==> final(self).slots() == old(self).slots(),
    {
        if self.slots[row_id.index].is_some() {
            self.slots.set(row_id.index, Some(value));
            proof {
                assert forall|i: int|
                    0 <= i < self.slots().len() && (#[trigger] self.slots()[i]) is None implies exists|k: int|
                    0 <= k < self.vacant().len() && self.vacant()[k].spec_index() == i by {
                    assert(old(self).slots()[i] is None);
                    let k = choose|k: int|
                        0 <= k < old(self).vacant().len() && old(self).vacant()[k].spec_index() == i;
                    assert(self.vacant()[k].spec_index() == i);
                }
            }
            true
        } else {
            false
        }
    }

    /// A mutable reference to the row of `row_id`, if its slot holds one.
    pub fn get_mut(&mut self, row_id: RowId) -> (row: Option<&mut T>)
        requires
            old(self).wf(),
            row_id.spec_index() < old(self).slots().len(),
        ensures
            final(self).wf(),
            final(self).vacant() == old(self).vacant(),
            match row {
                Some(r) => old(self).slots()[row_id.spec_index() as int] == Some(*r) && final(self).slots()
                    == old(self).slots().update(row_id.spec_index() as int, Some(*final(r))),
                None => old(self).slots()[row_id.spec_index() as int] is None && final(self).slots()
                    == old(self).slots(),
            },
    {
        match &mut self.slots[row_id.index] {
            Some(value) => Some(value),
            None => None,
        }
    }

    /// The rows, with their identifiers, in slot order.
    pub fn iter(&self) -> (rows: Vec<(RowId, &T)>)
        ensures
            rows@.len() == occupied_rows(self.slots()).len(),
            forall|k: int|
                0 <= k < rows@.len() ==> (#[trigger] rows@[k]).0 == occupied_rows(self.slots())[k].0
                    && *rows@[k].1 == occupied_rows(self.slots())[k].1,
    {
        broadcast use {RowId::lemma_of, RowId::lemma_index};

        let mut rows: Vec<(RowId, &T)> = Vec::new();
        let mut k: usize = 0;
        while k < self.slots.len()
            invariant
                k <= self.slots@.len(),
                rows@.len() == occupied_rows(self.slots@.subrange(0, k as int)).len(),
                forall|j: int|
                    0 <= j < rows@.len() ==> (#[trigger] rows@[j]).0 == occupied_rows(
                        self.slots@.subrange(0, k as int),
                    )[j].0 && *rows@[j].1 == occupied_rows(self.slots@.subrange(0, k as int))[j].1,
            decreases self.slots@.len() - k,
        {
            proof {
                assert(self.slots@.subrange(0, k as int + 1).drop_last() =~= self.slots@.subrange(
                    0,
                    k as int,
                ));
            }
            match &self.slots[k] {
                Some(value) => {
                    rows.push((RowId { index: k }, value));
                },
                None => {},
            }
            k = k + 1;
        }
        proof {
            assert(self.slots@.subrange(0, self.slots@.len() as int) =~= self.slots@);
        }
        rows
    }
}

impl<T> Default for RowStorage<T> {
    fn default() -> (storage: Self)
        ensures
            storage.wf(),
            storage.slots() == Seq::<Option<T>>::empty(),
            storage.vacant() == Seq::<RowId>::empty(),
    {
        Self::new()
    }
}

/// Freed rows are reused in the order they were freed: after freeing `first`
/// and then `second` when no row was free, the next two allocations return
/// `first` and then `second` (see `deallocate` and `allocate`).
pub proof fn lemma_rows_reused_in_order(vacant: Seq<RowId>, first: RowId, second: RowId)
    requires
        vacant.len() == 0,
    ensures
        ({
            let after_frees = vacant.push(first).push(second);
            &&& after_frees.len() > 0
            &&& after_frees[0] == first
            &&& after_frees.drop_first().len() > 0
            &&& after_frees.drop_first()[0] == second
            &&& after_frees.drop_first().drop_first().len() == 0
        }),
{
}

} // verus!
