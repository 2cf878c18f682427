//! A sparse matrix: a map from `[row, column]` to values that lists the
//! entries of each row and of each column in the order they were inserted.
use vstd::prelude::*;

use crate::map::{capacity_after, index_fits};
use crate::slots::{grown_capacity_of, lemma_grown_capacity, reversed};

verus! {

/// The row has an entry in column `j`.
pub open spec fn row_has<V>(row: Seq<(usize, V)>, j: usize) -> bool {
    exists|k: int| 0 <= k < row.len() && (#[trigger] row[k]).0 == j
}

/// The position of the entry in column `j` of the row.
pub open spec fn row_position<V>(row: Seq<(usize, V)>, j: usize) -> int {
    choose|k: int| 0 <= k < row.len() && (#[trigger] row[k]).0 == j
}

/// The columns of the entries of a row are distinct.
pub open spec fn distinct_columns<V>(row: Seq<(usize, V)>) -> bool {
    forall|a: int, b: int| 0 <= a < b < row.len() ==> (#[trigger] row[a]).0 != (#[trigger] row[b]).0
}

/// The row without its entry in column `j`, if it has one.
pub open spec fn row_without<V>(row: Seq<(usize, V)>, j: usize) -> Seq<(usize, V)> {
    if row_has(row, j) {
        row.remove(row_position(row, j))
    } else {
        row
    }
}

/// The position of row `i` in the column.
pub open spec fn column_position(column: Seq<usize>, i: usize) -> int {
    choose|k: int| 0 <= k < column.len() && column[k] == i
}

/// The column without row `i`, if it lists it.
pub open spec fn column_without(column: Seq<usize>, i: usize) -> Seq<usize> {
    if column.contains(i) {
        column.remove(column_position(column, i))
    } else {
        column
    }
}

/// In a row with distinct columns, the entry at `k` is the one found for its
/// column.
proof fn lemma_row_position<V>(row: Seq<(usize, V)>, k: int)
    requires
        distinct_columns(row),
        0 <= k < row.len(),
    ensures
        row_has(row, row[k].0),
        row_position(row, row[k].0) == k,
{
    assert(row_has(row, row[k].0));
    let p = row_position(row, row[k].0);
    if p < k {
        assert(row[p].0 != row[k].0);
    } else if p > k {
        assert(row[k].0 != row[p].0);
    }
}

/// Removing the entry at `k` from a row with distinct columns removes exactly
/// its column and keeps the other entries.
proof fn lemma_row_remove<V>(row: Seq<(usize, V)>, k: int)
    requires
        distinct_columns(row),
        0 <= k < row.len(),
    ensures
        row_without(row, row[k].0) == row.remove(k),
        distinct_columns(row.remove(k)),
        forall|j: usize| #[trigger] row_has(row.remove(k), j) <==> row_has(row, j) && j != row[k].0,
        forall|j: usize|
            #[trigger] row_has(row.remove(k), j) ==> row.remove(k)[row_position(row.remove(k), j)] == row[row_position(
                row,
                j,
            )],
{
    lemma_row_position(row, k);
    let r = row.remove(k);
    assert forall|a: int, b: int| 0 <= a < b < r.len() implies (#[trigger] r[a]).0 != (#[trigger] r[b]).0 by {
        let a0 = if a < k { a } else { a + 1 };
        let b0 = if b < k { b } else { b + 1 };
        assert(row[a0].0 != row[b0].0);
    }
    assert forall|j: usize| #[trigger] row_has(r, j) <==> row_has(row, j) && j != row[k].0 by {
        if row_has(r, j) {
            let m = choose|m: int| 0 <= m < r.len() && (#[trigger] r[m]).0 == j;
            let m0 = if m < k { m } else { m + 1 };
            assert(row[m0].0 == j);
            assert(m0 != k);
        }
        if row_has(row, j) && j != row[k].0 {
            let m0 = choose|m: int| 0 <= m < row.len() && (#[trigger] row[m]).0 == j;
            let m = if m0 < k { m0 } else { m0 - 1 };
            assert(r[m].0 == j);
        }
    }
    assert forall|j: usize| #[trigger] row_has(r, j) implies r[row_position(r, j)] == row[row_position(row, j)] by {
        let m = row_position(r, j);
        let m0 = if m < k { m } else { m + 1 };
        assert(r[m] == row[m0]);
        lemma_row_position(row, m0);
    }
}

/// Removing the row at `k` from a column without duplicates removes exactly
/// that row.
proof fn lemma_column_remove(column: Seq<usize>, k: int)
    requires
        column.no_duplicates(),
        0 <= k < column.len(),
    ensures
        column_without(column, column[k]) == column.remove(k),
        column.remove(k).no_duplicates(),
        forall|i: usize| #[trigger] column.remove(k).contains(i) <==> column.contains(i) && i != column[k],
{
    let c = column.remove(k);
    assert(column.contains(column[k]));
    let p = column_position(column, column[k]);
    assert(p == k);
    assert forall|a: int, b: int| 0 <= a < c.len() && 0 <= b < c.len() && a != b implies c[a] != c[b] by {
        let a0 = if a < k { a } else { a + 1 };
        let b0 = if b < k { b } else { b + 1 };
        assert(column[a0] != column[b0]);
    }
    assert forall|i: usize| #[trigger] c.contains(i) <==> column.contains(i) && i != column[k] by {
        if c.contains(i) {
            let m = choose|m: int| 0 <= m < c.len() && c[m] == i;
            let m0 = if m < k { m } else { m + 1 };
            assert(column[m0] == i);
        }
        if column.contains(i) && i != column[k] {
            let m0 = choose|m: int| 0 <= m < column.len() && column[m] == i;
            let m = if m0 < k { m0 } else { m0 - 1 };
            assert(c[m] == i);
        }
    }
}

/// The row with the value in column `j` replaced.
pub open spec fn row_with_value<V>(row: Seq<(usize, V)>, j: usize, value: V) -> Seq<(usize, V)> {
    row.map_values(|e: (usize, V)| if e.0 == j { (j, value) } else { e })
}

/// The map without the entries of row `i`.
pub open spec fn without_row<V>(m: Map<(usize, usize), V>, i: usize) -> Map<(usize, usize), V> {
    Map::new(|p: (usize, usize)| m.contains_key(p) && p.0 != i, |p: (usize, usize)| m[p])
}

/// The map without the entries of column `j`.
pub open spec fn without_column<V>(m: Map<(usize, usize), V>, j: usize) -> Map<(usize, usize), V> {
    Map::new(|p: (usize, usize)| m.contains_key(p) && p.1 != j, |p: (usize, usize)| m[p])
}

/// The map after inserting the entries in order.
pub open spec fn inserted_all<V>(m: Map<(usize, usize), V>, entries: Seq<([usize; 2], V)>) -> Map<(usize, usize), V>
    decreases entries.len(),
{
    if entries.len() == 0 {
        m
    } else {
        inserted_all(m, entries.drop_last()).insert(
            (entries.last().0[0], entries.last().0[1]),
            entries.last().1,
        )
    }
}

/// The entries of row `i`, each with its full index.
pub open spec fn labelled<V>(i: usize, row: Seq<(usize, V)>) -> Seq<((usize, usize), V)> {
    row.map_values(|e: (usize, V)| ((i, e.0), e.1))
}

/// A sparse matrix whose rows and columns list their entries in insertion
/// order.
#[derive(Clone)]
pub struct TwoDimensionalMap<ValueT> {
    rows: Vec<Vec<(usize, ValueT)>>,
    columns: Vec<Vec<usize>>,
}

impl<ValueT> View for TwoDimensionalMap<ValueT> {
    type V = Map<(usize, usize), ValueT>;

    closed spec fn view(&self) -> Map<(usize, usize), ValueT> {
        Map::new(
            |p: (usize, usize)| p.0 < self.rows@.len() && row_has(self.rows@[p.0 as int]@, p.1),
            |p: (usize, usize)| self.rows@[p.0 as int]@[row_position(self.rows@[p.0 as int]@, p.1)].1,
        )
    }
}

impl<ValueT> TwoDimensionalMap<ValueT> {
    /// Rows and columns list each entry once, and a row lists an entry in a
    /// column exactly when the column lists the row.
    pub closed spec fn wf(&self) -> bool {
        &&& forall|i: int| 0 <= i < self.rows@.len() ==> distinct_columns(#[trigger] self.rows@[i]@)
        &&& forall|i: int, k: int|
            0 <= i < self.rows@.len() && 0 <= k < self.rows@[i]@.len() ==> (#[trigger] self.rows@[i]@[k]).0
                < self.columns@.len()
        &&& forall|j: int| 0 <= j < self.columns@.len() ==> (#[trigger] self.columns@[j]@).no_duplicates()
        &&& forall|j: int, k: int|
            0 <= j < self.columns@.len() && 0 <= k < self.columns@[j]@.len() ==> (#[trigger] self.columns@[j]@[k])
                < self.rows@.len()
        &&& forall|i: usize, j: usize|
            i < self.rows@.len() && j < self.columns@.len() ==> (row_has(self.rows@[i as int]@, j) <==> (
            #[trigger] self.columns@[j as int]@).contains(i) && #[trigger] self.rows@[i as int]@.len() >= 0)
    }

    /// The entries of row `i`: columns and values, in insertion order.
    pub closed spec fn row(&self, i: usize) -> Seq<(usize, ValueT)> {
        if i < self.rows@.len() {
            self.rows@[i as int]@
        } else {
            Seq::empty()
        }
    }

    /// The rows of the entries of column `j`, in insertion order.
    pub closed spec fn column(&self, j: usize) -> Seq<usize> {
        if j < self.columns@.len() {
            self.columns@[j as int]@
        } else {
            Seq::empty()
        }
    }

    /// The entries of the rows below `n`, row by row, each row in insertion
    /// order.
    pub closed spec fn listing_upto(&self, n: nat) -> Seq<((usize, usize), ValueT)>
        decreases n,
    {
        if n == 0 {
            Seq::empty()
        } else {
            self.listing_upto((n - 1) as nat) + labelled((n - 1) as usize, self.row((n - 1) as usize))
        }
    }

    /// Every entry, row by row, each row in insertion order.
    pub closed spec fn listing(&self) -> Seq<((usize, usize), ValueT)> {
        self.listing_upto(self.rows@.len())
    }

    /// The numbers of rows and of columns held without growing.
    pub closed spec fn spec_capacity(&self) -> (nat, nat) {
        (self.rows@.len(), self.columns@.len())
    }

    /// The entries of row `i` are those of the map in row `i`.
    pub proof fn lemma_row(&self, i: usize)
        requires
            self.wf(),
        ensures
            distinct_columns(self.row(i)),
            forall|k: int|
                0 <= k < self.row(i).len() ==> #[trigger] self@.contains_key((i, self.row(i)[k].0)) && self@[(
                    i,
                    self.row(i)[k].0,
                )] == self.row(i)[k].1,
            forall|j: usize| #[trigger] self@.contains_key((i, j)) ==> row_has(self.row(i), j),
    {
        if i < self.rows@.len() {
            let r = self.rows@[i as int]@;
            assert(distinct_columns(r));
            assert forall|k: int| 0 <= k < r.len() implies #[trigger] self@.contains_key((i, r[k].0)) && self@[(
                i,
                r[k].0,
            )] == r[k].1 by {
                let p = row_position(r, r[k].0);
                assert(row_has(r, r[k].0));
                assert(p == k);
            }
        }
    }

    /// The entries of the rows below `n` are listed once each, with their
    /// values.
    proof fn lemma_listing_upto(&self, n: nat)
        requires
            self.wf(),
            n <= self.rows@.len(),
        ensures
            forall|k: int|
                0 <= k < self.listing_upto(n).len() ==> (#[trigger] self.listing_upto(n)[k]).0.0 < n
                    && self@.contains_key(self.listing_upto(n)[k].0) && self@[self.listing_upto(n)[k].0]
                    == self.listing_upto(n)[k].1,
            forall|p: (usize, usize)|
                #[trigger] self@.contains_key(p) && p.0 < n ==> exists|k: int|
                    0 <= k < self.listing_upto(n).len() && #[trigger] self.listing_upto(n)[k].0 == p,
            forall|a: int, b: int|
                0 <= a < b < self.listing_upto(n).len() ==> (#[trigger] self.listing_upto(n)[a]).0
                    != (#[trigger] self.listing_upto(n)[b]).0,
        decreases n,
    {
        if n > 0 {
            let m = (n - 1) as nat;
            self.lemma_listing_upto(m);
            let previous = self.listing_upto(m);
            assert(m < self.rows.len());
            let i = m as usize;
            assert(i == m);
            let row = self.row(i);
            let added = labelled(i, row);
            let listed = self.listing_upto(n);
            assert(listed == previous + added);
            assert(row == self.rows@[i as int]@);
            assert(distinct_columns(row));
            assert forall|k: int| 0 <= k < listed.len() implies (#[trigger] listed[k]).0.0 < n && self@.contains_key(
                listed[k].0,
            ) && self@[listed[k].0] == listed[k].1 by {
                if k < previous.len() {
                    assert(listed[k] == previous[k]);
                } else {
                    let q = k - previous.len();
                    assert(listed[k] == added[q]);
                    lemma_row_position(row, q);
                }
            }
            assert forall|p: (usize, usize)| #[trigger] self@.contains_key(p) && p.0 < n implies exists|k: int|
                0 <= k < listed.len() && #[trigger] listed[k].0 == p by {
                if p.0 < m {
                    let k = choose|k: int| 0 <= k < previous.len() && #[trigger] previous[k].0 == p;
                    assert(listed[k] == previous[k]);
                } else {
                    let q = row_position(row, p.1);
                    assert(listed[previous.len() + q] == added[q]);
                    assert(listed[previous.len() + q].0 == p);
                }
            }
            assert forall|a: int, b: int| 0 <= a < b < listed.len() implies (#[trigger] listed[a]).0
                != (#[trigger] listed[b]).0 by {
                if b < previous.len() {
                    assert(listed[a] == previous[a]);
                    assert(listed[b] == previous[b]);
                } else if a < previous.len() {
                    assert(listed[a] == previous[a]);
                    assert(previous[a].0.0 < m);
                    assert(listed[b] == added[b - previous.len()]);
                    assert(added[b - previous.len()].0.0 == m);
                } else {
                    assert(listed[a] == added[a - previous.len()]);
                    assert(listed[b] == added[b - previous.len()]);
                    assert(row[a - previous.len()].0 != row[b - previous.len()].0);
                    assert(added[a - previous.len()].0.1 == row[a - previous.len()].0);
                    assert(added[b - previous.len()].0.1 == row[b - previous.len()].0);
                }
            }
        }
    }

    /// Every entry of the map is listed exactly once, with its value.
    pub proof fn lemma_listing(&self)
        requires
            self.wf(),
        ensures
            forall|k: int|
                0 <= k < self.listing().len() ==> self@.contains_key((#[trigger] self.listing()[k]).0)
                    && self@[self.listing()[k].0] == self.listing()[k].1,
            forall|p: (usize, usize)|
                #[trigger] self@.contains_key(p) ==> exists|k: int|
                    0 <= k < self.listing().len() && #[trigger] self.listing()[k].0 == p,
            forall|a: int, b: int|
                0 <= a < b < self.listing().len() ==> (#[trigger] self.listing()[a]).0
                    != (#[trigger] self.listing()[b]).0,
    {
        self.lemma_listing_upto(self.rows@.len());
        let listed = self.listing();
        assert(listed == self.listing_upto(self.rows@.len()));
        assert forall|p: (usize, usize)| #[trigger] self@.contains_key(p) implies exists|k: int|
            0 <= k < listed.len() && #[trigger] listed[k].0 == p by {
            assert(p.0 < self.rows@.len());
            let k = choose|k: int| 0 <= k < listed.len() && #[trigger] self.listing_upto(self.rows@.len())[k].0 == p;
            assert(listed[k].0 == p);
        }
    }

    /// An empty map.
    pub fn new() -> (map: Self)
        ensures
            map.wf(),
            map@ == Map::<(usize, usize), ValueT>::empty(),
            map.spec_capacity() == (0nat, 0nat),
    {
        let map = Self { rows: Vec::new(), columns: Vec::new() };
        proof {
            assert(map@ =~= Map::<(usize, usize), ValueT>::empty());
        }
        map
    }

    /// The numbers of rows and of columns held without growing.
    pub fn capacity(&self) -> (capacity: [usize; 2])
        ensures
            capacity[0] == self.spec_capacity().0,
            capacity[1] == self.spec_capacity().1,
    {
        [self.rows.len(), self.columns.len()]
    }

    /// The position of the entry in column `j` of row `i`, if any.
    fn find_in_row(&self, i: usize, j: usize) -> (position: Option<usize>)
        requires
            self.wf(),
            i < self.rows@.len(),
        ensures
            match position {
                Some(k) => k < self.rows@[i as int]@.len() && self.rows@[i as int]@[k as int].0 == j,
                None => !row_has(self.rows@[i as int]@, j),
            },
    {
        let row = &self.rows[i];
        let mut k: usize = 0;
        while k < row.len()
            invariant
                row@ == self.rows@[i as int]@,
                k <= row@.len(),
                forall|m: int| 0 <= m < k ==> (#[trigger] row@[m]).0 != j,
            decreases row@.len() - k,
        {
            if row[k].0 == j {
                return Some(k);
            }
            k = k + 1;
        }
        None
    }

    /// The value of the entry at `index`, if any.
    pub fn get(&self, index: [usize; 2]) -> (value: Option<&ValueT>)
        requires
            self.wf(),
        ensures
            match value {
                Some(v) => self@.contains_key((index[0], index[1])) && *v == self@[(index[0], index[1])],
                None => !self@.contains_key((index[0], index[1])),
            },
    {
        let i = index[0];
        let j = index[1];
        if i >= self.rows.len() {
            return None;
        }
        match self.find_in_row(i, j) {
            Some(k) => {
                proof {
                    self.lemma_row(i);
                    assert(self.row(i)[k as int].0 == j);
                }
                Some(&self.rows[i][k].1)
            },
            None => None,
        }
    }

    /// The value of the entry at `index`, if any, to change in place.
    pub fn get_mut(&mut self, index: [usize; 2]) -> (value: Option<&mut ValueT>)
        requires
            old(self).wf(),
        ensures
            value is None <==> !old(self)@.contains_key((index[0], index[1])),
            value is None ==> *final(self) == *old(self),
            value matches Some(v) ==> *v == old(self)@[(index[0], index[1])] && final(self).wf() && final(self)@
                == old(self)@.insert((index[0], index[1]), *final(v)),
    {
        let i = index[0];
        let j = index[1];
        if i >= self.rows.len() {
            return None;
        }
        match self.find_in_row(i, j) {
            Some(k) => {
                proof {
                    self.lemma_row(i);
                    assert(self.row(i)[k as int].0 == j);
                }
                proof {
                    Self::lemma_values_replaced(*self, i, k as int);
                }
                let row = &mut self.rows[i];
                Some(&mut row[k].1)
            },
            None => None,
        }
    }

    /// Whatever value replaces that of the entry at position `k` of row `i`,
    /// the map stays well formed and that entry is set in its view.
    proof fn lemma_values_replaced(before: Self, i: usize, k: int)
        requires
            before.wf(),
            i < before.rows@.len(),
            0 <= k < before.rows@[i as int]@.len(),
        ensures
            forall|after: Self|
                #![trigger after.wf()]
                #![trigger after.view()]
                after.columns == before.columns && after.rows@.len() == before.rows@.len() && (forall|r: int|
                    0 <= r < before.rows@.len() && r != i ==> #[trigger] after.rows@[r] == before.rows@[r])
                    && after.rows@[i as int]@ == before.rows@[i as int]@.update(
                    k,
                    (before.rows@[i as int]@[k].0, after.rows@[i as int]@[k].1),
                ) ==> after.wf() && after@ == before@.insert(
                    (i, before.rows@[i as int]@[k].0),
                    after.rows@[i as int]@[k].1,
                ),
    {
        assert forall|after: Self|
            #![trigger after.wf()]
            #![trigger after.view()]
            after.columns == before.columns && after.rows@.len() == before.rows@.len() && (forall|r: int|
                0 <= r < before.rows@.len() && r != i ==> #[trigger] after.rows@[r] == before.rows@[r])
                && after.rows@[i as int]@ == before.rows@[i as int]@.update(
                k,
                (before.rows@[i as int]@[k].0, after.rows@[i as int]@[k].1),
            ) implies after.wf() && after@ == before@.insert(
                (i, before.rows@[i as int]@[k].0),
                after.rows@[i as int]@[k].1,
            ) by {
            Self::lemma_value_replaced(before, after, i, k, after.rows@[i as int]@[k].1);
        }
    }

    /// Replacing the value of the entry at position `k` of row `i` keeps the
    /// map well formed and sets that entry in its view.
    proof fn lemma_value_replaced(before: Self, after: Self, i: usize, k: int, x: ValueT)
        requires
            before.wf(),
            i < before.rows@.len(),
            0 <= k < before.rows@[i as int]@.len(),
            after.columns == before.columns,
            after.rows@.len() == before.rows@.len(),
            forall|r: int| 0 <= r < before.rows@.len() && r != i ==> #[trigger] after.rows@[r] == before.rows@[r],
            after.rows@[i as int]@ == before.rows@[i as int]@.update(k, (before.rows@[i as int]@[k].0, x)),
        ensures
            after.wf(),
            after@ == before@.insert((i, before.rows@[i as int]@[k].0), x),
    {
        let j = before.rows@[i as int]@[k].0;
        let r0 = before.rows@[i as int]@;
        let r1 = after.rows@[i as int]@;
        assert forall|r: int| 0 <= r < after.rows@.len() implies distinct_columns(#[trigger] after.rows@[r]@) by {
            if r == i as int {
                assert(distinct_columns(r0));
                assert forall|a: int, b: int| 0 <= a < b < r1.len() implies r1[a].0 != r1[b].0 by {
                    assert(r1[a].0 == r0[a].0 && r1[b].0 == r0[b].0);
                }
            }
        }
        assert forall|r: usize, c: usize| r < after.rows@.len() implies (row_has(after.rows@[r as int]@, c) <==> row_has(
            before.rows@[r as int]@,
            c,
        )) by {
            if r == i {
                if row_has(r1, c) {
                    let q = choose|q: int| 0 <= q < r1.len() && (#[trigger] r1[q]).0 == c;
                    assert(r0[q].0 == c);
                }
                if row_has(r0, c) {
                    let q = choose|q: int| 0 <= q < r0.len() && (#[trigger] r0[q]).0 == c;
                    assert(r1[q].0 == c);
                }
            }
        }
        assert(after@ =~= before@.insert((i, j), x)) by {
            assert forall|p: (usize, usize)| #[trigger] after@.contains_key(p) implies after@[p] == before@.insert((i, j), x)[p] by {
                if p.0 == i {
                    let q1 = row_position(r1, p.1);
                    let q0 = row_position(r0, p.1);
                    assert(r1[q1].0 == p.1);
                    assert(r0[q1].0 == p.1);
                    assert(q0 == q1) by {
                        assert(distinct_columns(r0));
                    }
                    if p.1 == j {
                        assert(q1 == k) by {
                            assert(distinct_columns(r0));
                        }
                    }
                }
            }
        }
    }

    /// Grows the rows or the columns so that `index` fits.
    fn make_room(&mut self, index: [usize; 2])
        requires
            old(self).wf(),
            index_fits(old(self).spec_capacity().0, index[0]),
            index_fits(old(self).spec_capacity().1, index[1]),
        ensures
            final(self).wf(),
            final(self)@ == old(self)@,
            final(self).spec_capacity().0 == capacity_after(old(self).spec_capacity().0, index[0]),
            final(self).spec_capacity().1 == capacity_after(old(self).spec_capacity().1, index[1]),
            forall|i: usize| #[trigger] final(self).row(i) == old(self).row(i),
            forall|j: usize| #[trigger] final(self).column(j) == old(self).column(j),
    {
        let ghost view0 = self@;
        let ghost rows0 = self.rows@;
        let ghost columns0 = self.columns@;
        if index[0] >= self.rows.len() {
            let length = grown_capacity_of(index[0]);
            while self.rows.len() < length
                invariant
                    self.columns@ == columns0,
                    self.rows@.len() >= rows0.len(),
                    length > rows0.len(),
                    self.rows@.len() <= length,
                    forall|i: int| 0 <= i < rows0.len() ==> #[trigger] self.rows@[i] == rows0[i],
                    forall|i: int| rows0.len() <= i < self.rows@.len() ==> (#[trigger] self.rows@[i])@.len() == 0,
                decreases length - self.rows@.len(),
            {
                self.rows.push(Vec::new());
            }
        }
        let ghost rows1 = self.rows@;
        if index[1] >= self.columns.len() {
            let length = grown_capacity_of(index[1]);
            while self.columns.len() < length
                invariant
                    self.rows@ == rows1,
                    self.columns@.len() >= columns0.len(),
                    length > columns0.len(),
                    self.columns@.len() <= length,
                    forall|j: int| 0 <= j < columns0.len() ==> #[trigger] self.columns@[j] == columns0[j],
                    forall|j: int| columns0.len() <= j < self.columns@.len() ==> (#[trigger] self.columns@[j])@.len()
                        == 0,
                decreases length - self.columns@.len(),
            {
                self.columns.push(Vec::new());
            }
        }
        proof {
            lemma_grown_capacity(index[0] as nat);
            lemma_grown_capacity(index[1] as nat);
            assert forall|i: int| 0 <= i < rows0.len() implies #[trigger] self.rows@[i]@ == rows0[i]@ by {
                assert(rows1[i] == rows0[i]);
            }
            assert forall|i: int| rows0.len() <= i < self.rows@.len() implies (#[trigger] self.rows@[i])@.len() == 0 by {
                if index[0] >= rows0.len() {
                    assert(rows1[i]@.len() == 0);
                }
            }
            assert forall|j: int| 0 <= j < columns0.len() implies #[trigger] self.columns@[j]@ == columns0[j]@ by {}
            assert forall|i: usize, j: usize|
                i < self.rows@.len() && j < self.columns@.len() implies (row_has(self.rows@[i as int]@, j) <==> (
            #[trigger] self.columns@[j as int]@).contains(i) && #[trigger] self.rows@[i as int]@.len() >= 0) by {
                if i < rows0.len() && j < columns0.len() {
                    assert(self.rows@[i as int]@ == rows0[i as int]@);
                    assert(self.columns@[j as int]@ == columns0[j as int]@);
                } else if i >= rows0.len() {
                    assert(self.rows@[i as int]@.len() == 0);
                    if self.columns@[j as int]@.contains(i) {
                        let k = choose|k: int| 0 <= k < self.columns@[j as int]@.len() && self.columns@[j as int]@[k] == i;
                        if j < columns0.len() {
                            assert(columns0[j as int]@[k] < rows0.len());
                        }
                    }
                } else {
                    assert(self.columns@[j as int]@.len() == 0);
                    if row_has(self.rows@[i as int]@, j) {
                        let k = choose|k: int| 0 <= k < self.rows@[i as int]@.len() && (#[trigger] self.rows@[i as int]@[k]).0 == j;
                        assert(rows0[i as int]@[k].0 < columns0.len());
                    }
                }
            }
            assert(self@ =~= view0);
            assert forall|i: usize| #[trigger] self.row(i) == old(self).row(i) by {}
            assert forall|j: usize| #[trigger] self.column(j) == old(self).column(j) by {}
        }
    }

    /// Sets the value at `index`; a new entry goes last in its row and in its
    /// column.
    pub fn insert(&mut self, index: [usize; 2], value: ValueT)
        requires
            old(self).wf(),
            index_fits(old(self).spec_capacity().0, index[0]),
            index_fits(old(self).spec_capacity().1, index[1]),
        ensures
            final(self).wf(),
            final(self)@ == old(self)@.insert((index[0], index[1]), value),
            final(self).spec_capacity().0 == capacity_after(old(self).spec_capacity().0, index[0]),
            final(self).spec_capacity().1 == capacity_after(old(self).spec_capacity().1, index[1]),
            old(self)@.contains_key((index[0], index[1])) ==> final(self).row(index[0]) == row_with_value(
                old(self).row(index[0]),
                index[1],
                value,
            ) && final(self).column(index[1]) == old(self).column(index[1]),
            !old(self)@.contains_key((index[0], index[1])) ==> final(self).row(index[0]) == old(self).row(
                index[0],
            ).push((index[1], value)) && final(self).column(index[1]) == old(self).column(index[1]).push(
                index[0],
            ),
            forall|i: usize| i != index[0] ==> #[trigger] final(self).row(i) == old(self).row(i),
            forall|j: usize| j != index[1] ==> #[trigger] final(self).column(j) == old(self).column(j),
    {
        self.make_room(index);
        let ghost middle = *self;
        let i = index[0];
        let j = index[1];
        proof {
            lemma_grown_capacity(i as nat);
            lemma_grown_capacity(j as nat);
        }
        let ghost view0 = self@;
        let ghost rows0 = self.rows@;
        let ghost columns0 = self.columns@;
        let ghost r0 = rows0[i as int]@;
        match self.find_in_row(i, j) {
            Some(k) => {
                let row = &mut self.rows[i];
                row.set(k, (j, value));
                proof {
                    let r = self.rows@[i as int]@;
                    assert(r =~= row_with_value(r0, j, value)) by {
                        assert forall|m: int| 0 <= m < r.len() implies #[trigger] r[m] == row_with_value(r0, j, value)[m] by {
                            if m != k {
                                assert(r0[m].0 != j) by {
                                    if m < k {
                                        assert(r0[m].0 != r0[k as int].0);
                                    } else {
                                        assert(r0[k as int].0 != r0[m].0);
                                    }
                                }
                            }
                        }
                    }
                    assert(distinct_columns(r)) by {
                        assert forall|a: int, b: int| 0 <= a < b < r.len() implies (#[trigger] r[a]).0 != (#[trigger] r[b]).0 by {
                            assert(r0[a].0 != r0[b].0);
                        }
                    }
                    assert forall|m: int| 0 <= m < r.len() implies (#[trigger] r[m]).0 == r0[m].0 by {}
                    assert forall|jj: usize| row_has(r, jj) == row_has(r0, jj) by {
                        if row_has(r, jj) {
                            let m = choose|m: int| 0 <= m < r.len() && (#[trigger] r[m]).0 == jj;
                            assert(r0[m].0 == jj);
                        }
                        if row_has(r0, jj) {
                            let m = choose|m: int| 0 <= m < r0.len() && (#[trigger] r0[m]).0 == jj;
                            assert(r[m].0 == jj);
                        }
                    }
                    assert(self@ =~= view0.insert((i, j), value)) by {
                        assert forall|p: (usize, usize)| #[trigger] self@.contains_key(p) implies view0.insert((i, j), value).contains_key(p)
                            && self@[p] == view0.insert((i, j), value)[p] by {
                            if p.0 == i {
                                let q = row_position(r, p.1);
                                assert(row_has(r0, p.1));
                                let q0 = row_position(r0, p.1);
                                assert(q == q0) by {
                                    if q != q0 {
                                        if q < q0 {
                                            assert(r[q].0 != r[q0].0);
                                        } else {
                                            assert(r[q0].0 != r[q].0);
                                        }
                                    }
                                }
                                if p.1 == j {
                                    assert(q == k) by {
                                        if q != k {
                                            if q < k {
                                                assert(r[q].0 != r[k as int].0);
                                            } else {
                                                assert(r[k as int].0 != r[q].0);
                                            }
                                        }
                                    }
                                }
                            } else {
                                assert(self.rows@[p.0 as int] == rows0[p.0 as int]);
                            }
                        }
                        assert forall|p: (usize, usize)| #[trigger] view0.insert((i, j), value).contains_key(p) implies self@.contains_key(p) by {
                            if p.0 != i {
                                assert(self.rows@[p.0 as int] == rows0[p.0 as int]);
                            } else if p.1 == j {
                                assert(r[k as int].0 == j);
                            }
                        }
                    }
                    assert(view0.contains_key((i, j)));
                    assert(middle.row(i) == old(self).row(i));
                    assert(middle.column(j) == old(self).column(j));
                    assert(self.row(i) == r);
                    assert(self.column(j) == middle.column(j));
                    assert forall|jj: usize| jj != j implies #[trigger] self.column(jj) == old(self).column(jj) by {
                        assert(middle.column(jj) == old(self).column(jj));
                    }
                    assert forall|ii: usize| ii != i implies #[trigger] self.row(ii) == old(self).row(ii) by {
                        assert(middle.row(ii) == old(self).row(ii));
                        if ii < self.rows@.len() {
                            assert(self.rows@[ii as int] == rows0[ii as int]);
                        }
                    }
                }
            },
            None => {
                let row = &mut self.rows[i];
                row.push((j, value));
                let column = &mut self.columns[j];
                column.push(i);
                proof {
                    let r = self.rows@[i as int]@;
                    assert(r == r0.push((j, value)));
                    let c0 = columns0[j as int]@;
                    let c = self.columns@[j as int]@;
                    assert(c == c0.push(i));
                    assert(middle.row(i) == old(self).row(i));
                    assert(middle.column(j) == old(self).column(j));
                    assert(self.row(i) == r);
                    assert(self.column(j) == c);
                    assert(!c0.contains(i));
                    assert(distinct_columns(r)) by {
                        assert forall|a: int, b: int| 0 <= a < b < r.len() implies (#[trigger] r[a]).0 != (#[trigger] r[b]).0 by {
                            if b == r.len() - 1 {
                                assert(r[a] == r0[a]);
                            } else {
                                assert(r0[a].0 != r0[b].0);
                            }
                        }
                    }
                    assert(c.no_duplicates()) by {
                        assert forall|a: int, b: int| 0 <= a < c.len() && 0 <= b < c.len() && a != b implies c[a] != c[b] by {
                            if a == c.len() - 1 {
                                assert(c0.contains(c[b]) || b == c.len() - 1);
                            } else if b == c.len() - 1 {
                                assert(c[a] == c0[a]);
                            } else {
                                assert(c0[a] != c0[b]);
                            }
                        }
                    }
                    assert forall|ii: usize, jj: usize|
                        ii < self.rows@.len() && jj < self.columns@.len() implies (row_has(self.rows@[ii as int]@, jj) <==> (
                    #[trigger] self.columns@[jj as int]@).contains(ii) && #[trigger] self.rows@[ii as int]@.len() >= 0) by {
                        if ii == i && jj == j {
                            assert(r[r.len() - 1].0 == j);
                            assert(c[c.len() - 1] == i);
                        } else if ii == i {
                            assert(self.columns@[jj as int] == columns0[jj as int]);
                            if row_has(r, jj) {
                                let m = choose|m: int| 0 <= m < r.len() && (#[trigger] r[m]).0 == jj;
                                assert(r0[m].0 == jj);
                            }
                            if row_has(r0, jj) {
                                let m = choose|m: int| 0 <= m < r0.len() && (#[trigger] r0[m]).0 == jj;
                                assert(r[m].0 == jj);
                            }
                        } else if jj == j {
                            assert(self.rows@[ii as int] == rows0[ii as int]);
                            if c.contains(ii) {
                                let m = choose|m: int| 0 <= m < c.len() && c[m] == ii;
                                assert(c0[m] == ii);
                            }
                            if c0.contains(ii) {
                                let m = choose|m: int| 0 <= m < c0.len() && c0[m] == ii;
                                assert(c[m] == ii);
                            }
                        } else {
                            assert(self.rows@[ii as int] == rows0[ii as int]);
                            assert(self.columns@[jj as int] == columns0[jj as int]);
                        }
                    }
                    assert forall|ii: int, m: int|
                        0 <= ii < self.rows@.len() && 0 <= m < self.rows@[ii]@.len() implies (#[trigger] self.rows@[ii]@[m]).0
                            < self.columns@.len() by {
                        if ii != i {
                            assert(self.rows@[ii] == rows0[ii]);
                        } else if m < r0.len() {
                            assert(r[m] == r0[m]);
                        }
                    }
                    assert forall|jj: int, m: int|
                        0 <= jj < self.columns@.len() && 0 <= m < self.columns@[jj]@.len() implies (
                    #[trigger] self.columns@[jj]@[m]) < self.rows@.len() by {
                        if jj != j {
                            assert(self.columns@[jj] == columns0[jj]);
                        } else if m < c0.len() {
                            assert(c[m] == c0[m]);
                        }
                    }
                    assert forall|ii: int| 0 <= ii < self.rows@.len() implies distinct_columns(#[trigger] self.rows@[ii]@) by {
                        if ii != i {
                            assert(self.rows@[ii] == rows0[ii]);
                        }
                    }
                    assert forall|jj: int| 0 <= jj < self.columns@.len() implies (#[trigger] self.columns@[jj]@).no_duplicates() by {
                        if jj != j {
                            assert(self.columns@[jj] == columns0[jj]);
                        }
                    }
                    assert(self@ =~= view0.insert((i, j), value)) by {
                        assert forall|p: (usize, usize)| #[trigger] self@.contains_key(p) implies view0.insert((i, j), value).contains_key(p)
                            && self@[p] == view0.insert((i, j), value)[p] by {
                            if p.0 == i {
                                let q = row_position(r, p.1);
                                if p.1 == j {
                                    assert(q == r.len() - 1) by {
                                        if q < r.len() - 1 {
                                            assert(r[q] == r0[q]);
                                        }
                                    }
                                } else {
                                    assert(q < r.len() - 1);
                                    assert(r[q] == r0[q]);
                                    assert(row_has(r0, p.1));
                                    let q0 = row_position(r0, p.1);
                                    assert(q == q0) by {
                                        if q != q0 {
                                            assert(r[q0] == r0[q0]);
                                            if q < q0 {
                                                assert(r[q].0 != r[q0].0);
                                            } else {
                                                assert(r[q0].0 != r[q].0);
                                            }
                                        }
                                    }
                                }
                            } else {
                                assert(self.rows@[p.0 as int] == rows0[p.0 as int]);
                            }
                        }
                        assert forall|p: (usize, usize)| #[trigger] view0.insert((i, j), value).contains_key(p) implies self@.contains_key(p) by {
                            if p.0 != i {
                                assert(self.rows@[p.0 as int] == rows0[p.0 as int]);
                            } else if p.1 == j {
                                assert(r[r.len() - 1].0 == j);
                            } else {
                                let q0 = row_position(r0, p.1);
                                assert(r[q0] == r0[q0]);
                            }
                        }
                    }
                    assert forall|ii: usize| ii != i implies #[trigger] self.row(ii) == old(self).row(ii) by {
                        assert(middle.row(ii) == old(self).row(ii));
                        if ii < self.rows@.len() {
                            assert(self.rows@[ii as int] == rows0[ii as int]);
                        }
                    }
                    assert forall|jj: usize| jj != j implies #[trigger] self.column(jj) == old(self).column(jj) by {
                        assert(middle.column(jj) == old(self).column(jj));
                        if jj < self.columns@.len() {
                            assert(self.columns@[jj as int] == columns0[jj as int]);
                        }
                    }
                }
            },
        }
    }

    /// The position of row `i` in column `j`, if it is there.
    fn find_in_column(&self, j: usize, i: usize) -> (position: Option<usize>)
        requires
            self.wf(),
            j < self.columns@.len(),
        ensures
            match position {
                Some(k) => k < self.columns@[j as int]@.len() && self.columns@[j as int]@[k as int] == i,
                None => !self.columns@[j as int]@.contains(i),
            },
    {
        let column = &self.columns[j];
        let mut k: usize = 0;
        while k < column.len()
            invariant
                column@ == self.columns@[j as int]@,
                k <= column@.len(),
                forall|m: int| 0 <= m < k ==> column@[m] != i,
            decreases column@.len() - k,
        {
            if column[k] == i {
                return Some(k);
            }
            k = k + 1;
        }
        None
    }

    /// Removes the entry at `index`, if any; the other entries keep their
    /// order in their rows and columns.
    pub fn remove(&mut self, index: [usize; 2])
        requires
            old(self).wf(),
        ensures
            final(self).wf(),
            final(self)@ == old(self)@.remove((index[0], index[1])),
            final(self).spec_capacity() == old(self).spec_capacity(),
            final(self).row(index[0]) == row_without(old(self).row(index[0]), index[1]),
            final(self).column(index[1]) == column_without(old(self).column(index[1]), index[0]),
            forall|i: usize| i != index[0] ==> #[trigger] final(self).row(i) == old(self).row(i),
            forall|j: usize| j != index[1] ==> #[trigger] final(self).column(j) == old(self).column(j),
    {
        let i = index[0];
        let j = index[1];
        let ghost view0 = self@;
        let ghost rows0 = self.rows@;
        let ghost columns0 = self.columns@;
        if i >= self.rows.len() || j >= self.columns.len() {
            proof {
                if i < rows0.len() {
                    if row_has(rows0[i as int]@, j) {
                        let m = choose|m: int| 0 <= m < rows0[i as int]@.len() && (#[trigger] rows0[i as int]@[m]).0 == j;
                        assert(rows0[i as int]@[m].0 < columns0.len());
                    }
                }
                if j < columns0.len() {
                    if columns0[j as int]@.contains(i) {
                        let m = choose|m: int| 0 <= m < columns0[j as int]@.len() && columns0[j as int]@[m] == i;
                        assert(columns0[j as int]@[m] < rows0.len());
                    }
                }
                assert(self@.remove((i, j)) =~= self@);
            }
            return;
        }
        match self.find_in_row(i, j) {
            None => {
                proof {
                    assert(!self.columns@[j as int]@.contains(i));
                    assert(self@.remove((i, j)) =~= self@);
                }
            },
            Some(k) => {
                proof {
                    assert(row_has(rows0[i as int]@, j));
                }
                let m = match self.find_in_column(j, i) {
                    Some(m) => m,
                    None => {
                        proof {
                            assert(false);
                        }
                        return;
                    },
                };
                let ghost r0 = rows0[i as int]@;
                let ghost c0 = columns0[j as int]@;
                let row = &mut self.rows[i];
                row.remove(k);
                let column = &mut self.columns[j];
                column.remove(m);
                proof {
                    let r = self.rows@[i as int]@;
                    let c = self.columns@[j as int]@;
                    assert(r == r0.remove(k as int));
                    assert(c == c0.remove(m as int));
                    lemma_row_remove(r0, k as int);
                    lemma_column_remove(c0, m as int);
                    assert forall|ii: int| 0 <= ii < self.rows@.len() && ii != i implies #[trigger] self.rows@[ii]
                        == rows0[ii] by {}
                    assert forall|jj: int| 0 <= jj < self.columns@.len() && jj != j implies #[trigger] self.columns@[jj]
                        == columns0[jj] by {}
                    assert forall|ii: int| 0 <= ii < self.rows@.len() implies distinct_columns(#[trigger] self.rows@[ii]@) by {
                        if ii != i {
                            assert(self.rows@[ii] == rows0[ii]);
                        }
                    }
                    assert forall|jj: int| 0 <= jj < self.columns@.len() implies (#[trigger] self.columns@[jj]@).no_duplicates() by {
                        if jj != j {
                            assert(self.columns@[jj] == columns0[jj]);
                        }
                    }
                    assert forall|ii: int, q: int|
                        0 <= ii < self.rows@.len() && 0 <= q < self.rows@[ii]@.len() implies (#[trigger] self.rows@[ii]@[q]).0
                            < self.columns@.len() by {
                        if ii != i {
                            assert(self.rows@[ii] == rows0[ii]);
                        } else {
                            let q0 = if q < k { q } else { q + 1 };
                            assert(r[q] == r0[q0]);
                        }
                    }
                    assert forall|jj: int, q: int|
                        0 <= jj < self.columns@.len() && 0 <= q < self.columns@[jj]@.len() implies (
                    #[trigger] self.columns@[jj]@[q]) < self.rows@.len() by {
                        if jj != j {
                            assert(self.columns@[jj] == columns0[jj]);
                        } else {
                            let q0 = if q < m { q } else { q + 1 };
                            assert(c[q] == c0[q0]);
                        }
                    }
                    assert forall|ii: usize, jj: usize|
                        ii < self.rows@.len() && jj < self.columns@.len() implies (row_has(self.rows@[ii as int]@, jj) <==> (
                    #[trigger] self.columns@[jj as int]@).contains(ii) && #[trigger] self.rows@[ii as int]@.len() >= 0) by {
                        if ii == i && jj == j {
                            assert(!row_has(r, j));
                            assert(!c.contains(i));
                        } else if ii == i {
                            assert(self.columns@[jj as int] == columns0[jj as int]);
                            assert(row_has(r, jj) == row_has(r0, jj));
                        } else if jj == j {
                            assert(self.rows@[ii as int] == rows0[ii as int]);
                            assert(c.contains(ii) == c0.contains(ii));
                        } else {
                            assert(self.rows@[ii as int] == rows0[ii as int]);
                            assert(self.columns@[jj as int] == columns0[jj as int]);
                        }
                    }
                    assert(self@ =~= view0.remove((i, j))) by {
                        assert forall|p: (usize, usize)| #[trigger] self@.contains_key(p) <==> view0.remove((i, j)).contains_key(p) by {
                            if p.0 != i && p.0 < self.rows@.len() {
                                assert(self.rows@[p.0 as int] == rows0[p.0 as int]);
                            }
                        }
                        assert forall|p: (usize, usize)| #[trigger] self@.contains_key(p) implies self@[p] == view0.remove((i, j))[p] by {
                            if p.0 != i {
                                assert(self.rows@[p.0 as int] == rows0[p.0 as int]);
                            }
                        }
                    }
                    assert(self.row(i) == r);
                    assert(self.column(j) == c);
                    assert forall|ii: usize| ii != i implies #[trigger] self.row(ii) == old(self).row(ii) by {
                        if ii < self.rows@.len() {
                            assert(self.rows@[ii as int] == rows0[ii as int]);
                        }
                    }
                    assert forall|jj: usize| jj != j implies #[trigger] self.column(jj) == old(self).column(jj) by {
                        if jj < self.columns@.len() {
                            assert(self.columns@[jj as int] == columns0[jj as int]);
                        }
                    }
                }
            },
        }
    }

    /// Removes every entry of row `i`.
    pub fn clear_row(&mut self, i: usize)
        requires
            old(self).wf(),
        ensures
            final(self).wf(),
            final(self)@ == without_row(old(self)@, i),
            final(self).spec_capacity() == old(self).spec_capacity(),
            final(self).row(i) == Seq::<(usize, ValueT)>::empty(),
            forall|ii: usize| ii != i ==> #[trigger] final(self).row(ii) == old(self).row(ii),
            forall|j: usize| #[trigger] final(self).column(j) == column_without(old(self).column(j), i),
    {
        proof {
            assert forall|j: usize| !row_has(self.row(i), j) implies #[trigger] self.column(j) == column_without(
                self.column(j),
                i,
            ) by {
                if j < self.columns@.len() && self.columns@[j as int]@.contains(i) {
                    let m = choose|m: int| 0 <= m < self.columns@[j as int]@.len() && self.columns@[j as int]@[m] == i;
                    assert(self.columns@[j as int]@[m] < self.rows@.len());
                }
            }
        }
        if i >= self.rows.len() {
            proof {
                assert(self@ =~= without_row(self@, i));
                assert(self.row(i) =~= Seq::<(usize, ValueT)>::empty());
            }
            return;
        }
        while self.rows[i].len() > 0
            invariant
                self.wf(),
                i < self.rows@.len(),
                self.spec_capacity() == old(self).spec_capacity(),
                forall|p: (usize, usize)| #[trigger]
                    self@.contains_key(p) <==> old(self)@.contains_key(p) && (p.0 != i || row_has(self.row(i), p.1)),
                forall|p: (usize, usize)| #[trigger] self@.contains_key(p) ==> self@[p] == old(self)@[p],
                forall|ii: usize| ii != i ==> #[trigger] self.row(ii) == old(self).row(ii),
                forall|j: usize| #[trigger]
                    self.column(j) == if row_has(self.row(i), j) {
                        old(self).column(j)
                    } else {
                        column_without(old(self).column(j), i)
                    },
            decreases self.rows@[i as int]@.len(),
        {
            let last = self.rows[i].len() - 1;
            let j = self.rows[i][last].0;
            let ghost before = *self;
            let ghost r = self.rows@[i as int]@;
            proof {
                assert(self.row(i) == r);
                lemma_row_remove(r, last as int);
                assert(row_has(r, j));
            }
            self.remove([i, j]);
            proof {
                assert(self.row(i) == r.remove(last as int));
                assert forall|p: (usize, usize)| #[trigger]
                    self@.contains_key(p) <==> old(self)@.contains_key(p) && (p.0 != i || row_has(self.row(i), p.1)) by {
                    assert(before@.contains_key(p) <==> old(self)@.contains_key(p) && (p.0 != i || row_has(r, p.1)));
                }
                assert forall|p: (usize, usize)| #[trigger] self@.contains_key(p) implies self@[p] == old(self)@[p] by {
                    assert(before@.contains_key(p));
                }
                assert forall|ii: usize| ii != i implies #[trigger] self.row(ii) == old(self).row(ii) by {
                    assert(before.row(ii) == old(self).row(ii));
                }
                assert forall|jj: usize| #[trigger]
                    self.column(jj) == if row_has(self.row(i), jj) {
                        old(self).column(jj)
                    } else {
                        column_without(old(self).column(jj), i)
                    } by {
                    assert(before.column(jj) == if row_has(r, jj) {
                        old(self).column(jj)
                    } else {
                        column_without(old(self).column(jj), i)
                    });
                }
            }
        }
        proof {
            assert(self.row(i) =~= Seq::<(usize, ValueT)>::empty());
            assert(self@ =~= without_row(old(self)@, i));
        }
    }

    /// Removes every entry of column `j`.
    pub fn clear_column(&mut self, j: usize)
        requires
            old(self).wf(),
        ensures
            final(self).wf(),
            final(self)@ == without_column(old(self)@, j),
            final(self).spec_capacity() == old(self).spec_capacity(),
            final(self).column(j) == Seq::<usize>::empty(),
            forall|jj: usize| jj != j ==> #[trigger] final(self).column(jj) == old(self).column(jj),
            forall|i: usize| #[trigger] final(self).row(i) == row_without(old(self).row(i), j),
    {
        proof {
            assert forall|i: usize| !self.column(j).contains(i) implies #[trigger] self.row(i) == row_without(
                self.row(i),
                j,
            ) by {
                if i < self.rows@.len() && row_has(self.rows@[i as int]@, j) {
                    let m = choose|m: int| 0 <= m < self.rows@[i as int]@.len() && (#[trigger] self.rows@[i as int]@[m]).0 == j;
                    assert(self.rows@[i as int]@[m].0 < self.columns@.len());
                }
            }
        }
        if j >= self.columns.len() {
            proof {
                assert(self@ =~= without_column(self@, j));
                assert(self.column(j) =~= Seq::<usize>::empty());
            }
            return;
        }
        while self.columns[j].len() > 0
            invariant
                self.wf(),
                j < self.columns@.len(),
                self.spec_capacity() == old(self).spec_capacity(),
                forall|p: (usize, usize)| #[trigger]
                    self@.contains_key(p) <==> old(self)@.contains_key(p) && (p.1 != j || self.column(j).contains(p.0)),
                forall|p: (usize, usize)| #[trigger] self@.contains_key(p) ==> self@[p] == old(self)@[p],
                forall|jj: usize| jj != j ==> #[trigger] self.column(jj) == old(self).column(jj),
                forall|i: usize| #[trigger]
                    self.row(i) == if self.column(j).contains(i) {
                        old(self).row(i)
                    } else {
                        row_without(old(self).row(i), j)
                    },
            decreases self.columns@[j as int]@.len(),
        {
            let last = self.columns[j].len() - 1;
            let i = self.columns[j][last];
            let ghost before = *self;
            let ghost c = self.columns@[j as int]@;
            proof {
                assert(self.column(j) == c);
                lemma_column_remove(c, last as int);
                assert(c.contains(i));
            }
            self.remove([i, j]);
            proof {
                assert(self.column(j) == c.remove(last as int));
                assert forall|p: (usize, usize)| #[trigger]
                    self@.contains_key(p) <==> old(self)@.contains_key(p) && (p.1 != j || self.column(j).contains(p.0)) by {
                    assert(before@.contains_key(p) <==> old(self)@.contains_key(p) && (p.1 != j || c.contains(p.0)));
                }
                assert forall|p: (usize, usize)| #[trigger] self@.contains_key(p) implies self@[p] == old(self)@[p] by {
                    assert(before@.contains_key(p));
                }
                assert forall|jj: usize| jj != j implies #[trigger] self.column(jj) == old(self).column(jj) by {
                    assert(before.column(jj) == old(self).column(jj));
                }
                assert forall|ii: usize| #[trigger]
                    self.row(ii) == if self.column(j).contains(ii) {
                        old(self).row(ii)
                    } else {
                        row_without(old(self).row(ii), j)
                    } by {
                    assert(before.row(ii) == if c.contains(ii) {
                        old(self).row(ii)
                    } else {
                        row_without(old(self).row(ii), j)
                    });
                }
            }
        }
        proof {
            assert(self.column(j) =~= Seq::<usize>::empty());
            assert(self@ =~= without_column(old(self)@, j));
        }
    }

    /// Removes every entry; afterwards no row or column is held.
    pub fn clear(&mut self)
        requires
            old(self).wf(),
        ensures
            final(self).wf(),
            final(self)@ == Map::<(usize, usize), ValueT>::empty(),
            final(self).spec_capacity() == (0nat, 0nat),
    {
        self.rows.clear();
        self.columns.clear();
        proof {
            assert(self@ =~= Map::<(usize, usize), ValueT>::empty());
        }
    }

    /// The entries of row `i` in insertion order: column and value.
    pub fn iter_row(&self, i: usize) -> (entries: &[(usize, ValueT)])
        requires
            i < self.spec_capacity().0,
        ensures
            entries@ == self.row(i),
    {
        self.rows[i].as_slice()
    }

    /// The entries of column `j` in insertion order: row and value.
    pub fn iter_column(&self, j: usize) -> (entries: Vec<(usize, &ValueT)>)
        requires
            self.wf(),
            j < self.spec_capacity().1,
        ensures
            entries@.len() == self.column(j).len(),
            forall|k: int|
                0 <= k < entries@.len() ==> (#[trigger] entries@[k]).0 == self.column(j)[k] && self@.contains_key(
                    (self.column(j)[k], j),
                ) && *entries@[k].1 == self@[(self.column(j)[k], j)],
    {
        let column = &self.columns[j];
        let mut entries: Vec<(usize, &ValueT)> = Vec::new();
        let mut k: usize = 0;
        while k < column.len()
            invariant
                self.wf(),
                j < self.columns@.len(),
                column@ == self.column(j),
                k <= column@.len(),
                entries@.len() == k,
                forall|q: int|
                    0 <= q < k ==> (#[trigger] entries@[q]).0 == column@[q] && self@.contains_key((column@[q], j))
                        && *entries@[q].1 == self@[(column@[q], j)],
            decreases column@.len() - k,
        {
            let i = column[k];
            proof {
                assert(self.columns@[j as int]@.contains(i)) by {
                    assert(self.columns@[j as int]@[k as int] == i);
                }
                assert(i < self.rows@.len());
                assert(self.rows@[i as int]@.len() >= 0);
                assert(row_has(self.rows@[i as int]@, j));
            }
            match self.get([i, j]) {
                Some(value) => {
                    entries.push((i, value));
                },
                None => {
                    proof {
                        assert(false);
                    }
                },
            }
            k = k + 1;
        }
        entries
    }

    /// Every entry with its index, row by row, each row in insertion order.
    pub fn iter(&self) -> (entries: Vec<([usize; 2], &ValueT)>)
        ensures
            entries@.len() == self.listing().len(),
            forall|k: int|
                0 <= k < entries@.len() ==> (#[trigger] entries@[k]).0[0] == self.listing()[k].0.0
                    && entries@[k].0[1] == self.listing()[k].0.1 && *entries@[k].1 == self.listing()[k].1,
    {
        let mut entries: Vec<([usize; 2], &ValueT)> = Vec::new();
        let mut i: usize = 0;
        while i < self.rows.len()
            invariant
                i <= self.rows@.len(),
                entries@.len() == self.listing_upto(i as nat).len(),
                forall|q: int|
                    0 <= q < entries@.len() ==> (#[trigger] entries@[q]).0[0] == self.listing_upto(i as nat)[q].0.0
                        && entries@[q].0[1] == self.listing_upto(i as nat)[q].0.1 && *entries@[q].1
                        == self.listing_upto(i as nat)[q].1,
            decreases self.rows@.len() - i,
        {
            let row = &self.rows[i];
            let ghost start = entries@.len();
            let ghost previous = self.listing_upto(i as nat);
            let ghost added = labelled(i, self.row(i));
            let mut k: usize = 0;
            while k < row.len()
                invariant
                    i < self.rows@.len(),
                    row@ == self.row(i),
                    added == labelled(i, self.row(i)),
                    k <= row@.len(),
                    start == previous.len(),
                    entries@.len() == start + k,
                    forall|q: int|
                        0 <= q < start ==> (#[trigger] entries@[q]).0[0] == previous[q].0.0 && entries@[q].0[1]
                            == previous[q].0.1 && *entries@[q].1 == previous[q].1,
                    forall|q: int|
                        start <= q < entries@.len() ==> (#[trigger] entries@[q]).0[0] == added[q - start].0.0
                            && entries@[q].0[1] == added[q - start].0.1 && *entries@[q].1 == added[q - start].1,
                decreases row@.len() - k,
            {
                let entry = &row[k];
                entries.push(([i, entry.0], &entry.1));
                k = k + 1;
            }
            proof {
                let next = self.listing_upto((i + 1) as nat);
                assert(next == previous + added);
                assert forall|q: int| 0 <= q < entries@.len() implies (#[trigger] entries@[q]).0[0] == next[q].0.0
                    && entries@[q].0[1] == next[q].0.1 && *entries@[q].1 == next[q].1 by {
                    if q < start {
                        assert(next[q] == previous[q]);
                    } else {
                        assert(next[q] == added[q - start]);
                    }
                }
            }
            i = i + 1;
        }
        entries
    }

    /// Inserts the entries in order.
    pub fn extend(&mut self, entries: Vec<([usize; 2], ValueT)>)
        requires
            old(self).wf(),
            forall|k: int|
                0 <= k < entries@.len() ==> index_fits(old(self).spec_capacity().0, (#[trigger] entries@[k]).0[0])
                    && index_fits(old(self).spec_capacity().1, entries@[k].0[1]),
        ensures
            final(self).wf(),
            final(self)@ == inserted_all(old(self)@, entries@),
    {
        let ghost all = entries@;
        let ghost start = self@;
        let mut rest = reversed(entries);
        let ghost mut k: int = 0;
        while rest.len() > 0
            invariant
                self.wf(),
                0 <= k,
                k + rest@.len() == all.len(),
                rest@ == all.subrange(k, all.len() as int).reverse(),
                self@ == inserted_all(start, all.subrange(0, k)),
                self.spec_capacity().0 >= old(self).spec_capacity().0,
                self.spec_capacity().1 >= old(self).spec_capacity().1,
                forall|q: int|
                    0 <= q < all.len() ==> index_fits(old(self).spec_capacity().0, (#[trigger] all[q]).0[0])
                        && index_fits(old(self).spec_capacity().1, all[q].0[1]),
            decreases rest@.len(),
        {
            let entry = rest.pop().unwrap();
            proof {
                assert(entry == all[k]);
                assert(all.subrange(0, k + 1).drop_last() =~= all.subrange(0, k));
                assert(rest@ =~= all.subrange(k + 1, all.len() as int).reverse());
            }
            let (index, value) = entry;
            self.insert(index, value);
            proof {
                k = k + 1;
                lemma_grown_capacity(index[0] as nat);
                lemma_grown_capacity(index[1] as nat);
            }
        }
        proof {
            assert(all.subrange(0, all.len() as int) =~= all);
        }
    }

    /// A map holding the entries, inserted in order.
    pub fn from_iter(entries: Vec<([usize; 2], ValueT)>) -> (map: Self)
        requires
            forall|k: int|
                0 <= k < entries@.len() ==> (#[trigger] entries@[k]).0[0] <= usize::MAX / 2 && entries@[k].0[1]
                    <= usize::MAX / 2,
        ensures
            map.wf(),
            map@ == inserted_all(Map::<(usize, usize), ValueT>::empty(), entries@),
    {
        let mut map = Self::new();
        map.extend(entries);
        map
    }
}

impl<ValueT> Default for TwoDimensionalMap<ValueT> {
    fn default() -> (map: Self)
        ensures
            map.wf(),
            map@ == Map::<(usize, usize), ValueT>::empty(),
    {
        Self::new()
    }
}

} // verus!
