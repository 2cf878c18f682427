//! Propagation of linear constraints `sum of coefficient * literal >= lower
//! bound` by counting: each row keeps the greatest value its left-hand side
//! can still take over the assertions reflected so far, and the last
//! position that may hold an unassigned literal, its terms sorted by
//! coefficient.
use vstd::prelude::*;

use crate::assertion_state::{asserted_before, AssertionInfo, AssertionStack, NULL_ORDER};
use crate::cardinality_propagator::is_assigned;
use crate::constraint::{
    assigned_before, false_before, lemma_sum_where_bounds, lemma_sum_where_step, lemma_where_ext, literals_in_range,
    sum_coefficients, sum_where, Constraint, copy_terms,
};
use crate::explain::{Implication, LinearPropagatorExplainKey};
use crate::literal::Literal;
use crate::literal_array::LiteralArray;
use crate::row_storage::{emptied, freed, is_removed, lemma_occupied, occupied_rows, removal_set, contains_index, RowId, RowStorage};
use fxhash::FxHashSet;
use crate::heap_sort::{swap_elements, swapped};

verus! {

/// The coefficients do not decrease.
pub open spec fn sorted_by_coefficient(terms: Seq<(Literal, u64)>) -> bool {
    forall|i: int, j: int| 0 <= i < j < terms.len() ==> (#[trigger] terms[i]).1 <= (#[trigger] terms[j]).1
}

/// The greatest value the left-hand side can take when only the literals
/// false before `order` are known.
pub open spec fn sup_before<E>(terms: Seq<(Literal, u64)>, trail: Seq<AssertionInfo<E>>, order: int) -> int {
    sum_where(terms, |l: Literal| !false_before(trail, l, order))
}

/// The last position below `count` whose literal is unassigned.
pub open spec fn last_unassigned<E>(terms: Seq<(Literal, u64)>, count: int, trail: Seq<AssertionInfo<E>>) -> Option<int>
    decreases count,
{
    if count <= 0 {
        None
    } else if !is_assigned(trail, terms[count - 1].0) {
        Some(count - 1)
    } else {
        last_unassigned(terms, count - 1, trail)
    }
}

/// The implications found scanning the positions below `count` from the top
/// down while the slack `sup - lower_bound` is below the coefficient: one for
/// each unassigned literal.
pub open spec fn scan_implications<E>(
    terms: Seq<(Literal, u64)>,
    count: int,
    lower_bound: u64,
    sup: u64,
    key: LinearPropagatorExplainKey,
    trail: Seq<AssertionInfo<E>>,
) -> Seq<Implication<LinearPropagatorExplainKey>>
    decreases count,
{
    if count <= 0 {
        Seq::empty()
    } else {
        let t = terms[count - 1];
        if sup >= t.1 + lower_bound {
            Seq::empty()
        } else {
            let head = if !is_assigned(trail, t.0) {
                seq![Implication::Literal(t.0, key, (sup - lower_bound) as u64, t.1)]
            } else {
                Seq::empty()
            };
            head + scan_implications(terms, count - 1, lower_bound, sup, key, trail)
        }
    }
}

/// Sorts the terms by coefficient; terms with equal coefficients keep their
/// order.
fn sort_by_coefficient(terms: Vec<(Literal, u64)>) -> (sorted: Vec<(Literal, u64)>)
    ensures
        sorted@.to_multiset() == terms@.to_multiset(),
        sorted_by_coefficient(sorted@),
{
    let mut sorted: Vec<(Literal, u64)> = Vec::new();
    let mut i: usize = 0;
    proof {
        assert(terms@.take(0) =~= Seq::<(Literal, u64)>::empty());
        assert(sorted@ =~= Seq::<(Literal, u64)>::empty());
    }
    while i < terms.len()
        invariant
            i <= terms@.len(),
            sorted_by_coefficient(sorted@),
            sorted@.to_multiset() == terms@.take(i as int).to_multiset(),
        decreases terms@.len() - i,
    {
        let term = terms[i];
        let mut j: usize = sorted.len();
        while j > 0 && term.1 < sorted[j - 1].1
            invariant
                j <= sorted@.len(),
                forall|m: int| j <= m < sorted@.len() ==> term.1 < (#[trigger] sorted@[m]).1,
            decreases j,
        {
            j = j - 1;
        }
        let ghost before = sorted@;
        proof {
            assert forall|m: int| 0 <= m < j implies (#[trigger] before[m]).1 <= term.1 by {
                assert(before[m].1 <= before[j - 1].1);
            }
        }
        sorted.insert(j, term);
        proof {
            before.insert_ensures(j as int, term);
            assert forall|a: int, b: int| 0 <= a < b < sorted@.len() implies (#[trigger] sorted@[a]).1
                <= (#[trigger] sorted@[b]).1 by {
                if a < j && b == j {
                } else if a < j && b > j {
                    assert(sorted@[b] == before[b - 1]);
                } else if a == j {
                    assert(sorted@[b] == before[b - 1]);
                } else if a > j {
                    assert(sorted@[a] == before[a - 1]);
                    assert(sorted@[b] == before[b - 1]);
                }
            }
            assert(terms@.take(i as int + 1) =~= terms@.take(i as int).push(term));
            vstd::seq_lib::to_multiset_insert(before, j as int, term);
            vstd::seq_lib::to_multiset_build(terms@.take(i as int), term);
        }
        i = i + 1;
    }
    proof {
        assert(terms@.take(terms@.len() as int) =~= terms@);
    }
    sorted
}

/// A linear constraint with the state of its propagation.
#[derive(Clone, Debug)]
pub struct LinearRow {
    literal_terms: Vec<(Literal, u64)>,
    lower_bound: u64,
    is_learnt: bool,
    last_involved_timestamp: usize,
    sup_literal_terms: u64,
    max_unassigned_position: Option<usize>,
    max_unassigned_coefficient: u64,
}

impl LinearRow {
    /// The terms, by increasing coefficient.
    pub closed spec fn terms(self) -> Seq<(Literal, u64)> {
        self.literal_terms@
    }

    /// The lower bound.
    pub closed spec fn bound(self) -> u64 {
        self.lower_bound
    }

    /// Whether the row was learnt.
    pub closed spec fn spec_is_learnt(self) -> bool {
        self.is_learnt
    }

    /// The reduction count when the row last took part in a conflict.
    pub closed spec fn spec_last_involved(self) -> usize {
        self.last_involved_timestamp
    }

    /// The greatest value the left-hand side can take over the reflected
    /// assertions.
    pub closed spec fn sup(self) -> u64 {
        self.sup_literal_terms
    }

    /// The last position that may hold an unassigned literal, if any.
    pub closed spec fn max_position(self) -> Option<usize> {
        self.max_unassigned_position
    }

    /// The coefficient at `max_position`, or 0.
    pub closed spec fn max_coefficient(self) -> u64 {
        self.max_unassigned_coefficient
    }

    /// The terms are sorted by coefficient, their coefficients sum to a
    /// 64-bit value, and the last possibly unassigned position is a position
    /// whose coefficient is recorded.
    pub closed spec fn wf(self) -> bool {
        &&& sorted_by_coefficient(self.literal_terms@)
        &&& self.literal_terms@.len() <= usize::MAX
        &&& sum_coefficients(self.literal_terms@) <= u64::MAX
        &&& match self.max_unassigned_position {
            Some(p) => p < self.literal_terms@.len() && self.max_unassigned_coefficient == self.literal_terms@[p as int].1,
            None => self.max_unassigned_coefficient == 0,
        }
    }

    /// Every literal after `max_position` is assigned before `order`.
    pub open spec fn assigned_after_max<E>(self, trail: Seq<AssertionInfo<E>>, order: int) -> bool {
        forall|q: int|
            0 <= q < self.terms().len() && (self.max_position() is None || q > self.max_position().unwrap())
                ==> assigned_before(trail, #[trigger] self.terms()[q].0, order)
    }

    /// What confirming the row finds (see `confirm_propagation`): a conflict
    /// when fewer than the lower bound remains reachable; otherwise, when the
    /// greatest coefficient of a possibly unassigned literal exceeds the
    /// slack, the implications of `scan_implications` below the last
    /// unassigned position.
    pub open spec fn confirmed_implications<E>(
        self,
        key: LinearPropagatorExplainKey,
        trail: Seq<AssertionInfo<E>>,
    ) -> Seq<Implication<LinearPropagatorExplainKey>> {
        if self.sup() < self.bound() {
            seq![Implication::Conflict(key)]
        } else if self.max_position() is Some && self.sup() < self.max_coefficient() + self.bound() {
            match self.confirmed_position(trail) {
                Some(p) => if self.sup() < self.terms()[p].1 + self.bound() {
                    scan_implications(self.terms(), p + 1, self.bound(), self.sup(), key, trail)
                } else {
                    Seq::empty()
                },
                None => Seq::empty(),
            }
        } else {
            Seq::empty()
        }
    }

    /// The row with its last possibly unassigned position set from scratch:
    /// the last unassigned one.
    pub closed spec fn fresh<E>(self, trail: Seq<AssertionInfo<E>>) -> LinearRow {
        match last_unassigned(self.literal_terms@, self.literal_terms@.len() as int, trail) {
            Some(p) => LinearRow {
                max_unassigned_position: Some(p as usize),
                max_unassigned_coefficient: self.literal_terms@[p].1,
                ..self
            },
            None => LinearRow { max_unassigned_position: None, max_unassigned_coefficient: 0, ..self },
        }
    }

    /// The last possibly unassigned position after confirming: moved down
    /// to the last unassigned one when the recorded one has been assigned
    /// and might have propagated.
    pub open spec fn confirmed_position<E>(self, trail: Seq<AssertionInfo<E>>) -> Option<int> {
        match self.max_position() {
            Some(p) => if self.sup() >= self.bound() && self.sup() < self.max_coefficient() + self.bound()
                && is_assigned(trail, self.terms()[p as int].0) {
                last_unassigned(self.terms(), p as int, trail)
            } else {
                Some(p as int)
            },
            None => None,
        }
    }
}

impl Constraint for LinearRow {
    closed spec fn spec_terms(&self) -> Seq<(Literal, u64)> {
        self.literal_terms@
    }

    closed spec fn spec_lower_bound(&self) -> u64 {
        self.lower_bound
    }

    fn iter_terms(&self) -> (terms: Vec<(Literal, u64)>) {
        copy_terms(&self.literal_terms)
    }

    fn lower_bound(&self) -> (lower_bound: u64) {
        self.lower_bound
    }
}

/// The literals of the terms are over the first `n` variables.
pub open spec fn terms_within(terms: Seq<(Literal, u64)>, n: nat) -> bool {
    forall|k: int| 0 <= k < terms.len() ==> (#[trigger] terms[k]).0.spec_index() < n
}

/// Checks whether the row is violated or implies literals (see
/// `confirmed_implications`), appending what it finds to `implications`,
/// and moves its last possibly unassigned position down when the recorded
/// one has been assigned (see `confirmed_position`).
fn confirm_propagation<E: Copy>(
    row_id: RowId,
    row: &mut LinearRow,
    state: &AssertionStack<E>,
    implications: &mut Vec<Implication<LinearPropagatorExplainKey>>,
)
    requires
        old(row).wf(),
        state.wf(),
        terms_within(old(row).terms(), state.spec_number_of_variables()),
        old(row).assigned_after_max(state.trail(), NULL_ORDER as int),
    ensures
        final(row).wf(),
        final(row).terms() == old(row).terms(),
        final(row).bound() == old(row).bound(),
        final(row).sup() == old(row).sup(),
        final(row).spec_is_learnt() == old(row).spec_is_learnt(),
        final(row).spec_last_involved() == old(row).spec_last_involved(),
        final(row).max_position() == match old(row).confirmed_position(state.trail()) {
            Some(p) => Some(p as usize),
            None => None::<usize>,
        },
        final(row).assigned_after_max(state.trail(), NULL_ORDER as int),
        final(implications)@ == old(implications)@ + old(row).confirmed_implications(
            LinearPropagatorExplainKey::of(row_id),
            state.trail(),
        ),
{
    let ghost trail = state.trail();
    let ghost row0 = *row;
    let ghost terms = row.literal_terms@;
    let key = LinearPropagatorExplainKey::new(row_id);
    let sup = row.sup_literal_terms;
    let lower_bound = row.lower_bound;
    if sup < lower_bound {
        implications.push(Implication::Conflict(key));
        return;
    }
    let slack = sup - lower_bound;
    let position = match row.max_unassigned_position {
        Some(p) => p,
        None => {
            proof {
                assert(implications@ =~= old(implications)@ + row0.confirmed_implications(key, trail));
            }
            return;
        },
    };
    if slack >= row.max_unassigned_coefficient {
        proof {
            assert(implications@ =~= old(implications)@ + row0.confirmed_implications(key, trail));
        }
        return;
    }
    proof {
        assert(terms[position as int].0.spec_index() < state.spec_number_of_variables());
    }
    if state.literal_state(row.literal_terms[position].0).is_assigned() {
        row.max_unassigned_position = None;
        row.max_unassigned_coefficient = 0;
        let mut k: usize = position;
        proof {
            assert(last_unassigned(terms, position as int, trail) == last_unassigned(terms, k as int, trail));
        }
        while k > 0 && row.max_unassigned_position.is_none()
            invariant
                row.literal_terms@ == terms,
                row.lower_bound == row0.lower_bound,
                row.sup_literal_terms == row0.sup_literal_terms,
                row.is_learnt == row0.is_learnt,
                row.last_involved_timestamp == row0.last_involved_timestamp,
                state.wf(),
                trail == state.trail(),
                terms_within(terms, state.spec_number_of_variables()),
                k <= position < terms.len(),
                row.max_unassigned_position is None ==> row.max_unassigned_coefficient == 0
                    && last_unassigned(terms, position as int, trail) == last_unassigned(terms, k as int, trail),
                row.max_unassigned_position is Some ==> row.max_unassigned_position.unwrap() < position
                    && row.max_unassigned_coefficient == terms[row.max_unassigned_position.unwrap() as int].1
                    && last_unassigned(terms, position as int, trail) == Some(row.max_unassigned_position.unwrap() as int),
            decreases k,
        {
            k = k - 1;
            proof {
                assert(terms[k as int].0.spec_index() < state.spec_number_of_variables());
            }
            if !state.literal_state(row.literal_terms[k].0).is_assigned() {
                row.max_unassigned_position = Some(k);
                row.max_unassigned_coefficient = row.literal_terms[k].1;
            }
        }
        proof {
            if row.max_unassigned_position is None {
                assert(k == 0);
                assert(last_unassigned(terms, 0, trail) == None::<int>);
            }
        }
    }
    let ghost row1 = *row;
    proof {
        assert(row1.max_position() == match row0.confirmed_position(trail) {
            Some(p) => Some(p as usize),
            None => None::<usize>,
        });
        lemma_last_unassigned(terms, position as int, trail);
        assert(row1.assigned_after_max(trail, NULL_ORDER as int)) by {
            assert forall|q: int|
                0 <= q < terms.len() && (row1.max_position() is None || q > row1.max_position().unwrap())
                    implies assigned_before(trail, #[trigger] terms[q].0, NULL_ORDER as int) by {
                if q <= position {
                    state.lemma_trail_bound();
                    let kk = choose|kk: int| crate::assertion_state::assigned_at(trail, terms[q].0.spec_index(), kk);
                }
            }
        }
    }
    let length = row.literal_terms.len();
    match row.max_unassigned_position {
        Some(p) => {
            if slack < row.max_unassigned_coefficient {
                proof {
                    assert(p < length);
                }
                let mut q: usize = p + 1;
                let mut scanning = true;
                while scanning && q > 0
                    invariant
                        *row == row1,
                        terms == row1.literal_terms@,
                        state.wf(),
                        trail == state.trail(),
                        terms_within(terms, state.spec_number_of_variables()),
                        q <= p + 1,
                        p < terms.len(),
                        slack == sup - lower_bound,
                        sup == row1.sup_literal_terms,
                        lower_bound == row1.lower_bound,
                        sup >= lower_bound,
                        key == LinearPropagatorExplainKey::of(row_id),
                        scanning ==> implications@ + scan_implications(terms, q as int, lower_bound, sup, key, trail)
                            == old(implications)@ + scan_implications(terms, p + 1, lower_bound, sup, key, trail),
                        scanning && q == 0 ==> implications@ == old(implications)@ + scan_implications(terms, p + 1, lower_bound, sup, key, trail),
                        !scanning ==> implications@ == old(implications)@ + scan_implications(terms, p + 1, lower_bound, sup, key, trail),
                    decreases q as int + if scanning { 1int } else { 0int },
                {
                    let (literal, coefficient) = row.literal_terms[q - 1];
                    if slack >= coefficient {
                        scanning = false;
                        proof {
                            assert(scan_implications(terms, q as int, lower_bound, sup, key, trail) =~= Seq::empty());
                            assert(implications@ =~= implications@ + Seq::<Implication<LinearPropagatorExplainKey>>::empty());
                        }
                    } else {
                        proof {
                            assert(literal.spec_index() < state.spec_number_of_variables());
                        }
                        let ghost rest = scan_implications(terms, q as int - 1, lower_bound, sup, key, trail);
                        if !state.literal_state(literal).is_assigned() {
                            implications.push(Implication::Literal(literal, key, slack, coefficient));
                            proof {
                                assert(scan_implications(terms, q as int, lower_bound, sup, key, trail) =~= seq![
                                    Implication::Literal(literal, key, slack, coefficient),
                                ] + rest);
                            }
                        } else {
                            proof {
                                assert(scan_implications(terms, q as int, lower_bound, sup, key, trail) =~= rest);
                            }
                        }
                        q = q - 1;
                    }
                }
                proof {
                    if q == 0 {
                        assert(scan_implications(terms, 0, lower_bound, sup, key, trail) =~= Seq::empty());
                    }
                    assert(implications@ =~= old(implications)@ + row0.confirmed_implications(key, trail));
                }
            } else {
                proof {
                    assert(implications@ =~= old(implications)@ + row0.confirmed_implications(key, trail));
                }
            }
        },
        None => {
            proof {
                assert(implications@ =~= old(implications)@ + row0.confirmed_implications(key, trail));
            }
        },
    }
}

/// `last_unassigned` finds an unassigned position below `count` with every
/// position between it and `count` assigned.
proof fn lemma_last_unassigned<E>(terms: Seq<(Literal, u64)>, count: int, trail: Seq<AssertionInfo<E>>)
    requires
        0 <= count <= terms.len(),
    ensures
        match last_unassigned(terms, count, trail) {
            Some(p) => 0 <= p < count && !is_assigned(trail, terms[p].0) && forall|q: int|
                p < q < count ==> is_assigned(trail, #[trigger] terms[q].0),
            None => forall|q: int| 0 <= q < count ==> is_assigned(trail, #[trigger] terms[q].0),
        },
    decreases count,
{
    if count > 0 {
        lemma_last_unassigned(terms, count - 1, trail);
    }
}

/// What an implication of a linear row with `terms`, `lower_bound` and
/// greatest reachable value `sup` claims: a conflict, that `sup` is below
/// the lower bound; an implication of `l` with slack `slack` and coefficient
/// `c`, that `(l, c)` is an unassigned term and the slack `sup - lower_bound`
/// is below `c`, so that `l` must hold.
pub open spec fn linear_sound<E>(
    implication: Implication<LinearPropagatorExplainKey>,
    key: LinearPropagatorExplainKey,
    terms: Seq<(Literal, u64)>,
    lower_bound: u64,
    sup: u64,
    trail: Seq<AssertionInfo<E>>,
) -> bool {
    match implication {
        Implication::Conflict(k) => k == key && sup < lower_bound,
        Implication::Literal(l, k, slack, c) => k == key && terms.contains((l, c)) && !is_assigned(trail, l)
            && slack == sup - lower_bound && slack < c,
    }
}

/// The implications of a scan are sound.
proof fn lemma_scan_sound<E>(
    terms: Seq<(Literal, u64)>,
    count: int,
    lower_bound: u64,
    sup: u64,
    key: LinearPropagatorExplainKey,
    trail: Seq<AssertionInfo<E>>,
)
    requires
        count <= terms.len(),
        sup >= lower_bound,
    ensures
        forall|i: int|
            0 <= i < scan_implications(terms, count, lower_bound, sup, key, trail).len() ==> linear_sound(
                #[trigger] scan_implications(terms, count, lower_bound, sup, key, trail)[i],
                key,
                terms,
                lower_bound,
                sup,
                trail,
            ),
    decreases count,
{
    if count > 0 {
        lemma_scan_sound(terms, count - 1, lower_bound, sup, key, trail);
        let all = scan_implications(terms, count, lower_bound, sup, key, trail);
        let rest = scan_implications(terms, count - 1, lower_bound, sup, key, trail);
        let t = terms[count - 1];
        if sup < t.1 + lower_bound {
            let head = if !is_assigned(trail, t.0) {
                seq![Implication::Literal(t.0, key, (sup - lower_bound) as u64, t.1)]
            } else {
                Seq::empty()
            };
            assert(all == head + rest);
            assert(terms.contains(t));
            assert forall|i: int| 0 <= i < all.len() implies linear_sound(#[trigger] all[i], key, terms, lower_bound, sup, trail) by {
                if i >= head.len() {
                    assert(all[i] == rest[i - head.len()]);
                }
            }
        }
    }
}

/// Every implication that confirming a well-formed row afresh finds is
/// sound for the row.
pub proof fn lemma_fresh_confirmed_sound<E>(row: LinearRow, key: LinearPropagatorExplainKey, trail: Seq<AssertionInfo<E>>)
    requires
        row.wf(),
    ensures
        forall|i: int|
            0 <= i < row.fresh(trail).confirmed_implications(key, trail).len() ==> linear_sound(
                #[trigger] row.fresh(trail).confirmed_implications(key, trail)[i],
                key,
                row.terms(),
                row.bound(),
                row.sup(),
                trail,
            ),
{
    lemma_last_unassigned(row.terms(), row.terms().len() as int, trail);
    let fresh = row.fresh(trail);
    assert(fresh.terms() == row.terms());
    assert(fresh.bound() == row.bound());
    assert(fresh.sup() == row.sup());
    assert(fresh.wf());
    lemma_confirmed_sound(fresh, key, trail);
}

/// Every implication a confirmation finds is sound.
pub proof fn lemma_confirmed_sound<E>(row: LinearRow, key: LinearPropagatorExplainKey, trail: Seq<AssertionInfo<E>>)
    requires
        row.wf(),
    ensures
        forall|i: int|
            0 <= i < row.confirmed_implications(key, trail).len() ==> linear_sound(
                #[trigger] row.confirmed_implications(key, trail)[i],
                key,
                row.terms(),
                row.bound(),
                row.sup(),
                trail,
            ),
{
    if row.sup() >= row.bound() && row.max_position() is Some && row.sup() < row.max_coefficient() + row.bound() {
        let p = row.max_position().unwrap();
        lemma_last_unassigned(row.terms(), p as int, trail);
        match row.confirmed_position(trail) {
            Some(p2) => {
                lemma_scan_sound(row.terms(), p2 + 1, row.bound(), row.sup(), key, trail);
            },
            None => {},
        }
    }
}

/// A scan from `count` down reaches position `q` when every coefficient from
/// `q` up exceeds the slack, and implies its literal when it is unassigned.
proof fn lemma_scan_reaches<E>(
    terms: Seq<(Literal, u64)>,
    count: int,
    lower_bound: u64,
    sup: u64,
    key: LinearPropagatorExplainKey,
    trail: Seq<AssertionInfo<E>>,
    q: int,
)
    requires
        0 <= q < count <= terms.len(),
        forall|m: int| q <= m < count ==> sup < (#[trigger] terms[m]).1 + lower_bound,
        !is_assigned(trail, terms[q].0),
    ensures
        scan_implications(terms, count, lower_bound, sup, key, trail).contains(
            Implication::Literal(terms[q].0, key, (sup - lower_bound) as u64, terms[q].1),
        ),
    decreases count,
{
    let all = scan_implications(terms, count, lower_bound, sup, key, trail);
    let rest = scan_implications(terms, count - 1, lower_bound, sup, key, trail);
    let t = terms[count - 1];
    assert(sup < t.1 + lower_bound);
    let head = if !is_assigned(trail, t.0) {
        seq![Implication::Literal(t.0, key, (sup - lower_bound) as u64, t.1)]
    } else {
        Seq::empty()
    };
    assert(all == head + rest);
    if q == count - 1 {
        assert(all[0] == Implication::Literal(terms[q].0, key, (sup - lower_bound) as u64, terms[q].1));
    } else {
        lemma_scan_reaches(terms, count - 1, lower_bound, sup, key, trail, q);
        let x = choose|x: int|
            0 <= x < rest.len() && rest[x] == Implication::Literal(terms[q].0, key, (sup - lower_bound) as u64, terms[q].1);
        assert(all[head.len() + x] == rest[x]);
    }
}

/// A confirmation finds every implication: when the row is not violated and
/// every literal after its last possibly unassigned position is assigned,
/// each unassigned literal whose coefficient exceeds the slack is implied.
pub proof fn lemma_confirmed_complete<E>(
    row: LinearRow,
    key: LinearPropagatorExplainKey,
    trail: Seq<AssertionInfo<E>>,
    q: int,
)
    requires
        row.wf(),
        trail.len() < NULL_ORDER,
        row.assigned_after_max(trail, NULL_ORDER as int),
        row.sup() >= row.bound(),
        0 <= q < row.terms().len(),
        !is_assigned(trail, row.terms()[q].0),
        row.sup() < row.terms()[q].1 + row.bound(),
    ensures
        row.confirmed_implications(key, trail).contains(
            Implication::Literal(row.terms()[q].0, key, (row.sup() - row.bound()) as u64, row.terms()[q].1),
        ),
{
    let terms = row.terms();
    assert(row.max_position() is Some) by {
        if row.max_position() is None {
            assert(assigned_before(trail, terms[q].0, NULL_ORDER as int));
        }
    }
    let p = row.max_position().unwrap() as int;
    assert(q <= p) by {
        if q > p {
            assert(assigned_before(trail, terms[q].0, NULL_ORDER as int));
        }
    }
    assert(terms[q].1 <= terms[p].1);
    lemma_last_unassigned(terms, p, trail);
    let p2 = row.confirmed_position(trail).unwrap();
    assert(q <= p2) by {
        if is_assigned(trail, terms[p].0) && row.sup() >= row.bound() && row.sup() < row.max_coefficient() + row.bound() {
            if q > p2 {
                assert(q < p);
            }
        }
    }
    assert(terms[q].1 <= terms[p2].1);
    lemma_scan_reaches(terms, p2 + 1, row.bound(), row.sup(), key, trail, q);
}

/// Removing a term takes its share out of a partial sum.
proof fn lemma_sum_where_remove(terms: Seq<(Literal, u64)>, p: spec_fn(Literal) -> bool, j: int)
    requires
        0 <= j < terms.len(),
    ensures
        sum_where(terms, p) == sum_where(terms.remove(j), p) + if p(terms[j].0) {
            terms[j].1 as int
        } else {
            0
        },
    decreases terms.len(),
{
    if j == terms.len() - 1 {
        assert(terms.remove(j) =~= terms.drop_last());
    } else {
        lemma_sum_where_remove(terms.drop_last(), p, j);
        assert(terms.remove(j).drop_last() =~= terms.drop_last().remove(j));
        assert(terms.remove(j).last() == terms.last());
    }
}

/// A predicate that holds wherever another does sums to at least as much.
proof fn lemma_where_mono(terms: Seq<(Literal, u64)>, p: spec_fn(Literal) -> bool, q: spec_fn(Literal) -> bool)
    requires
        forall|l: Literal| #[trigger] p(l) ==> q(l),
    ensures
        sum_where(terms, p) <= sum_where(terms, q),
    decreases terms.len(),
{
    if terms.len() > 0 {
        lemma_where_mono(terms.drop_last(), p, q);
    }
}

/// A longer trail leaves the left-hand side no greater a reachable value.
pub proof fn lemma_sup_extension<E>(terms: Seq<(Literal, u64)>, trail: Seq<AssertionInfo<E>>, longer: Seq<AssertionInfo<E>>)
    requires
        trail.len() <= longer.len(),
        longer.take(trail.len() as int) == trail,
    ensures
        sup_before(terms, longer, longer.len() as int) <= sup_before(terms, trail, trail.len() as int),
{
    let n = trail.len() as int;
    assert forall|l: Literal| #[trigger] false_before(trail, l, n) implies false_before(longer, l, longer.len() as int) by {
        let k = choose|k: int| 0 <= k < trail.len() && k < n && #[trigger] trail[k].predicate.spec_literal() == l.negated();
        assert(longer[k] == longer.take(n)[k]);
        assert(longer[k].predicate.spec_literal() == l.negated());
    }
    lemma_where_mono(
        terms,
        |l: Literal| !false_before(longer, l, longer.len() as int),
        |l: Literal| !false_before(trail, l, n),
    );
}

/// Partial sums depend only on the terms counted with multiplicity.
pub proof fn lemma_sum_where_permutation(s: Seq<(Literal, u64)>, t: Seq<(Literal, u64)>, p: spec_fn(Literal) -> bool)
    requires
        s.to_multiset() == t.to_multiset(),
    ensures
        sum_where(s, p) == sum_where(t, p),
    decreases s.len(),
{
    broadcast use vstd::multiset::group_multiset_axioms;

    vstd::seq_lib::to_multiset_len(s);
    vstd::seq_lib::to_multiset_len(t);
    if s.len() > 0 {
        let x = s.last();
        vstd::seq_lib::to_multiset_contains(s, x);
        vstd::seq_lib::to_multiset_contains(t, x);
        assert(s.contains(x)) by {
            assert(s[s.len() - 1] == x);
        }
        let j = choose|j: int| 0 <= j < t.len() && t[j] == x;
        vstd::seq_lib::to_multiset_remove(t, j);
        assert(s.drop_last().push(x) =~= s);
        vstd::seq_lib::to_multiset_build(s.drop_last(), x);
        assert(s.drop_last().to_multiset() =~= s.to_multiset().remove(x));
        lemma_sum_where_permutation(s.drop_last(), t.remove(j), p);
        lemma_sum_where_remove(t, p, j);
    }
}

/// The sum of all coefficients is the partial sum over every literal.
proof fn lemma_sum_coefficients_where(terms: Seq<(Literal, u64)>)
    ensures
        sum_coefficients(terms) == sum_where(terms, |l: Literal| true),
    decreases terms.len(),
{
    if terms.len() > 0 {
        lemma_sum_coefficients_where(terms.drop_last());
    }
}

/// The column items `(row_id, q, coefficient)` of the positions `q < count`
/// whose literal has bits `b`, in order.
pub open spec fn added_items(terms: Seq<(Literal, u64)>, count: nat, row_id: RowId, b: int) -> Seq<(RowId, usize, u64)>
    decreases count,
{
    if count == 0 {
        Seq::empty()
    } else {
        let rest = added_items(terms, (count - 1) as nat, row_id, b);
        if terms[count - 1].0.spec_bits() == b {
            rest.push((row_id, (count - 1) as usize, terms[count - 1].1))
        } else {
            rest
        }
    }
}

/// The items of `added_items` name `row_id`, come in increasing position
/// order, and are exactly the positions below `count` with literal bits `b`.
proof fn lemma_added_items(terms: Seq<(Literal, u64)>, count: nat, row_id: RowId, b: int)
    requires
        count <= terms.len(),
        count <= usize::MAX,
    ensures
        forall|k: int|
            0 <= k < added_items(terms, count, row_id, b).len() ==> {
                let item = #[trigger] added_items(terms, count, row_id, b)[k];
                &&& item.0 == row_id
                &&& item.1 < count
                &&& terms[item.1 as int].0.spec_bits() == b
                &&& terms[item.1 as int].1 == item.2
            },
        forall|i: int, j: int|
            0 <= i < j < added_items(terms, count, row_id, b).len() ==> (#[trigger] added_items(
                terms,
                count,
                row_id,
                b,
            )[i]).1 < (#[trigger] added_items(terms, count, row_id, b)[j]).1,
        forall|q: int|
            0 <= q < count && (#[trigger] terms[q]).0.spec_bits() == b ==> added_items(terms, count, row_id, b).contains(
                (row_id, q as usize, terms[q].1),
            ),
    decreases count,
{
    if count > 0 {
        lemma_added_items(terms, (count - 1) as nat, row_id, b);
        let all = added_items(terms, count, row_id, b);
        let earlier = added_items(terms, (count - 1) as nat, row_id, b);
        assert forall|k: int| 0 <= k < earlier.len() implies #[trigger] all[k] == earlier[k] by {}
        assert forall|k: int| 0 <= k < all.len() implies {
            let item = #[trigger] all[k];
            &&& item.0 == row_id
            &&& item.1 < count
            &&& terms[item.1 as int].0.spec_bits() == b
            &&& terms[item.1 as int].1 == item.2
        } by {
            if k < earlier.len() {
                assert(all[k] == earlier[k]);
            }
        }
        assert forall|i: int, j: int| 0 <= i < j < all.len() implies (#[trigger] all[i]).1 < (#[trigger] all[j]).1 by {
            assert(all[i] == earlier[i]);
            if j < earlier.len() {
                assert(all[j] == earlier[j]);
            }
        }
        assert forall|q: int| 0 <= q < count && (#[trigger] terms[q]).0.spec_bits() == b implies all.contains(
            (row_id, q as usize, terms[q].1),
        ) by {
            if q < count - 1 {
                let x = choose|x: int| 0 <= x < earlier.len() && earlier[x] == (row_id, q as usize, terms[q].1);
                assert(all[x] == earlier[x]);
            } else {
                assert(all[all.len() - 1] == (row_id, q as usize, terms[q].1));
            }
        }
    }
}

/// The item `item`, found in the column of the literal with bits `b`, names
/// a row whose term at its position has that literal and its coefficient.
pub open spec fn item_valid(slots: Seq<Option<LinearRow>>, item: (RowId, usize, u64), b: int) -> bool {
    let i = item.0.spec_index() as int;
    &&& 0 <= i < slots.len()
    &&& slots[i] is Some
    &&& item.1 < slots[i].unwrap().terms().len()
    &&& slots[i].unwrap().terms()[item.1 as int].0.spec_bits() == b
    &&& slots[i].unwrap().terms()[item.1 as int].1 == item.2
}

/// The greatest value the left-hand side of `terms` can take over every
/// assertion of `state`.
fn sup_over<E: Copy>(terms: &Vec<(Literal, u64)>, state: &AssertionStack<E>) -> (sup: u64)
    requires
        state.wf(),
        terms_within(terms@, state.spec_number_of_variables()),
        sum_coefficients(terms@) <= u64::MAX,
    ensures
        sup == sup_before(terms@, state.trail(), NULL_ORDER as int),
{
    let ghost p = |l: Literal| !false_before(state.trail(), l, NULL_ORDER as int);
    let mut sup: u64 = 0;
    let mut k: usize = 0;
    while k < terms.len()
        invariant
            state.wf(),
            terms_within(terms@, state.spec_number_of_variables()),
            sum_coefficients(terms@) <= u64::MAX,
            k <= terms@.len(),
            sup == sum_where(terms@.subrange(0, k as int), p),
            p == (|l: Literal| !false_before(state.trail(), l, NULL_ORDER as int)),
        decreases terms@.len() - k,
    {
        let (literal, coefficient) = terms[k];
        proof {
            lemma_sum_where_step(terms@, p, k as int);
            lemma_sum_where_bounds(terms@.subrange(0, k as int + 1), p);
            crate::constraint::lemma_sum_prefix(terms@, k as int + 1);
        }
        if !state.literal_state(literal).is_false() {
            sup = sup + coefficient;
        }
        k = k + 1;
    }
    proof {
        assert(terms@.subrange(0, terms@.len() as int) =~= terms@);
    }
    sup
}

/// The last position of `terms` whose literal is unassigned in `state`.
fn find_last_unassigned<E: Copy>(terms: &Vec<(Literal, u64)>, state: &AssertionStack<E>) -> (position: Option<usize>)
    requires
        state.wf(),
        terms_within(terms@, state.spec_number_of_variables()),
    ensures
        match position {
            Some(p) => last_unassigned(terms@, terms@.len() as int, state.trail()) == Some(p as int),
            None => last_unassigned(terms@, terms@.len() as int, state.trail()) == None::<int>,
        },
{
    let mut k: usize = terms.len();
    while k > 0
        invariant
            state.wf(),
            terms_within(terms@, state.spec_number_of_variables()),
            k <= terms@.len(),
            last_unassigned(terms@, terms@.len() as int, state.trail()) == last_unassigned(terms@, k as int, state.trail()),
        decreases k,
    {
        if !state.literal_state(terms[k - 1].0).is_assigned() {
            return Some(k - 1);
        }
        k = k - 1;
    }
    None
}

/// The positions of the terms whose literal is `x`.
pub open spec fn positions_of(terms: Seq<(Literal, u64)>, x: Literal) -> Set<int> {
    Set::new(|q: int| 0 <= q < terms.len() && terms[q].0 == x)
}

/// The sum of the coefficients at the positions in `s`.
pub open spec fn sum_at(terms: Seq<(Literal, u64)>, s: Set<int>) -> int
    decreases terms.len(),
{
    if terms.len() == 0 {
        0
    } else {
        sum_at(terms.drop_last(), s) + if s.contains(terms.len() - 1) {
            terms.last().1 as int
        } else {
            0
        }
    }
}

/// There is nothing to sum over no position.
proof fn lemma_sum_at_empty(terms: Seq<(Literal, u64)>)
    ensures
        sum_at(terms, Set::empty()) == 0,
    decreases terms.len(),
{
    if terms.len() > 0 {
        lemma_sum_at_empty(terms.drop_last());
    }
}

/// `sum_at` only looks at the positions of the terms, and adding a position
/// adds its coefficient.
proof fn lemma_sum_at(terms: Seq<(Literal, u64)>, s: Set<int>, t: Set<int>)
    ensures
        (forall|q: int| 0 <= q < terms.len() ==> (s.contains(q) <==> t.contains(q))) ==> sum_at(terms, s) == sum_at(terms, t),
        (forall|q: int| 0 <= q < terms.len() && s.contains(q) ==> t.contains(q)) ==> 0 <= sum_at(terms, s) <= sum_at(terms, t),
    decreases terms.len(),
{
    if terms.len() > 0 {
        lemma_sum_at(terms.drop_last(), s, t);
    }
}

/// Adding a new position adds its coefficient.
proof fn lemma_sum_at_insert(terms: Seq<(Literal, u64)>, s: Set<int>, q: int)
    requires
        0 <= q < terms.len(),
        !s.contains(q),
    ensures
        sum_at(terms, s.insert(q)) == sum_at(terms, s) + terms[q].1,
    decreases terms.len(),
{
    if q < terms.len() - 1 {
        lemma_sum_at_insert(terms.drop_last(), s, q);
    } else {
        lemma_sum_at(terms.drop_last(), s.insert(q), s);
    }
}

/// The sum over the positions of `x` is the partial sum over `x`.
proof fn lemma_sum_at_positions(terms: Seq<(Literal, u64)>, x: Literal)
    ensures
        sum_at(terms, positions_of(terms, x)) == sum_where(terms, |l: Literal| l == x),
    decreases terms.len(),
{
    if terms.len() > 0 {
        let rest = terms.drop_last();
        lemma_sum_at_positions(rest, x);
        lemma_sum_at(rest, positions_of(terms, x), positions_of(rest, x));
    }
}

/// The positions of the items among the first `k` of `column` that name the
/// row in slot `i`.
pub open spec fn done_positions(column: Seq<(RowId, usize, u64)>, k: int, i: int) -> Set<int> {
    Set::new(|q: int| exists|m: int| 0 <= m < k && (#[trigger] column[m]).0.spec_index() == i && column[m].1 == q)
}

/// The row is confirmed in `implications`: a violated row has reported a
/// conflict, and otherwise each unassigned literal whose coefficient exceeds
/// the slack has been implied with that slack.
pub open spec fn confirmed<E>(
    row: LinearRow,
    key: LinearPropagatorExplainKey,
    implications: Seq<Implication<LinearPropagatorExplainKey>>,
    trail: Seq<AssertionInfo<E>>,
) -> bool {
    &&& row.sup() < row.bound() ==> implications.contains(Implication::Conflict(key))
    &&& row.sup() >= row.bound() ==> forall|q: int|
        0 <= q < row.terms().len() && !is_assigned(trail, #[trigger] row.terms()[q].0) && row.sup() < row.terms()[q].1
            + row.bound() ==> implications.contains(
            Implication::Literal(row.terms()[q].0, key, (row.sup() - row.bound()) as u64, row.terms()[q].1),
        )
}

/// The implication is sound for the row behind its key: a conflict, that
/// the row is violated; an implication of `l` with slack `slack` and
/// coefficient `c`, that `(l, c)` is an unassigned term of the row and its
/// slack is at most `slack`, below `c`.
pub open spec fn linear_sound_in<E>(
    rows: Seq<Option<LinearRow>>,
    implication: Implication<LinearPropagatorExplainKey>,
    trail: Seq<AssertionInfo<E>>,
) -> bool {
    let key = match implication {
        Implication::Conflict(k) => k,
        Implication::Literal(_, k, _, _) => k,
    };
    let i = key.spec_row_id().spec_index() as int;
    &&& 0 <= i < rows.len()
    &&& rows[i] is Some
    &&& match implication {
        Implication::Conflict(_) => rows[i].unwrap().sup() < rows[i].unwrap().bound(),
        Implication::Literal(l, _, slack, c) => rows[i].unwrap().terms().contains((l, c)) && !is_assigned(trail, l)
            && rows[i].unwrap().sup() - rows[i].unwrap().bound() <= slack < c,
    }
}

/// The rows of `rows` are those of `old_rows`, the ones behind the first
/// `k` keys stamped with `stamp`.
pub open spec fn stamped(
    old_rows: Seq<Option<LinearRow>>,
    rows: Seq<Option<LinearRow>>,
    keys: Seq<LinearPropagatorExplainKey>,
    k: int,
    stamp: usize,
) -> bool {
    forall|i: int|
        0 <= i < rows.len() && #[trigger] rows[i] is Some ==> {
            let row = rows[i].unwrap();
            let before = old_rows[i].unwrap();
            &&& row.terms() == before.terms()
            &&& row.bound() == before.bound()
            &&& row.sup() == before.sup()
            &&& row.max_position() == before.max_position()
            &&& row.max_coefficient() == before.max_coefficient()
            &&& row.spec_is_learnt() == before.spec_is_learnt()
            &&& row.spec_last_involved() == if exists|j: int|
                0 <= j < k && (#[trigger] keys[j]).spec_row_id().spec_index() == i {
                stamp
            } else {
                before.spec_last_involved()
            }
        }
}

/// Stamping the row behind the key at `k` extends `stamped` by one key.
proof fn lemma_stamp_step(
    old_rows: Seq<Option<LinearRow>>,
    rows0: Seq<Option<LinearRow>>,
    rows: Seq<Option<LinearRow>>,
    keys: Seq<LinearPropagatorExplainKey>,
    k: int,
    stamp: usize,
)
    requires
        0 <= k < keys.len(),
        rows0.len() == old_rows.len(),
        forall|i: int| 0 <= i < rows0.len() ==> (#[trigger] rows0[i]) is Some == old_rows[i] is Some,
        keys[k].spec_row_id().spec_index() < rows0.len(),
        rows0[keys[k].spec_row_id().spec_index() as int] is Some,
        stamped(old_rows, rows0, keys, k, stamp),
        rows == rows0.update(
            keys[k].spec_row_id().spec_index() as int,
            Some(
                LinearRow {
                    last_involved_timestamp: stamp,
                    ..rows0[keys[k].spec_row_id().spec_index() as int].unwrap()
                },
            ),
        ),
    ensures
        stamped(old_rows, rows, keys, k + 1, stamp),
{
    let r = keys[k].spec_row_id().spec_index() as int;
    assert forall|i: int| 0 <= i < rows.len() && #[trigger] rows[i] is Some implies {
        let row = rows[i].unwrap();
        let before = old_rows[i].unwrap();
        &&& row.terms() == before.terms()
        &&& row.bound() == before.bound()
        &&& row.sup() == before.sup()
        &&& row.max_position() == before.max_position()
        &&& row.max_coefficient() == before.max_coefficient()
        &&& row.spec_is_learnt() == before.spec_is_learnt()
        &&& row.spec_last_involved() == if exists|j: int|
            0 <= j < k + 1 && (#[trigger] keys[j]).spec_row_id().spec_index() == i {
            stamp
        } else {
            before.spec_last_involved()
        }
    } by {
        assert(rows0[i] is Some);
        if i == r {
            assert(keys[k].spec_row_id().spec_index() == i);
        } else {
            assert(rows[i] == rows0[i]);
            if exists|j: int| 0 <= j < k + 1 && (#[trigger] keys[j]).spec_row_id().spec_index() == i {
                let j = choose|j: int| 0 <= j < k + 1 && (#[trigger] keys[j]).spec_row_id().spec_index() == i;
                assert(j < k);
            }
        }
    }
}


/// The items of `items` whose row is not one of `row_ids`, in order.
pub open spec fn items_kept(items: Seq<(RowId, usize, u64)>, row_ids: Seq<RowId>) -> Seq<(RowId, usize, u64)>
    decreases items.len(),
{
    if items.len() == 0 {
        Seq::empty()
    } else {
        let rest = items_kept(items.drop_last(), row_ids);
        if is_removed(row_ids, items.last().0.spec_index() as int) {
            rest
        } else {
            rest.push(items.last())
        }
    }
}

/// The kept items are those whose row is not removed, each as often as
/// before.
proof fn lemma_items_kept(items: Seq<(RowId, usize, u64)>, row_ids: Seq<RowId>)
    ensures
        forall|x: (RowId, usize, u64)|
            #[trigger] items_kept(items, row_ids).contains(x) <==> (items.contains(x) && !is_removed(
                row_ids,
                x.0.spec_index() as int,
            )),
        items.no_duplicates() ==> items_kept(items, row_ids).no_duplicates(),
    decreases items.len(),
{
    broadcast use vstd::seq_lib::group_seq_properties;

    if items.len() > 0 {
        let rest = items.drop_last();
        let last = items.last();
        lemma_items_kept(rest, row_ids);
        assert(items =~= rest.push(last));
        let kept_rest = items_kept(rest, row_ids);
        if items.no_duplicates() && !is_removed(row_ids, last.0.spec_index() as int) {
            assert(!rest.contains(last)) by {
                if rest.contains(last) {
                    let k = choose|k: int| 0 <= k < rest.len() && rest[k] == last;
                    assert(items[k] == items[items.len() - 1]);
                }
            }
            assert(!kept_rest.contains(last));
        }
    }
}

/// The items of `column` whose row is not among the removed.
fn keep_items(column: &Vec<(RowId, usize, u64)>, removed: &FxHashSet<usize>, Ghost(row_ids): Ghost<Seq<RowId>>) -> (kept: Vec<
    (RowId, usize, u64),
>)
    requires
        forall|i: usize| #[trigger] removed@.contains(i) <==> is_removed(row_ids, i as int),
    ensures
        kept@ == items_kept(column@, row_ids),
{
    let mut kept: Vec<(RowId, usize, u64)> = Vec::new();
    let mut k: usize = 0;
    while k < column.len()
        invariant
            k <= column@.len(),
            forall|i: usize| #[trigger] removed@.contains(i) <==> is_removed(row_ids, i as int),
            kept@ == items_kept(column@.take(k as int), row_ids),
        decreases column@.len() - k,
    {
        proof {
            assert(column@.take(k as int + 1).drop_last() =~= column@.take(k as int));
        }
        let i = column[k].0.index();
        let removed_row = contains_index(removed, i);
        if !removed_row {
            kept.push(column[k]);
        }
        k = k + 1;
    }
    proof {
        assert(column@.take(column@.len() as int) =~= column@);
    }
    kept
}

/// `b` holds the rows of `a` with their terms, bounds, flags and
/// timestamps, greatest reachable values no larger.
pub open spec fn rows_lowered(a: Seq<Option<LinearRow>>, b: Seq<Option<LinearRow>>) -> bool {
    &&& a.len() == b.len()
    &&& forall|i: int| 0 <= i < a.len() ==> (#[trigger] b[i] is Some) == (a[i] is Some)
    &&& forall|i: int|
        0 <= i < a.len() && #[trigger] b[i] is Some ==> {
            let x = a[i].unwrap();
            let y = b[i].unwrap();
            &&& y.terms() == x.terms()
            &&& y.bound() == x.bound()
            &&& y.spec_is_learnt() == x.spec_is_learnt()
            &&& y.spec_last_involved() == x.spec_last_involved()
            &&& y.sup() <= x.sup()
        }
}

/// Soundness survives lowering the greatest reachable values.
proof fn lemma_sound_lowered<E>(
    a: Seq<Option<LinearRow>>,
    b: Seq<Option<LinearRow>>,
    implication: Implication<LinearPropagatorExplainKey>,
    trail: Seq<AssertionInfo<E>>,
)
    requires
        rows_lowered(a, b),
        linear_sound_in(a, implication, trail),
    ensures
        linear_sound_in(b, implication, trail),
{
    let key = match implication {
        Implication::Conflict(k) => k,
        Implication::Literal(_, k, _, _) => k,
    };
    let i = key.spec_row_id().spec_index() as int;
    assert(b[i] is Some);
}

/// Lowering is transitive.
proof fn lemma_rows_lowered_trans(a: Seq<Option<LinearRow>>, b: Seq<Option<LinearRow>>, c: Seq<Option<LinearRow>>)
    requires
        rows_lowered(a, b),
        rows_lowered(b, c),
    ensures
        rows_lowered(a, c),
{
    assert forall|i: int| 0 <= i < a.len() implies (#[trigger] c[i] is Some) == (a[i] is Some) by {
        assert(b[i] is Some == a[i] is Some);
    }
    assert forall|i: int| 0 <= i < a.len() && #[trigger] c[i] is Some implies {
        let x = a[i].unwrap();
        let y = c[i].unwrap();
        &&& y.terms() == x.terms()
        &&& y.bound() == x.bound()
        &&& y.spec_is_learnt() == x.spec_is_learnt()
        &&& y.spec_last_involved() == x.spec_last_involved()
        &&& y.sup() <= x.sup()
    } by {
        assert(b[i] is Some);
    }
}

/// Reflecting the assertion at `order` of `literal` lowers the greatest
/// reachable value by the coefficients of the negation's terms.
proof fn lemma_sup_step<E: Copy>(terms: Seq<(Literal, u64)>, state: AssertionStack<E>, order: int, literal: Literal)
    requires
        state.wf(),
        0 <= order < state.trail().len(),
        state.trail()[order].predicate.spec_literal() == literal,
    ensures
        sup_before(terms, state.trail(), order) == sup_before(terms, state.trail(), order + 1) + sum_at(
            terms,
            positions_of(terms, literal.negated()),
        ),
        sup_before(terms, state.trail(), order + 1) >= 0,
{
    broadcast use Literal::lemma_negated;
    broadcast use Literal::lemma_bits_determine;

    let trail = state.trail();
    let n = literal.negated();
    let p_old = |l: Literal| !false_before(trail, l, order);
    let p_new = |l: Literal| !false_before(trail, l, order + 1);
    let eq = |l: Literal| l == n;
    assert forall|l: Literal| #[trigger] p_old(l) == (p_new(l) || eq(l)) by {
        literal.lemma_negated();
        if l == n {
            assert(l.negated() == literal);
            assert(!false_before(trail, l, order)) by {
                if false_before(trail, l, order) {
                    let k = choose|k: int| 0 <= k < trail.len() && k < order && #[trigger] trail[k].predicate.spec_literal() == l.negated();
                    assert(crate::assertion_state::assigned_at(trail, literal.spec_index(), k));
                    assert(crate::assertion_state::assigned_at(trail, literal.spec_index(), order));
                    state.lemma_assigned_once(literal.spec_index(), order);
                }
            }
            assert(false_before(trail, l, order + 1));
        } else {
            if false_before(trail, l, order + 1) && !false_before(trail, l, order) {
                let k = choose|k: int| 0 <= k < trail.len() && k < order + 1 && #[trigger] trail[k].predicate.spec_literal() == l.negated();
                assert(k == order);
                assert(l.negated() == literal);
                l.lemma_negated();
                assert(l == literal.negated());
            }
        }
    }
    assert forall|l: Literal| !(#[trigger] p_new(l) && eq(l)) by {
        if eq(l) {
            literal.lemma_negated();
            assert(l.negated() == literal);
            assert(trail[order].predicate.spec_literal() == l.negated());
        }
    }
    crate::constraint::lemma_where_split(terms, p_old, p_new, eq);
    lemma_sum_at_positions(terms, n);
    lemma_sum_where_bounds(terms, p_new);
}

/// A confirmed row stays confirmed when implications are appended.
proof fn lemma_confirmed_grow<E>(
    row: LinearRow,
    key: LinearPropagatorExplainKey,
    before: Seq<Implication<LinearPropagatorExplainKey>>,
    after: Seq<Implication<LinearPropagatorExplainKey>>,
    trail: Seq<AssertionInfo<E>>,
)
    requires
        before.len() <= after.len(),
        after.take(before.len() as int) == before,
        confirmed(row, key, before, trail),
    ensures
        confirmed(row, key, after, trail),
{
    if row.sup() < row.bound() {
        let x = choose|x: int| 0 <= x < before.len() && before[x] == Implication::Conflict(key);
        assert(after[x] == after.take(before.len() as int)[x]);
    } else {
        assert forall|q: int|
            0 <= q < row.terms().len() && !is_assigned(trail, #[trigger] row.terms()[q].0) && row.sup() < row.terms()[q].1
                + row.bound() implies after.contains(
            Implication::Literal(row.terms()[q].0, key, (row.sup() - row.bound()) as u64, row.terms()[q].1),
        ) by {
            let x = choose|x: int| 0 <= x < before.len() && before[x] == Implication::Literal(
                row.terms()[q].0,
                key,
                (row.sup() - row.bound()) as u64,
                row.terms()[q].1,
            );
            assert(after[x] == after.take(before.len() as int)[x]);
        }
    }
}

/// What holds of the row in slot `j` while the first `k` items of the
/// negation's column are reflected.
pub open spec fn reflecting<E>(
    slots: Seq<Option<LinearRow>>,
    rows0: Seq<Option<LinearRow>>,
    j: int,
    column: Seq<(RowId, usize, u64)>,
    k: int,
    implications: Seq<Implication<LinearPropagatorExplainKey>>,
    trail: Seq<AssertionInfo<E>>,
    o: int,
) -> bool {
    let r = slots[j].unwrap();
    &&& r.wf()
    &&& r.sup() == sup_before(r.terms(), trail, o) - sum_at(r.terms(), done_positions(column, k, j))
    &&& r.assigned_after_max(trail, NULL_ORDER as int)
    &&& if exists|m: int| 0 <= m < k && (#[trigger] column[m]).0.spec_index() == j {
        confirmed(r, LinearPropagatorExplainKey::of(RowId::of(j as usize)), implications, trail)
    } else {
        slots[j] == rows0[j]
    }
}

/// Reflecting the item of slot `i` leaves what holds of the other rows.
proof fn lemma_reflect_others<E>(
    slots1: Seq<Option<LinearRow>>,
    slots: Seq<Option<LinearRow>>,
    rows0: Seq<Option<LinearRow>>,
    i: int,
    column: Seq<(RowId, usize, u64)>,
    k: int,
    implications1: Seq<Implication<LinearPropagatorExplainKey>>,
    implications: Seq<Implication<LinearPropagatorExplainKey>>,
    trail: Seq<AssertionInfo<E>>,
    o: int,
    j: int,
)
    requires
        0 <= i < slots1.len(),
        slots == slots1.update(i, slots[i]),
        1 <= k <= column.len(),
        column[k - 1].0.spec_index() == i,
        implications1.len() <= implications.len(),
        implications.take(implications1.len() as int) == implications1,
        0 <= j < slots1.len(),
        j != i,
        slots1[j] is Some,
        reflecting(slots1, rows0, j, column, k - 1, implications1, trail, o),
    ensures
        reflecting(slots, rows0, j, column, k, implications, trail, o),
{
    assert(slots[j] == slots1[j]);
    assert(done_positions(column, k, j) =~= done_positions(column, k - 1, j));
    if exists|m: int| 0 <= m < k && (#[trigger] column[m]).0.spec_index() == j {
        let m = choose|m: int| 0 <= m < k && (#[trigger] column[m]).0.spec_index() == j;
        assert(m < k - 1);
        lemma_confirmed_grow(slots1[j].unwrap(), LinearPropagatorExplainKey::of(RowId::of(j as usize)), implications1, implications, trail);
    } else {
        assert(!exists|m: int| 0 <= m < k - 1 && (#[trigger] column[m]).0.spec_index() == j);
    }
}

/// Reflecting the item of slot `i`, whose row becomes `slots[i]` after
/// confirming `before`, keeps what holds of every row and implication.
#[verifier::rlimit(50)]
proof fn lemma_reflect_step<E>(
    slots1: Seq<Option<LinearRow>>,
    slots: Seq<Option<LinearRow>>,
    rows0: Seq<Option<LinearRow>>,
    i: int,
    column: Seq<(RowId, usize, u64)>,
    k: int,
    implications1: Seq<Implication<LinearPropagatorExplainKey>>,
    implications: Seq<Implication<LinearPropagatorExplainKey>>,
    trail: Seq<AssertionInfo<E>>,
    o: int,
    before: LinearRow,
    initial: Seq<Implication<LinearPropagatorExplainKey>>,
)
    requires
        0 <= i < slots1.len(),
        i <= usize::MAX,
        rows0.len() == slots1.len(),
        slots1[i] is Some,
        slots == slots1.update(i, slots[i]),
        slots[i] is Some,
        1 <= k <= column.len(),
        column[k - 1].0.spec_index() == i,
        trail.len() < NULL_ORDER,
        before.wf(),
        before.assigned_after_max(trail, NULL_ORDER as int),
        before.terms() == slots1[i].unwrap().terms(),
        before.bound() == slots1[i].unwrap().bound(),
        before.sup() <= slots1[i].unwrap().sup(),
        ({
            let row = slots[i].unwrap();
            &&& row.wf()
            &&& row.assigned_after_max(trail, NULL_ORDER as int)
            &&& row.terms() == before.terms()
            &&& row.bound() == before.bound()
            &&& row.sup() == before.sup()
            &&& row.spec_is_learnt() == slots1[i].unwrap().spec_is_learnt()
            &&& row.spec_last_involved() == slots1[i].unwrap().spec_last_involved()
            &&& row.sup() == sup_before(row.terms(), trail, o) - sum_at(row.terms(), done_positions(column, k, i))
        }),
        implications == implications1 + before.confirmed_implications(LinearPropagatorExplainKey::of(RowId::of(i as usize)), trail),
        forall|j: int|
            0 <= j < rows0.len() && (#[trigger] slots1[j]) is Some ==> reflecting(slots1, rows0, j, column, k - 1, implications1, trail, o),
        forall|m: int| 0 <= m < implications1.len() ==> linear_sound_in(slots1, #[trigger] implications1[m], trail),
        rows_lowered(rows0, slots1),
        initial.len() <= implications1.len(),
        implications1.take(initial.len() as int) == initial,
    ensures
        forall|j: int|
            0 <= j < rows0.len() && (#[trigger] slots[j]) is Some ==> reflecting(slots, rows0, j, column, k, implications, trail, o),
        forall|m: int| 0 <= m < implications.len() ==> linear_sound_in(slots, #[trigger] implications[m], trail),
        rows_lowered(rows0, slots),
        initial.len() <= implications.len(),
        implications.take(initial.len() as int) == initial,
{
    broadcast use {RowId::lemma_of, RowId::lemma_index};
    broadcast use LinearPropagatorExplainKey::lemma_of;

    let row = slots[i].unwrap();
    let key = LinearPropagatorExplainKey::of(RowId::of(i as usize));
    let found = before.confirmed_implications(key, trail);
    assert(implications.take(implications1.len() as int) =~= implications1);
    // The row is confirmed.
    assert(confirmed(row, key, implications, trail)) by {
        if row.sup() >= row.bound() {
            assert forall|q: int|
                0 <= q < row.terms().len() && !is_assigned(trail, #[trigger] row.terms()[q].0) && row.sup() < row.terms()[q].1
                    + row.bound() implies implications.contains(
                Implication::Literal(row.terms()[q].0, key, (row.sup() - row.bound()) as u64, row.terms()[q].1),
            ) by {
                lemma_confirmed_complete(before, key, trail, q);
                let x = choose|x: int|
                    0 <= x < found.len() && found[x] == Implication::Literal(
                        row.terms()[q].0,
                        key,
                        (row.sup() - row.bound()) as u64,
                        row.terms()[q].1,
                    );
                assert(implications[implications1.len() + x] == found[x]);
            }
        } else {
            assert(implications[implications1.len() as int] == Implication::Conflict(key));
        }
    }
    assert(reflecting(slots, rows0, i, column, k, implications, trail, o)) by {
        assert(column[k - 1].0.spec_index() == i);
    }
    assert forall|j: int| 0 <= j < rows0.len() && (#[trigger] slots[j]) is Some implies reflecting(
        slots,
        rows0,
        j,
        column,
        k,
        implications,
        trail,
        o,
    ) by {
        if j != i {
            assert(slots1[j] is Some);
            lemma_reflect_others(slots1, slots, rows0, i, column, k, implications1, implications, trail, o, j);
        }
    }
    lemma_confirmed_sound(before, key, trail);
    assert(rows_lowered(slots1, slots)) by {
        assert forall|j: int| 0 <= j < slots1.len() && #[trigger] slots[j] is Some implies {
            let x = slots1[j].unwrap();
            let y = slots[j].unwrap();
            &&& y.terms() == x.terms()
            &&& y.bound() == x.bound()
            &&& y.spec_is_learnt() == x.spec_is_learnt()
            &&& y.spec_last_involved() == x.spec_last_involved()
            &&& y.sup() <= x.sup()
        } by {
            if j != i {
                assert(slots[j] == slots1[j]);
            }
        }
    }
    lemma_rows_lowered_trans(rows0, slots1, slots);
    assert forall|m: int| 0 <= m < implications.len() implies linear_sound_in(slots, #[trigger] implications[m], trail) by {
        if m < implications1.len() {
            assert(implications[m] == implications1[m]);
            lemma_sound_lowered(slots1, slots, implications1[m], trail);
        } else {
            assert(implications[m] == found[m - implications1.len()]);
            assert(linear_sound(implications[m], key, before.terms(), before.bound(), before.sup(), trail));
            assert(key.spec_row_id().spec_index() == i);
        }
    }
    assert(implications.take(initial.len() as int) =~= initial) by {
        assert forall|m: int| 0 <= m < initial.len() implies implications[m] == initial[m] by {
            assert(implications[m] == implications1[m]);
            assert(implications1.take(initial.len() as int)[m] == initial[m]);
        }
    }
}

/// `b` holds the rows of `a` with their terms, bounds, flags and
/// timestamps.
pub open spec fn rows_kept(a: Seq<Option<LinearRow>>, b: Seq<Option<LinearRow>>) -> bool {
    &&& a.len() == b.len()
    &&& forall|i: int| 0 <= i < a.len() ==> (#[trigger] b[i] is Some) == (a[i] is Some)
    &&& forall|i: int|
        0 <= i < a.len() && #[trigger] b[i] is Some ==> {
            let x = a[i].unwrap();
            let y = b[i].unwrap();
            &&& y.terms() == x.terms()
            &&& y.bound() == x.bound()
            &&& y.spec_is_learnt() == x.spec_is_learnt()
            &&& y.spec_last_involved() == x.spec_last_involved()
        }
}

/// A literal on the variable of `l` is `l` or its negation.
proof fn lemma_same_variable(l: Literal, x: Literal)
    requires
        x.spec_index() == l.spec_index(),
    ensures
        x == l || x == l.negated(),
{
    broadcast use Literal::lemma_negated;
    broadcast use Literal::lemma_bits_determine;

    l.lemma_negated();
    if x.spec_value() == l.spec_value() {
        assert(x.spec_bits() == l.spec_bits());
    } else {
        assert(x.spec_bits() == l.negated().spec_bits());
    }
}

/// What holds of the row in slot `j` while the first `k` items of the
/// negation's column are retracted: they raise its greatest reachable
/// value back and its last possibly unassigned position up to them.
pub open spec fn raising<E>(
    slots: Seq<Option<LinearRow>>,
    rows0: Seq<Option<LinearRow>>,
    j: int,
    column: Seq<(RowId, usize, u64)>,
    k: int,
    trail: Seq<AssertionInfo<E>>,
    o: int,
) -> bool {
    let r = slots[j].unwrap();
    &&& r.wf()
    &&& r.terms() == rows0[j].unwrap().terms()
    &&& r.bound() == rows0[j].unwrap().bound()
    &&& r.spec_is_learnt() == rows0[j].unwrap().spec_is_learnt()
    &&& r.spec_last_involved() == rows0[j].unwrap().spec_last_involved()
    &&& r.sup() == sup_before(r.terms(), trail, o + 1) + sum_at(r.terms(), done_positions(column, k, j))
    &&& r.assigned_after_max(trail, o + 1)
    &&& forall|q: int| #[trigger] done_positions(column, k, j).contains(q) ==> r.max_position() is Some && q <= r.max_position().unwrap()
}

/// What holds of the row in slot `j` while the first `k` items of the
/// literal's column are retracted, after the negation's: they raise its
/// last possibly unassigned position up to them.
pub open spec fn lifting<E>(
    slots: Seq<Option<LinearRow>>,
    rows0: Seq<Option<LinearRow>>,
    j: int,
    column: Seq<(RowId, usize, u64)>,
    k: int,
    negation: Literal,
    trail: Seq<AssertionInfo<E>>,
    o: int,
) -> bool {
    let r = slots[j].unwrap();
    &&& r.wf()
    &&& r.terms() == rows0[j].unwrap().terms()
    &&& r.bound() == rows0[j].unwrap().bound()
    &&& r.spec_is_learnt() == rows0[j].unwrap().spec_is_learnt()
    &&& r.spec_last_involved() == rows0[j].unwrap().spec_last_involved()
    &&& r.sup() == sup_before(r.terms(), trail, o)
    &&& r.assigned_after_max(trail, o + 1)
    &&& forall|q: int| #[trigger] positions_of(r.terms(), negation).contains(q) ==> r.max_position() is Some && q <= r.max_position().unwrap()
    &&& forall|q: int| #[trigger] done_positions(column, k, j).contains(q) ==> r.max_position() is Some && q <= r.max_position().unwrap()
}

/// Retracting one more term of the negation keeps the greatest reachable
/// value within 64 bits and adds the term's coefficient to the retracted sum.
proof fn lemma_raise_fits<E: Copy>(
    row: LinearRow,
    state: AssertionStack<E>,
    o: int,
    literal: Literal,
    done: Set<int>,
    position: int,
)
    requires
        row.wf(),
        state.wf(),
        0 <= o < state.trail().len(),
        state.trail()[o].predicate.spec_literal() == literal,
        0 <= position < row.terms().len(),
        !done.contains(position),
        forall|q: int|
            0 <= q < row.terms().len() && done.insert(position).contains(q) ==> positions_of(row.terms(), literal.negated()).contains(q),
        row.sup() == sup_before(row.terms(), state.trail(), o + 1) + sum_at(row.terms(), done),
    ensures
        row.sup() + row.terms()[position].1 <= u64::MAX,
        sum_at(row.terms(), done.insert(position)) == sum_at(row.terms(), done) + row.terms()[position].1,
{
    let terms = row.terms();
    let trail = state.trail();
    lemma_sum_at(terms, done.insert(position), positions_of(terms, literal.negated()));
    lemma_sum_at_insert(terms, done, position);
    lemma_sup_step(terms, state, o, literal);
    lemma_sum_coefficients_where(terms);
    let p = |l: Literal| !false_before(trail, l, o);
    let t = |l: Literal| true;
    crate::constraint::lemma_where_split(terms, t, p, |l: Literal| !p(l));
    lemma_sum_where_bounds(terms, |l: Literal| !p(l));
}

/// Retracting the item of slot `i`, whose row becomes `slots[i]`, keeps what
/// holds of every row while the negation's column is retracted.
proof fn lemma_raise_step<E>(
    slots1: Seq<Option<LinearRow>>,
    slots: Seq<Option<LinearRow>>,
    rows0: Seq<Option<LinearRow>>,
    i: int,
    column: Seq<(RowId, usize, u64)>,
    k: int,
    trail: Seq<AssertionInfo<E>>,
    o: int,
    position: int,
)
    requires
        0 <= i < slots1.len(),
        rows0.len() == slots1.len(),
        slots1[i] is Some,
        slots == slots1.update(i, slots[i]),
        slots[i] is Some,
        1 <= k <= column.len(),
        column[k - 1].0.spec_index() == i,
        column[k - 1].1 == position,
        ({
            let r1 = slots1[i].unwrap();
            let r = slots[i].unwrap();
            &&& 0 <= position < r1.terms().len()
            &&& !done_positions(column, k - 1, i).contains(position)
            &&& sum_at(r1.terms(), done_positions(column, k - 1, i).insert(position)) == sum_at(
                r1.terms(),
                done_positions(column, k - 1, i),
            ) + r1.terms()[position].1
            &&& r.terms() == r1.terms()
            &&& r.bound() == r1.bound()
            &&& r.spec_is_learnt() == r1.spec_is_learnt()
            &&& r.spec_last_involved() == r1.spec_last_involved()
            &&& r.sup() == r1.sup() + r1.terms()[position].1
            &&& r.literal_terms@.len() == r1.literal_terms@.len()
            &&& if r1.max_position() is None || r1.max_position().unwrap() < position {
                r.max_position() == Some(position as usize) && r.max_coefficient() == r1.terms()[position].1
            } else {
                r.max_position() == r1.max_position() && r.max_coefficient() == r1.max_coefficient()
            }
        }),
        forall|j: int| 0 <= j < rows0.len() && (#[trigger] slots1[j]) is Some ==> raising(slots1, rows0, j, column, k - 1, trail, o),
    ensures
        forall|j: int| 0 <= j < rows0.len() && (#[trigger] slots[j]) is Some ==> raising(slots, rows0, j, column, k, trail, o),
{
    let done = done_positions(column, k - 1, i);
    assert(done_positions(column, k, i) =~= done.insert(position));
    assert forall|j: int| 0 <= j < rows0.len() && (#[trigger] slots[j]) is Some implies raising(slots, rows0, j, column, k, trail, o) by {
        if j != i {
            assert(slots[j] == slots1[j]);
            assert(slots1[j] is Some);
            assert(done_positions(column, k, j) =~= done_positions(column, k - 1, j));
        } else {
            assert(raising(slots1, rows0, i, column, k - 1, trail, o));
            let r = slots[i].unwrap();
            assert forall|q: int| #[trigger] done_positions(column, k, i).contains(q) implies r.max_position() is Some
                && q <= r.max_position().unwrap() by {
                if q != position {
                    assert(done.contains(q));
                }
            }
        }
    }
}

/// Every row with a term on the negation of an assertion reflected from
/// `start` up to `end` is confirmed.
pub open spec fn confirmed_from<E>(
    rows: Seq<Option<LinearRow>>,
    implications: Seq<Implication<LinearPropagatorExplainKey>>,
    trail: Seq<AssertionInfo<E>>,
    start: int,
    end: int,
) -> bool {
    forall|o: int, i: int|
        #![trigger rows[i], trail[o]]
        start <= o < end && 0 <= i < rows.len() && rows[i] is Some && (exists|q: int|
            0 <= q < rows[i].unwrap().terms().len() && (#[trigger] rows[i].unwrap().terms()[q]).0
                == trail[o].predicate.spec_literal().negated()) ==> confirmed(
            rows[i].unwrap(),
            LinearPropagatorExplainKey::of(RowId::of(i as usize)),
            implications,
            trail,
        )
}

/// Reflecting the assertion at `order` extends the confirmed range by one.
proof fn lemma_propagate_step<E>(
    rows1: Seq<Option<LinearRow>>,
    rows: Seq<Option<LinearRow>>,
    implications1: Seq<Implication<LinearPropagatorExplainKey>>,
    implications: Seq<Implication<LinearPropagatorExplainKey>>,
    trail: Seq<AssertionInfo<E>>,
    start: int,
    order: int,
    literal: Literal,
)
    requires
        0 <= order < trail.len(),
        trail[order].predicate.spec_literal() == literal,
        rows_lowered(rows1, rows),
        implications1.len() <= implications.len(),
        implications.take(implications1.len() as int) == implications1,
        confirmed_from(rows1, implications1, trail, start, order),
        forall|i: int|
            0 <= i < rows.len() && (#[trigger] rows[i]) is Some ==> if exists|q: int|
                0 <= q < rows[i].unwrap().terms().len() && (#[trigger] rows[i].unwrap().terms()[q]).0 == literal.negated() {
                confirmed(rows[i].unwrap(), LinearPropagatorExplainKey::of(RowId::of(i as usize)), implications, trail)
            } else {
                rows[i] == rows1[i]
            },
    ensures
        confirmed_from(rows, implications, trail, start, order + 1),
{
    assert forall|o: int, i: int|
        #![trigger rows[i], trail[o]]
        start <= o < order + 1 && 0 <= i < rows.len() && rows[i] is Some && (exists|q: int|
            0 <= q < rows[i].unwrap().terms().len() && (#[trigger] rows[i].unwrap().terms()[q]).0
                == trail[o].predicate.spec_literal().negated()) implies confirmed(
        rows[i].unwrap(),
        LinearPropagatorExplainKey::of(RowId::of(i as usize)),
        implications,
        trail,
    ) by {
        let row = rows[i].unwrap();
        if !(exists|q: int| 0 <= q < row.terms().len() && (#[trigger] row.terms()[q]).0 == literal.negated()) {
            assert(rows[i] == rows1[i]);
            assert(o < order);
            assert(rows1[i] is Some);
            assert(confirmed(rows1[i].unwrap(), LinearPropagatorExplainKey::of(RowId::of(i as usize)), implications1, trail));
            lemma_confirmed_grow(row, LinearPropagatorExplainKey::of(RowId::of(i as usize)), implications1, implications, trail);
        }
    }
}

/// The assertions of `trail` satisfy the row: its true literals reach the
/// lower bound.
pub open spec fn satisfied_by<E>(row: LinearRow, trail: Seq<AssertionInfo<E>>) -> bool {
    sum_where(row.terms(), |l: Literal| asserted_before(trail, l, NULL_ORDER as int)) >= row.bound()
}

/// The number of rows whose being learnt is `learnt`.
pub open spec fn count_learnt(rows: Seq<(RowId, LinearRow)>, learnt: bool) -> nat
    decreases rows.len(),
{
    if rows.len() == 0 {
        0
    } else {
        count_learnt(rows.drop_last(), learnt) + if rows.last().1.spec_is_learnt() == learnt {
            1nat
        } else {
            0nat
        }
    }
}

/// The identifiers of the rows that `trail` satisfies, in order.
pub open spec fn satisfied_ids<E>(rows: Seq<(RowId, LinearRow)>, trail: Seq<AssertionInfo<E>>) -> Seq<RowId>
    decreases rows.len(),
{
    if rows.len() == 0 {
        Seq::empty()
    } else {
        let rest = satisfied_ids(rows.drop_last(), trail);
        if satisfied_by(rows.last().1, trail) {
            rest.push(rows.last().0)
        } else {
            rest
        }
    }
}

/// How many reductions ago the row last took part in a conflict, at least 3.
pub open spec fn idle_span(reduction_count: usize, row: LinearRow) -> usize {
    let span = if reduction_count >= row.spec_last_involved() {
        (reduction_count - row.spec_last_involved()) as usize
    } else {
        0usize
    };
    if span > 3 {
        span
    } else {
        3
    }
}

/// The learnt rows that `trail` does not satisfy, each with its idle span,
/// in order.
pub open spec fn removal_candidates<E>(
    rows: Seq<(RowId, LinearRow)>,
    reduction_count: usize,
    trail: Seq<AssertionInfo<E>>,
) -> Seq<(usize, RowId)>
    decreases rows.len(),
{
    if rows.len() == 0 {
        Seq::empty()
    } else {
        let rest = removal_candidates(rows.drop_last(), reduction_count, trail);
        let row = rows.last().1;
        if row.spec_is_learnt() && !satisfied_by(row, trail) {
            rest.push((idle_span(reduction_count, row), rows.last().0))
        } else {
            rest
        }
    }
}

/// How many rows a reduction removes: a tenth of the learnt ones, at least
/// 1000.
pub open spec fn removal_quota(rows: Seq<(RowId, LinearRow)>) -> nat {
    if count_learnt(rows, true) / 10 > 1000 {
        count_learnt(rows, true) / 10
    } else {
        1000
    }
}

/// How many learnt rows must remain for a reduction to take place: a tenth
/// of the other rows, at least 1000, and 10 more per earlier reduction.
pub open spec fn retention_quota(rows: Seq<(RowId, LinearRow)>, reduction_count: usize) -> nat {
    (if count_learnt(rows, false) / 10 > 1000 {
        count_learnt(rows, false) / 10
    } else {
        1000
    }) + 10 * (reduction_count as nat)
}

/// How many unsatisfied learnt rows a reduction removes besides the
/// satisfied rows: as many as these fall short of the quota, or all of them.
pub open spec fn extra_removals<E>(
    rows: Seq<(RowId, LinearRow)>,
    reduction_count: usize,
    trail: Seq<AssertionInfo<E>>,
) -> nat {
    let short = if satisfied_ids(rows, trail).len() < removal_quota(rows) {
        (removal_quota(rows) - satisfied_ids(rows, trail).len()) as nat
    } else {
        0nat
    };
    if short < removal_candidates(rows, reduction_count, trail).len() {
        short
    } else {
        removal_candidates(rows, reduction_count, trail).len()
    }
}

/// `chosen` names `count` of the candidates, each idle at least as long as
/// every candidate not chosen (which of equally idle ones is left open).
pub open spec fn longest_idle(candidates: Seq<(usize, RowId)>, chosen: Seq<RowId>, count: nat) -> bool {
    exists|order: Seq<(usize, RowId)>|
        #[trigger] order.to_multiset() == candidates.to_multiset() && order.len() == candidates.len() && count
            <= order.len() && chosen == order.take(count as int).map_values(|c: (usize, RowId)| c.1) && (forall|
            i: int,
            j: int,
        | 0 <= i < count <= j < order.len() ==> (#[trigger] order[i]).0 >= (#[trigger] order[j]).0)
}

/// Linear constraints whose propagation is tracked by counting.
#[derive(Clone, Debug)]
pub struct LinearPropagator {
    rows: RowStorage<LinearRow>,
    columns: LiteralArray<Vec<(RowId, usize, u64)>>,
    reduction_count: usize,
    unreflected_order: usize,
}

impl LinearPropagator {
    /// The rows, by slot.
    pub closed spec fn rows(&self) -> Seq<Option<LinearRow>> {
        self.rows.slots()
    }

    /// The free slots, in the order they are reused.
    pub closed spec fn vacant(&self) -> Seq<RowId> {
        self.rows.vacant()
    }

    /// The slot that the next row takes.
    pub closed spec fn next_row_id(&self) -> RowId {
        if self.rows.vacant().len() > 0 {
            self.rows.vacant()[0]
        } else {
            RowId::of(self.rows.slots().len() as usize)
        }
    }

    /// The items in the column of the literal with bits `b`: rows,
    /// positions and coefficients.
    pub closed spec fn items(&self, b: int) -> Seq<(RowId, usize, u64)> {
        self.columns@[b]@
    }

    /// The number of variables.
    pub closed spec fn spec_number_of_variables(&self) -> nat {
        self.columns@.len() / 2
    }

    /// The number of assertions already reflected.
    pub closed spec fn spec_unreflected_order(&self) -> usize {
        self.unreflected_order
    }

    /// The number of reductions of the learnt rows so far.
    pub closed spec fn spec_reduction_count(&self) -> usize {
        self.reduction_count
    }

    /// The rows are well formed over the propagator's variables, and each
    /// column lists, once each, exactly the terms of the rows with its
    /// literal.
    pub closed spec fn wf(&self) -> bool {
        let slots = self.rows.slots();
        let n = self.columns@.len();
        &&& self.rows.wf()
        &&& n % 2 == 0
        &&& forall|i: int|
            0 <= i < slots.len() && (#[trigger] slots[i]) is Some ==> slots[i].unwrap().wf() && terms_within(
                slots[i].unwrap().terms(),
                n / 2,
            )
        &&& forall|b: int| 0 <= b < n ==> (#[trigger] self.columns@[b])@.no_duplicates()
        &&& forall|b: int, k: int|
            0 <= b < n && 0 <= k < self.columns@[b]@.len() ==> item_valid(slots, #[trigger] self.columns@[b]@[k], b)
        &&& forall|i: int, q: int|
            #![trigger slots[i].unwrap().terms()[q]]
            0 <= i < slots.len() && slots[i] is Some && 0 <= q < slots[i].unwrap().terms().len() ==> self.columns@[
                slots[i].unwrap().terms()[q].0.spec_bits() as int
            ]@.contains((RowId::of(i as usize), q as usize, slots[i].unwrap().terms()[q].1))
    }

    /// Each row's greatest reachable value counts the assertions before the
    /// unreflected order, and every literal after its last possibly
    /// unassigned position is assigned before that order.
    pub open spec fn reflects<E>(&self, trail: Seq<AssertionInfo<E>>) -> bool {
        &&& self.spec_unreflected_order() <= trail.len()
        &&& forall|i: int|
            0 <= i < self.rows().len() && (#[trigger] self.rows()[i]) is Some ==> {
                let row = self.rows()[i].unwrap();
                &&& row.sup() == sup_before(row.terms(), trail, self.spec_unreflected_order() as int)
                &&& row.assigned_after_max(trail, self.spec_unreflected_order() as int)
            }
    }

    /// The slot that the next row takes is past the last slot or free.
    pub proof fn lemma_next_row_free(&self)
        requires
            self.wf(),
        ensures
            self.next_row_id().spec_index() <= self.rows().len(),
            self.next_row_id().spec_index() < self.rows().len() ==> self.rows()[self.next_row_id().spec_index() as int] is None,
    {
        broadcast use RowId::lemma_of;

        self.rows.lemma_slots_len();
        if self.rows.vacant().len() > 0 {
            assert(self.rows.vacant()[0].spec_index() < self.rows.slots().len());
        }
    }

    /// Every row is well formed, with terms over the propagator's variables.
    pub proof fn lemma_row_within(&self, i: int)
        requires
            self.wf(),
            0 <= i < self.rows().len(),
            self.rows()[i] is Some,
        ensures
            self.rows()[i].unwrap().wf(),
            terms_within(self.rows()[i].unwrap().terms(), self.spec_number_of_variables()),
    {
    }

    /// A literal over the first `n` variables has bits below `2 * n`.
    proof fn lemma_bits_within(literal: Literal, n: nat)
        requires
            literal.spec_index() < n,
        ensures
            literal.spec_bits() < 2 * n,
            literal.negated().spec_bits() < 2 * n,
    {
        broadcast use Literal::lemma_negated;

        assert(literal.negated().spec_index() == literal.spec_index());
    }

    /// Changing one row but not its terms keeps the propagator well formed.
    #[verifier::rlimit(40)]
    #[verifier::spinoff_prover]
    proof fn lemma_wf_after_row_update(before: &Self, after: &Self, i: int)
        requires
            before.wf(),
            after.columns@ == before.columns@,
            after.rows.wf(),
            0 <= i < before.rows.slots().len(),
            before.rows.slots()[i] is Some,
            after.rows.slots() == before.rows.slots().update(i, after.rows.slots()[i]),
            after.rows.slots()[i] is Some,
            after.rows.slots()[i].unwrap().wf(),
            after.rows.slots()[i].unwrap().terms() == before.rows.slots()[i].unwrap().terms(),
        ensures
            after.wf(),
    {
        let slots0 = before.rows.slots();
        let slots = after.rows.slots();
        let columns0 = before.columns@;
        assert forall|b: int, m: int|
            0 <= b < after.columns@.len() && 0 <= m < after.columns@[b]@.len() implies item_valid(
            slots,
            #[trigger] after.columns@[b]@[m],
            b,
        ) by {
            assert(item_valid(slots0, columns0[b]@[m], b));
        }
        assert forall|j: int| 0 <= j < slots.len() && (#[trigger] slots[j]) is Some implies slots[j].unwrap().wf()
            && terms_within(slots[j].unwrap().terms(), after.columns@.len() / 2) by {
            assert(slots0[j] is Some);
        }
        assert forall|j: int, q: int|
            #![trigger slots[j].unwrap().terms()[q]]
            0 <= j < slots.len() && slots[j] is Some && 0 <= q < slots[j].unwrap().terms().len() implies after.columns@[
                slots[j].unwrap().terms()[q].0.spec_bits() as int
            ]@.contains((RowId::of(j as usize), q as usize, slots[j].unwrap().terms()[q].1)) by {
            assert(slots0[j] is Some);
            assert(slots0[j].unwrap().terms()[q] == slots[j].unwrap().terms()[q]);
        }
    }

    /// What adding a variable does: one more variable, whose two columns
    /// are empty; the rows and the other columns are kept.
    pub open spec fn variable_added(before: Self, after: Self) -> bool {
        &&& after.wf()
        &&& after.spec_number_of_variables() == before.spec_number_of_variables() + 1
        &&& after.rows() == before.rows()
        &&& after.vacant() == before.vacant()
        &&& forall|b: int|
            0 <= b < 2 * before.spec_number_of_variables() ==> #[trigger] after.items(b) == before.items(b)
        &&& after.items(2 * before.spec_number_of_variables() as int) == Seq::<(RowId, usize, u64)>::empty()
        &&& after.items(2 * before.spec_number_of_variables() as int + 1) == Seq::<(RowId, usize, u64)>::empty()
        &&& after.spec_unreflected_order() == before.spec_unreflected_order()
        &&& after.spec_reduction_count() == before.spec_reduction_count()
    }

    /// What adding a constraint with `terms` and lower bound `bound` does
    /// (see `add_constraint`): with lower bound 0 nothing; otherwise a new
    /// row in the next free slot, its terms sorted by coefficient, with its
    /// greatest reachable value over `trail`, confirmed right away.
    pub open spec fn constraint_added<E>(
        before: Self,
        after: Self,
        terms: Seq<(Literal, u64)>,
        bound: u64,
        is_learnt: bool,
        trail: Seq<AssertionInfo<E>>,
        events_before: Seq<Implication<LinearPropagatorExplainKey>>,
        events_after: Seq<Implication<LinearPropagatorExplainKey>>,
    ) -> bool {
        &&& after.wf()
        &&& after.reflects(trail)
        &&& after.spec_number_of_variables() == before.spec_number_of_variables()
        &&& after.spec_unreflected_order() == before.spec_unreflected_order()
        &&& after.spec_reduction_count() == before.spec_reduction_count()
        &&& bound == 0 ==> after.rows() == before.rows() && after.vacant()
            == before.vacant() && (forall|b: int| #[trigger] after.items(b) == before.items(b))
            && events_after == events_before
        &&& bound > 0 ==> {
            let id = before.next_row_id();
            let i = id.spec_index() as int;
            let row = after.rows()[i].unwrap();
            &&& i <= before.rows().len()
            &&& after.rows() == if i < before.rows().len() {
                before.rows().update(i, Some(row))
            } else {
                before.rows().push(Some(row))
            }
            &&& after.vacant() == if before.vacant().len() > 0 {
                before.vacant().drop_first()
            } else {
                before.vacant()
            }
            &&& row.terms().to_multiset() == terms.to_multiset()
            &&& sorted_by_coefficient(row.terms())
            &&& row.bound() == bound
            &&& row.spec_is_learnt() == is_learnt
            &&& row.spec_last_involved() == before.spec_reduction_count()
            &&& row.sup() == sup_before(row.terms(), trail, trail.len() as int)
            &&& events_after =~= events_before + row.fresh(trail).confirmed_implications(
                LinearPropagatorExplainKey::of(id),
                trail,
            )
            &&& forall|b: int|
                0 <= b < 2 * before.spec_number_of_variables() ==> #[trigger] after.items(b) == before.items(b)
                    + added_items(row.terms(), row.terms().len(), id, b)
        }
    }

    /// What propagation does (see `propagate`): every assertion is
    /// reflected; the rows keep their terms with greatest reachable values
    /// no larger; the implications are extended, every one of them sound;
    /// and every row with a term on the negation of a newly reflected
    /// assertion is confirmed.
    pub open spec fn propagation_done<E>(
        before: Self,
        after: Self,
        trail: Seq<AssertionInfo<E>>,
        events_before: Seq<Implication<LinearPropagatorExplainKey>>,
        events_after: Seq<Implication<LinearPropagatorExplainKey>>,
    ) -> bool {
        &&& after.wf()
        &&& after.spec_number_of_variables() == before.spec_number_of_variables()
        &&& after.vacant() == before.vacant()
        &&& after.spec_reduction_count() == before.spec_reduction_count()
        &&& after.spec_unreflected_order() == trail.len()
        &&& after.reflects(trail)
        &&& forall|b: int| #[trigger] after.items(b) == before.items(b)
        &&& rows_lowered(before.rows(), after.rows())
        &&& events_before.len() <= events_after.len()
        &&& events_after.take(events_before.len() as int) =~= events_before
        &&& forall|m: int|
            0 <= m < events_after.len() ==> linear_sound_in(after.rows(), #[trigger] events_after[m], trail)
        &&& forall|o: int, i: int|
            #![trigger after.rows()[i], trail[o]]
            before.spec_unreflected_order() <= o < trail.len() && 0 <= i < after.rows().len()
                && after.rows()[i] is Some && (exists|q: int|
                0 <= q < after.rows()[i].unwrap().terms().len() && (#[trigger] after.rows()[i].unwrap().terms()[q]).0
                    == trail[o].predicate.spec_literal().negated()) ==> confirmed(
                after.rows()[i].unwrap(),
                LinearPropagatorExplainKey::of(RowId::of(i as usize)),
                events_after,
                trail,
            )
    }

    /// What a backjump to `backjump_level` does (see `backjump`): the
    /// assertions after that level are no longer reflected; the rows keep
    /// their terms.
    pub open spec fn backjumped<E: Copy>(
        before: Self,
        after: Self,
        backjump_level: usize,
        state: AssertionStack<E>,
    ) -> bool {
        &&& after.wf()
        &&& after.spec_number_of_variables() == before.spec_number_of_variables()
        &&& after.vacant() == before.vacant()
        &&& after.spec_reduction_count() == before.spec_reduction_count()
        &&& forall|b: int| #[trigger] after.items(b) == before.items(b)
        &&& rows_kept(before.rows(), after.rows())
        &&& after.reflects(state.trail())
        &&& ({
            let backjump_order = if backjump_level < state.decisions().len() {
                state.decisions()[backjump_level as int] as int
            } else {
                state.trail().len() as int
            };
            after.spec_unreflected_order() == if before.spec_unreflected_order() > backjump_order {
                backjump_order
            } else {
                before.spec_unreflected_order() as int
            }
        })
    }

    /// What receiving the keys of the constraints involved in a conflict
    /// does (see `receive_involved_constraints`): the rows behind `keys` are
    /// stamped with the current reduction count; nothing else changes.
    pub open spec fn involvement_received(before: Self, after: Self, keys: Seq<LinearPropagatorExplainKey>) -> bool {
        &&& after.wf()
        &&& after.rows().len() == before.rows().len()
        &&& after.vacant() == before.vacant()
        &&& after.spec_number_of_variables() == before.spec_number_of_variables()
        &&& forall|b: int| #[trigger] after.items(b) == before.items(b)
        &&& after.spec_reduction_count() == before.spec_reduction_count()
        &&& after.spec_unreflected_order() == before.spec_unreflected_order()
        &&& forall|i: int|
            0 <= i < after.rows().len() ==> (#[trigger] after.rows()[i]) is Some == before.rows()[i] is Some
        &&& forall|i: int|
            0 <= i < after.rows().len() && #[trigger] after.rows()[i] is Some ==> {
                let row = after.rows()[i].unwrap();
                let prior = before.rows()[i].unwrap();
                &&& row.terms() == prior.terms()
                &&& row.bound() == prior.bound()
                &&& row.sup() == prior.sup()
                &&& row.max_position() == prior.max_position()
                &&& row.max_coefficient() == prior.max_coefficient()
                &&& row.spec_is_learnt() == prior.spec_is_learnt()
                &&& row.spec_last_involved() == if exists|k: int|
                    0 <= k < keys.len() && (#[trigger] keys[k]).spec_row_id().spec_index() == i {
                    before.spec_reduction_count()
                } else {
                    prior.spec_last_involved()
                }
            }
    }

    /// What reducing the learnt rows over `trail` does (see
    /// `reduce_learnt_constraints`): with `learnt` learnt rows and `others`
    /// other ones, to remove is `max(1000, learnt / 10)` and to keep at
    /// least `max(1000, others / 10) + 10 * reduction_count`; when the
    /// learnt rows are fewer than both together nothing changes. Otherwise
    /// every row the assertions satisfy is removed and, when those are
    /// fewer than to remove, as many more of the unsatisfied learnt rows
    /// as are missing (or all of them), those idle longest (see
    /// `longest_idle`); the columns drop their items; and the reduction
    /// count goes up by one.
    pub open spec fn learnt_reduced<E>(before: Self, after: Self, trail: Seq<AssertionInfo<E>>) -> bool {
        let rows = occupied_rows(before.rows());
        let count = before.spec_reduction_count();
        if count_learnt(rows, true) < removal_quota(rows) + retention_quota(rows, count) {
            after == before
        } else {
            exists|chosen: Seq<RowId>|
                #[trigger] longest_idle(removal_candidates(rows, count, trail), chosen, extra_removals(rows, count, trail))
                    && Self::rows_removed(before, after, satisfied_ids(rows, trail) + chosen)
        }
    }

    /// A reduction keeps the variables and the reflected order, and every
    /// row it keeps is unchanged, so what was reflected stays reflected.
    pub proof fn lemma_reduced_keeps<E, F>(
        before: Self,
        after: Self,
        trail: Seq<AssertionInfo<E>>,
        reflected: Seq<AssertionInfo<F>>,
    )
        requires
            Self::learnt_reduced(before, after, trail),
            before.reflects(reflected),
        ensures
            after.spec_number_of_variables() == before.spec_number_of_variables(),
            after.spec_unreflected_order() == before.spec_unreflected_order(),
            after.reflects(reflected),
            forall|i: int| 0 <= i < after.rows().len() && #[trigger] after.rows()[i] is Some ==> i < before.rows().len() && after.rows()[i] == before.rows()[i],
    {
        let rows = occupied_rows(before.rows());
        let count = before.spec_reduction_count();
        if !(count_learnt(rows, true) < removal_quota(rows) + retention_quota(rows, count)) {
            let chosen = choose|chosen: Seq<RowId>|
                #[trigger] longest_idle(removal_candidates(rows, count, trail), chosen, extra_removals(rows, count, trail))
                    && Self::rows_removed(before, after, satisfied_ids(rows, trail) + chosen);
            let ids = satisfied_ids(rows, trail) + chosen;
            assert forall|i: int| 0 <= i < after.rows().len() && #[trigger] after.rows()[i] is Some implies i < before.rows().len() && after.rows()[i] == before.rows()[i] by {
                assert(after.rows() == emptied(before.rows(), ids));
            }
            assert forall|i: int| 0 <= i < after.rows().len() && (#[trigger] after.rows()[i]) is Some implies {
                let row = after.rows()[i].unwrap();
                &&& row.sup() == sup_before(row.terms(), reflected, after.spec_unreflected_order() as int)
                &&& row.assigned_after_max(reflected, after.spec_unreflected_order() as int)
            } by {
                assert(after.rows() == emptied(before.rows(), ids));
                assert(before.rows()[i] is Some);
            }
        }
    }

    /// The rows of `ids` were removed from `before`, giving `after`, their
    /// slots freed and the columns' items on them dropped (see
    /// `remove_rows`), and the reduction count went up by one.
    pub open spec fn rows_removed(before: Self, after: Self, ids: Seq<RowId>) -> bool {
        &&& after.wf()
        &&& after.spec_number_of_variables() == before.spec_number_of_variables()
        &&& after.spec_unreflected_order() == before.spec_unreflected_order()
        &&& after.spec_reduction_count() == before.spec_reduction_count() + 1
        &&& after.rows() == emptied(before.rows(), ids)
        &&& after.vacant() == before.vacant() + freed(before.rows(), ids)
        &&& forall|b: int|
            0 <= b < 2 * before.spec_number_of_variables() ==> #[trigger] after.items(b) == items_kept(
                before.items(b),
                ids,
            )
    }

    /// The number of reductions of the learnt rows so far.
    pub fn reduction_count(&self) -> (count: usize)
        ensures
            count == self.spec_reduction_count(),
    {
        self.reduction_count
    }

    /// A propagator with no variable and no row.
    pub fn new() -> (propagator: Self)
        ensures
            propagator.wf(),
            propagator.rows() == Seq::<Option<LinearRow>>::empty(),
            propagator.vacant() == Seq::<RowId>::empty(),
            propagator.spec_number_of_variables() == 0,
            propagator.spec_unreflected_order() == 0,
            propagator.spec_reduction_count() == 0,
    {
        Self { rows: RowStorage::new(), columns: LiteralArray::new(), reduction_count: 0, unreflected_order: 0 }
    }

    /// Adds a variable, with empty columns.
    pub fn add_variable(&mut self)
        requires
            old(self).wf(),
        ensures
            Self::variable_added(*old(self), *final(self)),
    {
        self.columns.push(Vec::new(), Vec::new());
        proof {
            let n = old(self).columns@.len();
            let slots = self.rows.slots();
            assert forall|b: int| 0 <= b < self.columns@.len() implies (#[trigger] self.columns@[b])@.no_duplicates() by {
                if b < n {
                    assert(self.columns@[b] == old(self).columns@[b]);
                }
            }
            assert forall|b: int, k: int|
                0 <= b < self.columns@.len() && 0 <= k < self.columns@[b]@.len() implies item_valid(
                slots,
                #[trigger] self.columns@[b]@[k],
                b,
            ) by {
                assert(b < n);
                assert(self.columns@[b] == old(self).columns@[b]);
            }
            assert forall|i: int|
                0 <= i < slots.len() && (#[trigger] slots[i]) is Some implies slots[i].unwrap().wf() && terms_within(
                slots[i].unwrap().terms(),
                self.columns@.len() / 2,
            ) by {
                assert(terms_within(slots[i].unwrap().terms(), n / 2));
            }
            assert forall|i: int, q: int|
                #![trigger slots[i].unwrap().terms()[q]]
                0 <= i < slots.len() && slots[i] is Some && 0 <= q < slots[i].unwrap().terms().len() implies self.columns@[
                    slots[i].unwrap().terms()[q].0.spec_bits() as int
                ]@.contains((RowId::of(i as usize), q as usize, slots[i].unwrap().terms()[q].1)) by {
                let b = slots[i].unwrap().terms()[q].0.spec_bits() as int;
                assert(terms_within(slots[i].unwrap().terms(), n / 2));
                Self::lemma_bits_within(slots[i].unwrap().terms()[q].0, n / 2);
                assert(self.columns@[b] == old(self).columns@[b]);
            }
        }
    }

    /// Whether a row stands behind `explain_key`.
    pub fn holds_row(&self, explain_key: LinearPropagatorExplainKey) -> (holds: bool)
        ensures
            holds == (explain_key.spec_row_id().spec_index() < self.rows().len()
                && self.rows()[explain_key.spec_row_id().spec_index() as int] is Some),
    {
        self.rows.holds(explain_key.row_id())
    }

    /// The row behind `explain_key`.
    pub fn explain(&self, explain_key: LinearPropagatorExplainKey) -> (row: &LinearRow)
        requires
            explain_key.spec_row_id().spec_index() < self.rows().len(),
            self.rows()[explain_key.spec_row_id().spec_index() as int] is Some,
        ensures
            Some(*row) == self.rows()[explain_key.spec_row_id().spec_index() as int],
    {
        self.rows.get(explain_key.row_id()).unwrap()
    }

    /// Adds `constraint` as a new row: its terms sorted by coefficient, its
    /// greatest reachable value over the assertions, and its last
    /// unassigned position; then confirms it (see `confirmed_implications`),
    /// appending what it finds to `implications`. A constraint with lower
    /// bound 0 always holds and is not added.
    #[verifier::rlimit(60)]
    #[verifier::spinoff_prover]
    pub fn add_constraint<C: Constraint, E: Copy>(
        &mut self,
        constraint: &C,
        is_learnt: bool,
        state: &AssertionStack<E>,
        implications: &mut Vec<Implication<LinearPropagatorExplainKey>>,
    )
        requires
            old(self).wf(),
            state.wf(),
            old(self).spec_unreflected_order() == state.trail().len(),
            old(self).reflects(state.trail()),
            old(self).spec_number_of_variables() <= state.spec_number_of_variables(),
            literals_in_range(constraint.spec_terms(), old(self).spec_number_of_variables()),
            sum_coefficients(constraint.spec_terms()) <= u64::MAX,
        ensures
            Self::constraint_added(
                *old(self),
                *final(self),
                constraint.spec_terms(),
                constraint.spec_lower_bound(),
                is_learnt,
                state.trail(),
                old(implications)@,
                final(implications)@,
            ),
    {
        broadcast use {RowId::lemma_of, RowId::lemma_index};
        broadcast use LinearPropagatorExplainKey::lemma_of;

        let ghost trail = state.trail();
        let lower_bound = constraint.lower_bound();
        if lower_bound == 0 {
            return;
        }
        let unsorted = constraint.iter_terms();
        let terms = sort_by_coefficient(unsorted);
        let count = terms.len();
        let ghost sorted = terms@;
        let ghost n = self.spec_number_of_variables();
        proof {
            assert forall|k: int| 0 <= k < sorted.len() implies (#[trigger] sorted[k]).0.spec_index() < n by {
                vstd::seq_lib::to_multiset_contains(sorted, sorted[k]);
                vstd::seq_lib::to_multiset_contains(constraint.spec_terms(), sorted[k]);
                assert(sorted.contains(sorted[k]));
                let m = choose|m: int| 0 <= m < constraint.spec_terms().len() && constraint.spec_terms()[m] == sorted[k];
                assert(constraint.spec_terms()[m].0.spec_index() < n);
            }
            lemma_sum_coefficients_where(sorted);
            lemma_sum_coefficients_where(constraint.spec_terms());
            lemma_sum_where_permutation(sorted, constraint.spec_terms(), |l: Literal| true);
        }
        let sup = sup_over(&terms, state);
        let position = find_last_unassigned(&terms, state);
        proof {
            lemma_last_unassigned(sorted, sorted.len() as int, trail);
        }
        let coefficient = match position {
            Some(p) => terms[p].1,
            None => 0,
        };
        let ghost id = self.next_row_id();
        let ghost slots0 = self.rows.slots();
        let ghost columns0 = self.columns@;
        let row_id = self.rows.allocate(
            LinearRow {
                literal_terms: terms,
                lower_bound,
                is_learnt,
                last_involved_timestamp: self.reduction_count,
                sup_literal_terms: sup,
                max_unassigned_position: position,
                max_unassigned_coefficient: coefficient,
            },
        );
        proof {
            assert(row_id == id);
            if old(self).rows.vacant().len() > 0 {
                assert(old(self).rows.vacant()[0].spec_index() < slots0.len());
            }
        }
        let ghost r = row_id.spec_index() as int;
        let ghost rows1 = self.rows;
        let ghost fresh_row = rows1.slots()[r].unwrap();
        let row = self.rows.get(row_id).unwrap();
        let length = row.literal_terms.len();
        proof {
            assert(fresh_row == row.fresh(trail));
            assert(forall|b: int, k: int| 0 <= b < columns0.len() && 0 <= k < columns0[b]@.len() ==> item_valid(slots0, #[trigger] columns0[b]@[k], b));
            assert forall|b: int, k: int| 0 <= b < columns0.len() && 0 <= k < columns0[b]@.len() implies (
            #[trigger] columns0[b]@[k]).0 != row_id by {
                assert(item_valid(slots0, columns0[b]@[k], b));
            }
        }
        let mut q: usize = 0;
        while q < length
            invariant
                row.literal_terms@ == sorted,
                length == sorted.len(),
                q <= length,
                terms_within(sorted, n),
                n == self.spec_number_of_variables(),
                self.columns@.len() == columns0.len(),
                self.columns@.len() == 2 * n,
                self.rows == rows1,
                self.reduction_count == old(self).reduction_count,
                self.unreflected_order == old(self).unreflected_order,
                forall|b: int|
                    0 <= b < columns0.len() ==> #[trigger] self.columns@[b]@ == columns0[b]@ + added_items(
                        sorted,
                        q as nat,
                        row_id,
                        b,
                    ),
            decreases length - q,
        {
            let (literal, c) = row.literal_terms[q];
            proof {
                Self::lemma_bits_within(literal, n);
            }
            let column = self.columns.get_mut(literal);
            column.push((row_id, q, c));
            q = q + 1;
            proof {
                assert forall|b: int| 0 <= b < columns0.len() implies #[trigger] self.columns@[b]@ == columns0[b]@
                    + added_items(sorted, q as nat, row_id, b) by {
                    assert(columns0[b]@ + added_items(sorted, q as nat, row_id, b) =~= if b == literal.spec_bits() {
                        (columns0[b]@ + added_items(sorted, (q - 1) as nat, row_id, b)).push((row_id, (q - 1) as usize, c))
                    } else {
                        columns0[b]@ + added_items(sorted, (q - 1) as nat, row_id, b)
                    });
                }
            }
        }
        let ghost columns1 = self.columns@;
        proof {
            assert(fresh_row.assigned_after_max(trail, NULL_ORDER as int)) by {
                assert forall|q: int|
                    0 <= q < sorted.len() && (fresh_row.max_position() is None || q > fresh_row.max_position().unwrap())
                        implies assigned_before(trail, #[trigger] sorted[q].0, NULL_ORDER as int) by {
                    state.lemma_trail_bound();
                    let kk = choose|kk: int| crate::assertion_state::assigned_at(trail, sorted[q].0.spec_index(), kk);
                }
            }
            assert(terms_within(sorted, state.spec_number_of_variables()));
        }
        match self.rows.get_mut(row_id) {
            Some(r) => {
                confirm_propagation(row_id, r, state, implications);
            },
            None => {},
        }
        proof {
            let slots = self.rows.slots();
            let final_row = slots[r].unwrap();
            let nn = self.columns@.len();
            state.lemma_trail_bound();
            assert(slots == if r < slots0.len() {
                slots0.update(r, slots[r])
            } else {
                slots0.push(slots[r])
            });
            let key = LinearPropagatorExplainKey::of(row_id);
            assert(final_row.fresh(trail).terms() == fresh_row.terms());
            assert(final_row.fresh(trail).sup() == fresh_row.sup());
            assert(final_row.fresh(trail).bound() == fresh_row.bound());
            assert(final_row.fresh(trail).max_position() == fresh_row.max_position());
            assert(final_row.fresh(trail).max_coefficient() == fresh_row.max_coefficient());
            assert(final_row.fresh(trail).confirmed_implications(key, trail) == fresh_row.confirmed_implications(key, trail));
            // The greatest reachable value counts every assertion.
            let p_null = |l: Literal| !false_before(trail, l, NULL_ORDER as int);
            let p_len = |l: Literal| !false_before(trail, l, trail.len() as int);
            assert forall|l: Literal| #[trigger] p_null(l) == p_len(l) by {}
            crate::constraint::lemma_where_ext(sorted, p_null, p_len);
            assert(final_row.assigned_after_max(trail, trail.len() as int)) by {
                assert forall|q: int|
                    0 <= q < sorted.len() && (final_row.max_position() is None || q > final_row.max_position().unwrap())
                        implies assigned_before(trail, #[trigger] sorted[q].0, trail.len() as int) by {
                    assert(assigned_before(trail, sorted[q].0, NULL_ORDER as int));
                }
            }
            assert forall|i: int| 0 <= i < slots.len() && (#[trigger] slots[i]) is Some implies {
                let row = slots[i].unwrap();
                &&& row.sup() == sup_before(row.terms(), trail, self.spec_unreflected_order() as int)
                &&& row.assigned_after_max(trail, self.spec_unreflected_order() as int)
            } by {
                if i != r {
                    assert(slots[i] == slots0[i]);
                }
            }
            assert forall|i: int| 0 <= i < slots.len() && (#[trigger] slots[i]) is Some implies slots[i].unwrap().wf()
                && terms_within(slots[i].unwrap().terms(), nn / 2) by {
                if i != r {
                    assert(slots[i] == slots0[i]);
                }
            }
            lemma_added_items(sorted, sorted.len(), row_id, 0);
            assert forall|b: int| 0 <= b < nn implies (#[trigger] self.columns@[b])@.no_duplicates() by {
                let all = self.columns@[b]@;
                let old_part = columns0[b]@;
                lemma_added_items(sorted, sorted.len(), row_id, b);
                let added = added_items(sorted, sorted.len(), row_id, b);
                assert(all == old_part + added);
                assert forall|x: int, y: int| 0 <= x < all.len() && 0 <= y < all.len() && x != y implies all[x] != all[y] by {
                    if x < old_part.len() && y < old_part.len() {
                    } else if x < old_part.len() {
                        assert(all[y] == added[y - old_part.len()]);
                    } else if y < old_part.len() {
                        assert(all[x] == added[x - old_part.len()]);
                    } else {
                        assert(all[x] == added[x - old_part.len()]);
                        assert(all[y] == added[y - old_part.len()]);
                        if x < y {
                            assert(added[x - old_part.len()].1 < added[y - old_part.len()].1);
                        } else {
                            assert(added[y - old_part.len()].1 < added[x - old_part.len()].1);
                        }
                    }
                }
            }
            assert forall|b: int, k: int| 0 <= b < nn && 0 <= k < self.columns@[b]@.len() implies item_valid(
                slots,
                #[trigger] self.columns@[b]@[k],
                b,
            ) by {
                let old_part = columns0[b]@;
                if k < old_part.len() {
                    let item = old_part[k];
                    assert(self.columns@[b]@[k] == item);
                    assert(item_valid(slots0, item, b));
                    assert(item.0 != row_id);
                    assert(item.0.spec_index() != r) by {
                        RowId::lemma_index(item.0);
                        RowId::lemma_index(row_id);
                    }
                    assert(slots[item.0.spec_index() as int] == slots0[item.0.spec_index() as int]);
                } else {
                    lemma_added_items(sorted, sorted.len(), row_id, b);
                    let added = added_items(sorted, sorted.len(), row_id, b);
                    assert(self.columns@[b]@[k] == added[k - old_part.len()]);
                }
            }
            assert forall|i: int, q: int|
                #![trigger slots[i].unwrap().terms()[q]]
                0 <= i < slots.len() && slots[i] is Some && 0 <= q < slots[i].unwrap().terms().len() implies self.columns@[
                    slots[i].unwrap().terms()[q].0.spec_bits() as int
                ]@.contains((RowId::of(i as usize), q as usize, slots[i].unwrap().terms()[q].1)) by {
                let t = slots[i].unwrap().terms()[q];
                let b = t.0.spec_bits() as int;
                if i == r {
                    Self::lemma_bits_within(t.0, n);
                    lemma_added_items(sorted, sorted.len(), row_id, b);
                    let added = added_items(sorted, sorted.len(), row_id, b);
                    assert(sorted[q] == t);
                    let x = choose|x: int| 0 <= x < added.len() && added[x] == (row_id, q as usize, t.1);
                    assert(self.columns@[b]@[columns0[b]@.len() + x] == added[x]);
                    assert(RowId::of(i as usize) == row_id);
                } else {
                    assert(slots[i] == slots0[i]);
                    Self::lemma_bits_within(t.0, n);
                    let x = choose|x: int| 0 <= x < columns0[b]@.len() && columns0[b]@[x] == (RowId::of(i as usize), q as usize, t.1);
                    assert(self.columns@[b]@[x] == columns0[b]@[x]);
                }
            }
            assert forall|b: int| 0 <= b < 2 * n implies #[trigger] self.items(b) == old(self).items(b) + added_items(
                final_row.terms(),
                final_row.terms().len(),
                id,
                b,
            ) by {}
        }
    }

    /// Reflects the assertion of `literal`, the first one not reflected:
    /// each row with a term on its negation loses that term's coefficient
    /// from its greatest reachable value and is confirmed (see
    /// `confirm_propagation`).
    #[verifier::rlimit(100)]
    #[verifier::spinoff_prover]
    fn reflect_literal_assertion<E: Copy>(
        &mut self,
        literal: Literal,
        state: &AssertionStack<E>,
        implications: &mut Vec<Implication<LinearPropagatorExplainKey>>,
    )
        requires
            old(self).wf(),
            state.wf(),
            old(self).spec_number_of_variables() == state.spec_number_of_variables(),
            old(self).spec_unreflected_order() < state.trail().len(),
            state.trail()[old(self).spec_unreflected_order() as int].predicate.spec_literal() == literal,
            forall|i: int|
                0 <= i < old(self).rows().len() && (#[trigger] old(self).rows()[i]) is Some ==> {
                    let row = old(self).rows()[i].unwrap();
                    &&& row.sup() == sup_before(row.terms(), state.trail(), old(self).spec_unreflected_order() as int)
                    &&& row.assigned_after_max(state.trail(), NULL_ORDER as int)
                },
            forall|m: int|
                0 <= m < old(implications)@.len() ==> linear_sound_in(old(self).rows(), #[trigger] old(implications)@[m], state.trail()),
        ensures
            final(self).wf(),
            final(self).spec_number_of_variables() == old(self).spec_number_of_variables(),
            final(self).vacant() == old(self).vacant(),
            final(self).spec_unreflected_order() == old(self).spec_unreflected_order(),
            final(self).spec_reduction_count() == old(self).spec_reduction_count(),
            forall|b: int| #[trigger] final(self).items(b) == old(self).items(b),
            rows_lowered(old(self).rows(), final(self).rows()),
            forall|i: int|
                0 <= i < final(self).rows().len() && (#[trigger] final(self).rows()[i]) is Some ==> {
                    let row = final(self).rows()[i].unwrap();
                    &&& row.sup() == sup_before(row.terms(), state.trail(), old(self).spec_unreflected_order() + 1)
                    &&& row.assigned_after_max(state.trail(), NULL_ORDER as int)
                    &&& if exists|q: int| 0 <= q < row.terms().len() && (#[trigger] row.terms()[q]).0 == literal.negated() {
                        confirmed(row, LinearPropagatorExplainKey::of(RowId::of(i as usize)), final(implications)@, state.trail())
                    } else {
                        final(self).rows()[i] == old(self).rows()[i]
                    }
                },
            old(implications)@.len() <= final(implications)@.len(),
            final(implications)@.take(old(implications)@.len() as int) == old(implications)@,
            forall|m: int|
                0 <= m < final(implications)@.len() ==> linear_sound_in(final(self).rows(), #[trigger] final(implications)@[m], state.trail()),
    {
        broadcast use Literal::lemma_negated;
        broadcast use Literal::lemma_bits_determine;
        broadcast use {RowId::lemma_of, RowId::lemma_index};
        broadcast use LinearPropagatorExplainKey::lemma_of;

        let ghost trail = state.trail();
        let ghost o = self.unreflected_order as int;
        let negation = literal.negation();
        proof {
            state.lemma_trail_bound();
            assert(crate::assertion_state::assigned_at(trail, literal.spec_index(), o));
            state.lemma_assigned_once(literal.spec_index(), o);
            Self::lemma_bits_within(literal, self.spec_number_of_variables());
        }
        let ghost nb = negation.spec_bits() as int;
        let ghost column = self.columns@[nb]@;
        let ghost columns0 = self.columns@;
        let ghost rows0 = self.rows.slots();
        let length = self.columns.get(negation).len();
        let mut k: usize = 0;
        proof {
            assert(implications@.take(implications@.len() as int) =~= implications@);
            assert(rows_lowered(rows0, rows0));
            assert forall|i: int| 0 <= i < rows0.len() && (#[trigger] self.rows.slots()[i]) is Some implies reflecting(
                self.rows.slots(),
                rows0,
                i,
                column,
                0,
                implications@,
                trail,
                o,
            ) by {
                let row = self.rows.slots()[i].unwrap();
                assert(old(self).rows()[i] is Some);
                assert(old(self).rows.slots()[i] is Some);
                assert(done_positions(column, 0, i) =~= Set::<int>::empty());
                lemma_sum_at_empty(row.terms());
            }
        }
        while k < length
            invariant
                state.wf(),
                trail == state.trail(),
                trail.len() < NULL_ORDER,
                0 <= o < trail.len(),
                trail[o].predicate.spec_literal() == literal,
                negation == literal.negated(),
                nb == negation.spec_bits(),
                0 <= nb < columns0.len(),
                column == columns0[nb]@,
                length == column.len(),
                k <= length,
                self.columns@ == columns0,
                self.rows.wf(),
                self.rows.vacant() == old(self).rows.vacant(),
                self.reduction_count == old(self).reduction_count,
                self.unreflected_order == old(self).unreflected_order,
                o == old(self).unreflected_order,
                rows0 == old(self).rows.slots(),
                columns0 == old(self).columns@,
                old(self).wf(),
                self.spec_number_of_variables() == state.spec_number_of_variables(),
                rows_lowered(rows0, self.rows.slots()),
                forall|i: int|
                    0 <= i < rows0.len() && (#[trigger] self.rows.slots()[i]) is Some ==> reflecting(
                        self.rows.slots(),
                        rows0,
                        i,
                        column,
                        k as int,
                        implications@,
                        trail,
                        o,
                    ),
                old(implications)@.len() <= implications@.len(),
                implications@.take(old(implications)@.len() as int) == old(implications)@,
                forall|m: int| 0 <= m < implications@.len() ==> linear_sound_in(self.rows.slots(), #[trigger] implications@[m], trail),
            decreases length - k,
        {
            let (row_id, position, coefficient) = self.columns.get(negation)[k];
            let ghost i = row_id.spec_index() as int;
            let ghost slots1 = self.rows.slots();
            let ghost implications1 = implications@;
            let ghost row1 = slots1[i].unwrap();
            let ghost terms = row1.terms();
            let ghost done = done_positions(column, k as int, i);
            proof {
                assert(column[k as int] == (row_id, position, coefficient));
                assert(old(self).columns@[nb]@[k as int] == column[k as int]);
                assert(item_valid(rows0, column[k as int], nb));
                assert(rows0[i] is Some);
                assert(slots1[i] is Some);
                assert(terms == rows0[i].unwrap().terms());
                Literal::lemma_bits_determine(terms[position as int].0, negation);
                assert(terms[position as int].0 == negation);
                assert(terms[position as int].1 == coefficient);
                // The position was not reflected yet.
                assert(!done.contains(position as int)) by {
                    if done.contains(position as int) {
                        let m = choose|m: int| 0 <= m < k && (#[trigger] column[m]).0.spec_index() == i && column[m].1 == position;
                        assert(old(self).columns@[nb]@[m] == column[m]);
                        assert(item_valid(rows0, column[m], nb));
                        RowId::lemma_index(column[m].0);
                        RowId::lemma_index(row_id);
                        assert(column[m].0 == row_id);
                        assert(column[m] == column[k as int]);
                        assert(columns0[nb]@.no_duplicates());
                    }
                }
                // The reflected positions hold the negation.
                assert forall|q: int| 0 <= q < terms.len() && done.insert(position as int).contains(q) implies positions_of(
                    terms,
                    negation,
                ).contains(q) by {
                    if q != position {
                        let m = choose|m: int| 0 <= m < k && (#[trigger] column[m]).0.spec_index() == i && column[m].1 == q;
                        assert(old(self).columns@[nb]@[m] == column[m]);
                        assert(item_valid(rows0, column[m], nb));
                        Literal::lemma_bits_determine(terms[q].0, negation);
                    }
                }
                lemma_sum_at(terms, done.insert(position as int), positions_of(terms, negation));
                lemma_sum_at_insert(terms, done, position as int);
                lemma_sup_step(terms, *state, o, literal);
            }
            match self.rows.get_mut(row_id) {
                Some(row) => {
                    row.sup_literal_terms = row.sup_literal_terms - coefficient;
                    proof {
                        assert(terms_within(row.literal_terms@, state.spec_number_of_variables())) by {
                            assert(old(self).wf());
                            assert(rows0[i].unwrap().terms() == terms);
                        }
                    }
                    confirm_propagation(row_id, row, state, implications);
                },
                None => {},
            }
            k = k + 1;
            proof {
                let slots = self.rows.slots();
                let row = slots[i].unwrap();
                let before = LinearRow { sup_literal_terms: (row1.sup() - coefficient) as u64, ..row1 };
                self.rows.lemma_slots_len();
                RowId::lemma_index(row_id);
                assert(i as usize == row_id.spec_index());
                assert(RowId::of(i as usize) == row_id);
                assert(slots == slots1.update(i, slots[i]));
                assert(done_positions(column, k as int, i) =~= done.insert(position as int));
                assert(row.sup() == sup_before(row.terms(), trail, o) - sum_at(row.terms(), done_positions(column, k as int, i)));
                lemma_reflect_step(
                    slots1,
                    slots,
                    rows0,
                    i,
                    column,
                    k as int,
                    implications1,
                    implications@,
                    trail,
                    o,
                    before,
                    old(implications)@,
                );
            }
        }
        proof {
            let slots = self.rows.slots();
            let n = self.columns@.len();
            assert forall|i: int| 0 <= i < slots.len() && (#[trigger] slots[i]) is Some implies slots[i].unwrap().wf() && terms_within(
                slots[i].unwrap().terms(),
                n / 2,
            ) by {
                assert(rows0[i] is Some);
            }
            assert forall|b: int, m: int| 0 <= b < n && 0 <= m < self.columns@[b]@.len() implies item_valid(
                slots,
                #[trigger] self.columns@[b]@[m],
                b,
            ) by {
                assert(item_valid(rows0, columns0[b]@[m], b));
                let j = columns0[b]@[m].0.spec_index() as int;
                assert(slots[j] is Some);
            }
            assert forall|i: int, q: int|
                #![trigger slots[i].unwrap().terms()[q]]
                0 <= i < slots.len() && slots[i] is Some && 0 <= q < slots[i].unwrap().terms().len() implies self.columns@[
                    slots[i].unwrap().terms()[q].0.spec_bits() as int
                ]@.contains((RowId::of(i as usize), q as usize, slots[i].unwrap().terms()[q].1)) by {
                assert(rows0[i] is Some);
                assert(rows0[i].unwrap().terms()[q] == slots[i].unwrap().terms()[q]);
            }
            assert forall|i: int| 0 <= i < slots.len() && (#[trigger] slots[i]) is Some implies {
                let row = slots[i].unwrap();
                &&& row.sup() == sup_before(row.terms(), trail, o + 1)
                &&& row.assigned_after_max(trail, NULL_ORDER as int)
                &&& if exists|q: int| 0 <= q < row.terms().len() && (#[trigger] row.terms()[q]).0 == literal.negated() {
                    confirmed(row, LinearPropagatorExplainKey::of(RowId::of(i as usize)), implications@, trail)
                } else {
                    slots[i] == rows0[i]
                }
            } by {
                let row = slots[i].unwrap();
                let terms = row.terms();
                assert(rows0[i] is Some);
                assert(old(self).wf());
                self.rows.lemma_slots_len();
                // Every position of the negation has been reflected.
                assert forall|q: int| 0 <= q < terms.len() implies (done_positions(column, length as int, i).contains(q)
                    <==> positions_of(terms, negation).contains(q)) by {
                    if positions_of(terms, negation).contains(q) {
                        assert(old(self).rows.slots()[i].unwrap().terms()[q] == terms[q]);
                        assert(terms[q].0.spec_bits() == nb);
                        assert(old(self).columns@[nb]@.contains((RowId::of(i as usize), q as usize, terms[q].1)));
                        let x = choose|x: int| 0 <= x < column.len() && column[x] == (RowId::of(i as usize), q as usize, terms[q].1);
                        assert(column[x].0.spec_index() == i);
                        assert(column[x].1 == q);
                    }
                    if done_positions(column, length as int, i).contains(q) {
                        let m = choose|m: int| 0 <= m < length && (#[trigger] column[m]).0.spec_index() == i && column[m].1 == q;
                        assert(old(self).columns@[nb]@[m] == column[m]);
                        assert(item_valid(rows0, column[m], nb));
                    }
                }
                lemma_sum_at(terms, done_positions(column, length as int, i), positions_of(terms, negation));
                lemma_sup_step(terms, *state, o, literal);
                if exists|q: int| 0 <= q < terms.len() && (#[trigger] terms[q]).0 == literal.negated() {
                    let q = choose|q: int| 0 <= q < terms.len() && (#[trigger] terms[q]).0 == literal.negated();
                    assert(positions_of(terms, negation).contains(q));
                    assert(done_positions(column, length as int, i).contains(q));
                    let m = choose|m: int| 0 <= m < length && (#[trigger] column[m]).0.spec_index() == i && column[m].1 == q;
                    assert(column[m].0.spec_index() == i);
                } else {
                    if exists|m: int| 0 <= m < length && (#[trigger] column[m]).0.spec_index() == i {
                        let m = choose|m: int| 0 <= m < length && (#[trigger] column[m]).0.spec_index() == i;
                        assert(old(self).columns@[nb]@[m] == column[m]);
                        assert(item_valid(rows0, column[m], nb));
                        assert(terms[column[m].1 as int].0 == negation);
                    }
                }
            }
        }
    }

    /// Reflects the assertions not reflected yet, in order (see
    /// `reflect_literal_assertion`), appending what they imply to
    /// `implications`. Afterwards every row with a term on the negation of
    /// one of those assertions is confirmed (see `confirmed`).
    #[verifier::rlimit(100)]
    #[verifier::spinoff_prover]
    pub fn propagate<E: Copy>(
        &mut self,
        state: &AssertionStack<E>,
        implications: &mut Vec<Implication<LinearPropagatorExplainKey>>,
    )
        requires
            old(self).wf(),
            state.wf(),
            old(self).spec_number_of_variables() == state.spec_number_of_variables(),
            old(self).reflects(state.trail()),
            forall|m: int|
                0 <= m < old(implications)@.len() ==> linear_sound_in(old(self).rows(), #[trigger] old(implications)@[m], state.trail()),
        ensures
            Self::propagation_done(*old(self), *final(self), state.trail(), old(implications)@, final(implications)@),
    {
        let ghost trail = state.trail();
        let ghost start = self.unreflected_order as int;
        let ghost rows0 = self.rows();
        proof {
            state.lemma_trail_bound();
            assert(rows_lowered(rows0, rows0));
            assert(implications@.take(implications@.len() as int) =~= implications@);
            assert forall|i: int| 0 <= i < self.rows().len() && (#[trigger] self.rows()[i]) is Some implies self.rows()[i].unwrap().assigned_after_max(
                trail,
                NULL_ORDER as int,
            ) by {
                let row = self.rows()[i].unwrap();
                assert forall|q: int|
                    0 <= q < row.terms().len() && (row.max_position() is None || q > row.max_position().unwrap()) implies assigned_before(
                    trail,
                    #[trigger] row.terms()[q].0,
                    NULL_ORDER as int,
                ) by {
                    assert(assigned_before(trail, row.terms()[q].0, start));
                }
            }
        }
        while self.unreflected_order < state.number_of_assertions()
            invariant
                self.wf(),
                state.wf(),
                trail == state.trail(),
                trail.len() < NULL_ORDER,
                self.spec_number_of_variables() == state.spec_number_of_variables(),
                self.spec_number_of_variables() == old(self).spec_number_of_variables(),
                self.vacant() == old(self).vacant(),
                self.reduction_count == old(self).reduction_count,
                forall|b: int| #[trigger] self.items(b) == old(self).items(b),
                start == old(self).unreflected_order,
                start <= self.unreflected_order <= trail.len(),
                rows0 == old(self).rows(),
                rows_lowered(rows0, self.rows()),
                forall|i: int|
                    0 <= i < self.rows().len() && (#[trigger] self.rows()[i]) is Some ==> {
                        let row = self.rows()[i].unwrap();
                        &&& row.sup() == sup_before(row.terms(), trail, self.unreflected_order as int)
                        &&& row.assigned_after_max(trail, NULL_ORDER as int)
                    },
                old(implications)@.len() <= implications@.len(),
                implications@.take(old(implications)@.len() as int) == old(implications)@,
                forall|m: int| 0 <= m < implications@.len() ==> linear_sound_in(self.rows(), #[trigger] implications@[m], trail),
                confirmed_from(self.rows(), implications@, trail, start, self.unreflected_order as int),
            decreases trail.len() - self.unreflected_order,
        {
            let order = self.unreflected_order;
            let literal = state.assertion(order).literal();
            let ghost rows1 = self.rows();
            let ghost implications1 = implications@;
            let ghost self1 = *self;
            self.reflect_literal_assertion(literal, state, implications);
            let ghost self2 = *self;
            self.unreflected_order = order + 1;
            proof {
                let rows = self.rows();
                assert forall|b: int| #[trigger] self.items(b) == old(self).items(b) by {
                    assert(self2.items(b) == self1.items(b));
                }
                lemma_rows_lowered_trans(rows0, rows1, rows);
                assert(implications@.take(old(implications)@.len() as int) =~= old(implications)@) by {
                    assert forall|m: int| 0 <= m < old(implications)@.len() implies implications@[m] == old(implications)@[m] by {
                        assert(implications@.take(implications1.len() as int)[m] == implications1[m]);
                        assert(implications1.take(old(implications)@.len() as int)[m] == old(implications)@[m]);
                    }
                }
                lemma_propagate_step(rows1, rows, implications1, implications@, trail, start, order as int, literal);
            }
        }
        proof {
            let rows = self.rows();
            assert forall|i: int| 0 <= i < rows.len() && (#[trigger] rows[i]) is Some implies rows[i].unwrap().assigned_after_max(
                trail,
                self.spec_unreflected_order() as int,
            ) by {
                let row = rows[i].unwrap();
                assert forall|q: int|
                    0 <= q < row.terms().len() && (row.max_position() is None || q > row.max_position().unwrap()) implies assigned_before(
                    trail,
                    #[trigger] row.terms()[q].0,
                    self.spec_unreflected_order() as int,
                ) by {
                    assert(assigned_before(trail, row.terms()[q].0, NULL_ORDER as int));
                }
            }
        }
    }

    /// Retracts the assertion of `literal`, the last one reflected: each row
    /// with a term on its negation gets the term's coefficient back in its
    /// greatest reachable value, and each row with a term on its variable
    /// raises its last possibly unassigned position to that term.
    #[verifier::rlimit(100)]
    #[verifier::spinoff_prover]
    fn retract_literal_assertion<E: Copy>(&mut self, literal: Literal, state: &AssertionStack<E>)
        requires
            old(self).wf(),
            state.wf(),
            old(self).spec_number_of_variables() == state.spec_number_of_variables(),
            old(self).spec_unreflected_order() < state.trail().len(),
            state.trail()[old(self).spec_unreflected_order() as int].predicate.spec_literal() == literal,
            forall|i: int|
                0 <= i < old(self).rows().len() && (#[trigger] old(self).rows()[i]) is Some ==> {
                    let row = old(self).rows()[i].unwrap();
                    &&& row.sup() == sup_before(row.terms(), state.trail(), old(self).spec_unreflected_order() + 1)
                    &&& row.assigned_after_max(state.trail(), old(self).spec_unreflected_order() + 1)
                },
        ensures
            final(self).wf(),
            final(self).spec_number_of_variables() == old(self).spec_number_of_variables(),
            final(self).vacant() == old(self).vacant(),
            final(self).spec_unreflected_order() == old(self).spec_unreflected_order(),
            final(self).spec_reduction_count() == old(self).spec_reduction_count(),
            forall|b: int| #[trigger] final(self).items(b) == old(self).items(b),
            rows_kept(old(self).rows(), final(self).rows()),
            forall|i: int|
                0 <= i < final(self).rows().len() && (#[trigger] final(self).rows()[i]) is Some ==> {
                    let row = final(self).rows()[i].unwrap();
                    &&& row.sup() == sup_before(row.terms(), state.trail(), old(self).spec_unreflected_order() as int)
                    &&& row.assigned_after_max(state.trail(), old(self).spec_unreflected_order() as int)
                },
    {
        broadcast use Literal::lemma_negated;
        broadcast use {RowId::lemma_of, RowId::lemma_index};

        let ghost trail = state.trail();
        let ghost o = self.unreflected_order as int;
        let negation = literal.negation();
        proof {
            state.lemma_trail_bound();
            assert(crate::assertion_state::assigned_at(trail, literal.spec_index(), o));
            state.lemma_assigned_once(literal.spec_index(), o);
            Self::lemma_bits_within(literal, self.spec_number_of_variables());
            self.rows.lemma_slots_len();
        }
        let ghost nb = negation.spec_bits() as int;
        let ghost lb = literal.spec_bits() as int;
        let ghost columns0 = self.columns@;
        let ghost rows0 = self.rows.slots();
        let ghost column = columns0[nb]@;
        let length = self.columns.get(negation).len();
        let mut k: usize = 0;
        proof {
            assert forall|i: int| 0 <= i < rows0.len() && (#[trigger] self.rows.slots()[i]) is Some implies raising(
                self.rows.slots(),
                rows0,
                i,
                column,
                0,
                trail,
                o,
            ) by {
                assert(old(self).rows()[i] is Some);
                assert(old(self).rows.slots()[i] is Some);
                assert(done_positions(column, 0, i) =~= Set::<int>::empty());
                lemma_sum_at_empty(self.rows.slots()[i].unwrap().terms());
            }
        }
        while k < length
            invariant
                state.wf(),
                trail == state.trail(),
                trail.len() < NULL_ORDER,
                0 <= o < trail.len(),
                trail[o].predicate.spec_literal() == literal,
                negation == literal.negated(),
                nb == negation.spec_bits(),
                0 <= nb < columns0.len(),
                column == columns0[nb]@,
                length == column.len(),
                k <= length,
                self.columns@ == columns0,
                columns0 == old(self).columns@,
                rows0 == old(self).rows.slots(),
                rows0.len() <= usize::MAX,
                old(self).wf(),
                self.rows.wf(),
                self.rows.vacant() == old(self).rows.vacant(),
                self.reduction_count == old(self).reduction_count,
                self.unreflected_order == old(self).unreflected_order,
                o == old(self).unreflected_order,
                self.rows.slots().len() == rows0.len(),
                forall|i: int| 0 <= i < rows0.len() ==> (#[trigger] self.rows.slots()[i] is Some) == (rows0[i] is Some),
                forall|i: int|
                    0 <= i < rows0.len() && (#[trigger] self.rows.slots()[i]) is Some ==> raising(
                        self.rows.slots(),
                        rows0,
                        i,
                        column,
                        k as int,
                        trail,
                        o,
                    ),
            decreases length - k,
        {
            let (row_id, position, coefficient) = self.columns.get(negation)[k];
            let ghost i = row_id.spec_index() as int;
            let ghost slots1 = self.rows.slots();
            let ghost row1 = slots1[i].unwrap();
            let ghost terms = row1.terms();
            let ghost done = done_positions(column, k as int, i);
            proof {
                assert(old(self).columns@[nb]@[k as int] == column[k as int]);
                assert(item_valid(rows0, column[k as int], nb));
                assert(slots1[i] is Some);
                assert(raising(slots1, rows0, i, column, k as int, trail, o));
                Literal::lemma_bits_determine(terms[position as int].0, negation);
                assert(!done.contains(position as int)) by {
                    if done.contains(position as int) {
                        let m = choose|m: int| 0 <= m < k && (#[trigger] column[m]).0.spec_index() == i && column[m].1 == position;
                        assert(old(self).columns@[nb]@[m] == column[m]);
                        assert(item_valid(rows0, column[m], nb));
                        RowId::lemma_index(column[m].0);
                        RowId::lemma_index(row_id);
                        assert(column[m] == column[k as int]);
                    }
                }
                assert forall|q: int| 0 <= q < terms.len() && done.insert(position as int).contains(q) implies positions_of(
                    terms,
                    negation,
                ).contains(q) by {
                    if q != position {
                        let m = choose|m: int| 0 <= m < k && (#[trigger] column[m]).0.spec_index() == i && column[m].1 == q;
                        assert(old(self).columns@[nb]@[m] == column[m]);
                        assert(item_valid(rows0, column[m], nb));
                        Literal::lemma_bits_determine(terms[q].0, negation);
                    }
                }
                lemma_raise_fits(row1, *state, o, literal, done, position as int);
            }
            match self.rows.get_mut(row_id) {
                Some(row) => {
                    row.sup_literal_terms = row.sup_literal_terms + coefficient;
                    let raise = match row.max_unassigned_position {
                        Some(p) => p < position,
                        None => true,
                    };
                    if raise {
                        row.max_unassigned_position = Some(position);
                        row.max_unassigned_coefficient = coefficient;
                    }
                },
                None => {},
            }
            k = k + 1;
            proof {
                let slots = self.rows.slots();
                assert(slots == slots1.update(i, slots[i]));
                assert(column[k - 1].0.spec_index() == i);
                lemma_raise_step(slots1, slots, rows0, i, column, k as int, trail, o, position as int);
            }
        }
        proof {
            let slots = self.rows.slots();
            assert forall|i: int| 0 <= i < rows0.len() && (#[trigger] slots[i]) is Some implies lifting(
                slots,
                rows0,
                i,
                columns0[lb]@,
                0,
                negation,
                trail,
                o,
            ) by {
                assert(raising(slots, rows0, i, column, length as int, trail, o));
                let r = slots[i].unwrap();
                let terms = r.terms();
                assert(rows0[i] is Some);
                assert forall|q: int| 0 <= q < terms.len() implies (done_positions(column, length as int, i).contains(q)
                    <==> positions_of(terms, negation).contains(q)) by {
                    if positions_of(terms, negation).contains(q) {
                        assert(old(self).rows.slots()[i].unwrap().terms()[q] == terms[q]);
                        assert(terms[q].0.spec_bits() == nb);
                        assert(old(self).columns@[nb]@.contains((RowId::of(i as usize), q as usize, terms[q].1)));
                        let x = choose|x: int| 0 <= x < column.len() && column[x] == (RowId::of(i as usize), q as usize, terms[q].1);
                        assert(column[x].0.spec_index() == i);
                        assert(column[x].1 == q);
                    }
                    if done_positions(column, length as int, i).contains(q) {
                        let m = choose|m: int| 0 <= m < length && (#[trigger] column[m]).0.spec_index() == i && column[m].1 == q;
                        assert(old(self).columns@[nb]@[m] == column[m]);
                        assert(item_valid(rows0, column[m], nb));
                        Literal::lemma_bits_determine(terms[q].0, negation);
                    }
                }
                lemma_sum_at(terms, done_positions(column, length as int, i), positions_of(terms, negation));
                lemma_sum_at(terms, positions_of(terms, negation), done_positions(column, length as int, i));
                lemma_sup_step(terms, *state, o, literal);
                assert forall|q: int| #[trigger] positions_of(terms, negation).contains(q) implies r.max_position() is Some
                    && q <= r.max_position().unwrap() by {
                    assert(done_positions(column, length as int, i).contains(q));
                }
                assert(done_positions(columns0[lb]@, 0, i) =~= Set::<int>::empty());
            }
        }
        let ghost column2 = columns0[lb]@;
        let length2 = self.columns.get(literal).len();
        let mut k: usize = 0;
        while k < length2
            invariant
                state.wf(),
                trail == state.trail(),
                trail.len() < NULL_ORDER,
                0 <= o < trail.len(),
                trail[o].predicate.spec_literal() == literal,
                negation == literal.negated(),
                lb == literal.spec_bits(),
                0 <= lb < columns0.len(),
                column2 == columns0[lb]@,
                length2 == column2.len(),
                k <= length2,
                self.columns@ == columns0,
                columns0 == old(self).columns@,
                rows0 == old(self).rows.slots(),
                rows0.len() <= usize::MAX,
                old(self).wf(),
                self.rows.wf(),
                self.rows.vacant() == old(self).rows.vacant(),
                self.reduction_count == old(self).reduction_count,
                self.unreflected_order == old(self).unreflected_order,
                o == old(self).unreflected_order,
                self.rows.slots().len() == rows0.len(),
                forall|i: int| 0 <= i < rows0.len() ==> (#[trigger] self.rows.slots()[i] is Some) == (rows0[i] is Some),
                forall|i: int|
                    0 <= i < rows0.len() && (#[trigger] self.rows.slots()[i]) is Some ==> lifting(
                        self.rows.slots(),
                        rows0,
                        i,
                        column2,
                        k as int,
                        negation,
                        trail,
                        o,
                    ),
            decreases length2 - k,
        {
            let (row_id, position, coefficient) = self.columns.get(literal)[k];
            let ghost i = row_id.spec_index() as int;
            let ghost slots1 = self.rows.slots();
            let ghost row1 = slots1[i].unwrap();
            let ghost terms = row1.terms();
            let ghost done = done_positions(column2, k as int, i);
            proof {
                assert(old(self).columns@[lb]@[k as int] == column2[k as int]);
                assert(item_valid(rows0, column2[k as int], lb));
                assert(slots1[i] is Some);
                assert(lifting(slots1, rows0, i, column2, k as int, negation, trail, o));
            }
            match self.rows.get_mut(row_id) {
                Some(row) => {
                    let raise = match row.max_unassigned_position {
                        Some(p) => p < position,
                        None => true,
                    };
                    if raise {
                        row.max_unassigned_position = Some(position);
                        row.max_unassigned_coefficient = coefficient;
                    }
                },
                None => {},
            }
            k = k + 1;
            proof {
                let slots = self.rows.slots();
                assert(slots == slots1.update(i, slots[i]));
                assert(done_positions(column2, k as int, i) =~= done.insert(position as int)) by {
                    assert forall|q: int| done_positions(column2, k as int, i).contains(q) == done.insert(position as int).contains(q) by {
                        if q == position {
                            assert(column2[k - 1].0.spec_index() == i);
                        }
                    }
                }
                assert forall|j: int| 0 <= j < rows0.len() && (#[trigger] slots[j]) is Some implies lifting(
                    slots,
                    rows0,
                    j,
                    column2,
                    k as int,
                    negation,
                    trail,
                    o,
                ) by {
                    if j != i {
                        assert(slots[j] == slots1[j]);
                        assert(slots1[j] is Some);
                        assert(lifting(slots1, rows0, j, column2, k - 1, negation, trail, o));
                        assert(done_positions(column2, k as int, j) =~= done_positions(column2, k - 1, j));
                    } else {
                        let r = slots[i].unwrap();
                        assert forall|q: int| #[trigger] done_positions(column2, k as int, i).contains(q) implies r.max_position() is Some
                            && q <= r.max_position().unwrap() by {
                            if q != position {
                                assert(done.contains(q));
                            }
                        }
                        assert forall|q: int| #[trigger] positions_of(r.terms(), negation).contains(q) implies r.max_position() is Some
                            && q <= r.max_position().unwrap() by {
                            assert(positions_of(row1.terms(), negation).contains(q));
                        }
                    }
                }
            }
        }
        proof {
            let slots = self.rows.slots();
            let n = self.columns@.len();
            assert forall|i: int| 0 <= i < slots.len() && (#[trigger] slots[i]) is Some implies {
                let row = slots[i].unwrap();
                &&& row.sup() == sup_before(row.terms(), trail, o)
                &&& row.assigned_after_max(trail, o)
            } by {
                assert(lifting(slots, rows0, i, column2, length2 as int, negation, trail, o));
                let r = slots[i].unwrap();
                let terms = r.terms();
                assert(rows0[i] is Some);
                assert forall|q: int|
                    0 <= q < terms.len() && (r.max_position() is None || q > r.max_position().unwrap()) implies assigned_before(
                    trail,
                    #[trigger] terms[q].0,
                    o,
                ) by {
                    assert(assigned_before(trail, terms[q].0, o + 1));
                    let kk = choose|kk: int| crate::assertion_state::assigned_at(trail, terms[q].0.spec_index(), kk) && kk < o + 1;
                    if kk == o {
                        lemma_same_variable(literal, terms[q].0);
                        if terms[q].0 == literal {
                            assert(old(self).rows.slots()[i].unwrap().terms()[q] == terms[q]);
                            assert(old(self).columns@[lb]@.contains((RowId::of(i as usize), q as usize, terms[q].1)));
                            let x = choose|x: int| 0 <= x < column2.len() && column2[x] == (RowId::of(i as usize), q as usize, terms[q].1);
                            assert(column2[x].0.spec_index() == i);
                            assert(done_positions(column2, length2 as int, i).contains(q));
                        } else {
                            assert(positions_of(terms, negation).contains(q));
                        }
                    }
                }
            }
            assert forall|i: int| 0 <= i < slots.len() && (#[trigger] slots[i]) is Some implies slots[i].unwrap().wf() && terms_within(
                slots[i].unwrap().terms(),
                n / 2,
            ) by {
                assert(rows0[i] is Some);
            }
            assert forall|b: int, m: int| 0 <= b < n && 0 <= m < self.columns@[b]@.len() implies item_valid(
                slots,
                #[trigger] self.columns@[b]@[m],
                b,
            ) by {
                assert(item_valid(rows0, columns0[b]@[m], b));
                let j = columns0[b]@[m].0.spec_index() as int;
                assert(slots[j] is Some);
            }
            assert forall|i: int, q: int|
                #![trigger slots[i].unwrap().terms()[q]]
                0 <= i < slots.len() && slots[i] is Some && 0 <= q < slots[i].unwrap().terms().len() implies self.columns@[
                    slots[i].unwrap().terms()[q].0.spec_bits() as int
                ]@.contains((RowId::of(i as usize), q as usize, slots[i].unwrap().terms()[q].1)) by {
                assert(rows0[i] is Some);
                assert(rows0[i].unwrap().terms()[q] == slots[i].unwrap().terms()[q]);
            }
        }
    }

    /// Forgets the assertions above `backjump_level`: retracts the reflected
    /// ones from the last down (see `retract_literal_assertion`), so that the
    /// next propagation starts from the first assertion after that level.
    pub fn backjump<E: Copy>(&mut self, backjump_level: usize, state: &AssertionStack<E>)
        requires
            old(self).wf(),
            state.wf(),
            old(self).spec_number_of_variables() == state.spec_number_of_variables(),
            old(self).reflects(state.trail()),
            backjump_level <= state.decisions().len(),
        ensures
            Self::backjumped(*old(self), *final(self), backjump_level, *state),
    {
        let backjump_order = state.order_range(backjump_level).end;
        let ghost rows0 = self.rows();
        proof {
            assert(rows_kept(rows0, rows0));
        }
        while self.unreflected_order > backjump_order
            invariant
                self.wf(),
                state.wf(),
                self.spec_number_of_variables() == state.spec_number_of_variables(),
                self.spec_number_of_variables() == old(self).spec_number_of_variables(),
                self.reflects(state.trail()),
                self.vacant() == old(self).vacant(),
                self.reduction_count == old(self).reduction_count,
                forall|b: int| #[trigger] self.items(b) == old(self).items(b),
                rows0 == old(self).rows(),
                rows_kept(rows0, self.rows()),
                self.unreflected_order <= old(self).unreflected_order,
                self.unreflected_order < old(self).unreflected_order ==> self.unreflected_order >= backjump_order,
            decreases self.unreflected_order,
        {
            let ghost self0 = *self;
            self.unreflected_order = self.unreflected_order - 1;
            let literal = state.assertion(self.unreflected_order).literal();
            let ghost self1 = *self;
            let ghost rows1 = self.rows();
            self.retract_literal_assertion(literal, state);
            proof {
                let rows = self.rows();
                assert forall|b: int| #[trigger] self.items(b) == old(self).items(b) by {
                    assert(self0.items(b) == old(self).items(b));
                    assert(self1.items(b) == self0.items(b));
                }
                assert(rows_kept(rows0, rows)) by {
                    assert forall|i: int| 0 <= i < rows0.len() implies (#[trigger] rows[i] is Some) == (rows0[i] is Some) by {
                        assert(rows1[i] is Some == rows0[i] is Some);
                    }
                    assert forall|i: int| 0 <= i < rows0.len() && #[trigger] rows[i] is Some implies {
                        let x = rows0[i].unwrap();
                        let y = rows[i].unwrap();
                        &&& y.terms() == x.terms()
                        &&& y.bound() == x.bound()
                        &&& y.spec_is_learnt() == x.spec_is_learnt()
                        &&& y.spec_last_involved() == x.spec_last_involved()
                    } by {
                        assert(rows1[i] is Some);
                    }
                }
            }
        }
    }

    /// Removes the rows of `row_ids` and every item of them; the freed
    /// slots are reused in the order of `row_ids`.
    #[verifier::rlimit(40)]
    #[verifier::spinoff_prover]
    pub fn remove_rows(&mut self, row_ids: &[RowId])
        requires
            old(self).wf(),
            forall|k: int| 0 <= k < row_ids@.len() ==> (#[trigger] row_ids@[k]).spec_index() < old(self).rows().len(),
        ensures
            final(self).wf(),
            final(self).spec_number_of_variables() == old(self).spec_number_of_variables(),
            final(self).spec_unreflected_order() == old(self).spec_unreflected_order(),
            final(self).spec_reduction_count() == old(self).spec_reduction_count(),
            final(self).rows() == emptied(old(self).rows(), row_ids@),
            final(self).vacant() == old(self).vacant() + freed(old(self).rows(), row_ids@),
            forall|b: int|
                0 <= b < 2 * old(self).spec_number_of_variables() ==> #[trigger] final(self).items(b) == items_kept(
                    old(self).items(b),
                    row_ids@,
                ),
    {
        proof {
            self.rows.lemma_slots_len();
        }
        let removed = removal_set(row_ids);
        self.rows.deallocate_all(row_ids);
        let ghost slots0 = old(self).rows.slots();
        let ghost slots = self.rows.slots();
        let ghost columns0 = old(self).columns@;
        let n = self.columns.len();
        let mut b: usize = 0;
        while b < n
            invariant
                b <= n,
                n == columns0.len(),
                self.columns@.len() == n,
                self.rows.slots() == slots,
                self.rows.wf(),
                self.rows.vacant() == old(self).rows.vacant() + freed(slots0, row_ids@),
                self.unreflected_order == old(self).unreflected_order,
                self.reduction_count == old(self).reduction_count,
                forall|i: usize| #[trigger] removed@.contains(i) <==> is_removed(row_ids@, i as int),
                forall|c: int| 0 <= c < b ==> (#[trigger] self.columns@[c])@ == items_kept(columns0[c]@, row_ids@),
                forall|c: int| b <= c < n ==> #[trigger] self.columns@[c] == columns0[c],
            decreases n - b,
        {
            let literal = Literal::from_bits(b);
            let kept = keep_items(self.columns.get(literal), &removed, Ghost(row_ids@));
            self.columns.set(literal, kept);
            b = b + 1;
        }
        proof {
            assert forall|i: int|
                0 <= i < slots.len() && (#[trigger] slots[i]) is Some implies slots[i].unwrap().wf() && terms_within(
                slots[i].unwrap().terms(),
                self.columns@.len() / 2,
            ) by {
                assert(slots0[i] is Some);
            }
            assert forall|c: int| 0 <= c < n implies (#[trigger] self.columns@[c])@.no_duplicates() by {
                lemma_items_kept(columns0[c]@, row_ids@);
            }
            assert forall|c: int, k: int|
                0 <= c < n && 0 <= k < self.columns@[c]@.len() implies item_valid(
                slots,
                #[trigger] self.columns@[c]@[k],
                c,
            ) by {
                let x = self.columns@[c]@[k];
                lemma_items_kept(columns0[c]@, row_ids@);
                assert(self.columns@[c]@.contains(x));
                let m = choose|m: int| 0 <= m < columns0[c]@.len() && columns0[c]@[m] == x;
                assert(item_valid(slots0, columns0[c]@[m], c));
            }
            assert forall|i: int, q: int|
                #![trigger slots[i].unwrap().terms()[q]]
                0 <= i < slots.len() && slots[i] is Some && 0 <= q < slots[i].unwrap().terms().len() implies self.columns@[
                    slots[i].unwrap().terms()[q].0.spec_bits() as int
                ]@.contains((RowId::of(i as usize), q as usize, slots[i].unwrap().terms()[q].1)) by {
                let c = slots[i].unwrap().terms()[q].0.spec_bits() as int;
                assert(slots0[i] is Some);
                assert(!is_removed(row_ids@, i));
                assert(terms_within(slots0[i].unwrap().terms(), (n / 2) as nat));
                Self::lemma_bits_within(slots0[i].unwrap().terms()[q].0, (n / 2) as nat);
                lemma_items_kept(columns0[c]@, row_ids@);
                RowId::lemma_of(i as usize);
            }
        }
    }

    /// Reflecting a trail depends only on its assertions before the
    /// unreflected order: another trail with the same ones is reflected too.
    pub proof fn lemma_reflects_prefix<E>(self, trail: Seq<AssertionInfo<E>>, other: Seq<AssertionInfo<E>>)
        requires
            self.reflects(trail),
            self.spec_unreflected_order() <= other.len(),
            trail.take(self.spec_unreflected_order() as int) == other.take(self.spec_unreflected_order() as int),
        ensures
            self.reflects(other),
    {
        let u = self.spec_unreflected_order() as int;
        assert(u <= trail.len());
        assert forall|k: int| 0 <= k < u implies #[trigger] trail[k] == other[k] by {
            assert(trail.take(u)[k] == trail[k]);
            assert(other.take(u)[k] == other[k]);
        }
        assert forall|l: Literal| #[trigger] false_before(trail, l, u) == false_before(other, l, u) by {
            if false_before(trail, l, u) {
                let k = choose|k: int|
                    0 <= k < trail.len() && k < u && #[trigger] trail[k].predicate.spec_literal() == l.negated();
                assert(other[k] == trail[k]);
                assert(other[k].predicate.spec_literal() == l.negated());
            }
            if false_before(other, l, u) {
                let k = choose|k: int|
                    0 <= k < other.len() && k < u && #[trigger] other[k].predicate.spec_literal() == l.negated();
                assert(other[k] == trail[k]);
                assert(trail[k].predicate.spec_literal() == l.negated());
            }
        }
        assert forall|l: Literal| #[trigger] assigned_before(trail, l, u) == assigned_before(other, l, u) by {
            if assigned_before(trail, l, u) {
                let k = choose|k: int| crate::assertion_state::assigned_at(trail, l.spec_index(), k) && k < u;
                assert(other[k] == trail[k]);
                assert(crate::assertion_state::assigned_at(other, l.spec_index(), k));
            }
            if assigned_before(other, l, u) {
                let k = choose|k: int| crate::assertion_state::assigned_at(other, l.spec_index(), k) && k < u;
                assert(other[k] == trail[k]);
                assert(crate::assertion_state::assigned_at(trail, l.spec_index(), k));
            }
        }
        assert forall|i: int| 0 <= i < self.rows().len() && (#[trigger] self.rows()[i]) is Some implies {
            let row = self.rows()[i].unwrap();
            &&& row.sup() == sup_before(row.terms(), other, u)
            &&& row.assigned_after_max(other, u)
        } by {
            let row = self.rows()[i].unwrap();
            lemma_where_ext(
                row.terms(),
                |l: Literal| !false_before(trail, l, u),
                |l: Literal| !false_before(other, l, u),
            );
            assert forall|q: int|
                0 <= q < row.terms().len() && (row.max_position() is None || q > row.max_position().unwrap()) implies assigned_before(
                other,
                #[trigger] row.terms()[q].0,
                u,
            ) by {
                assert(assigned_before(trail, row.terms()[q].0, u));
            }
        }
    }

    /// Removing rows keeps every remaining row's reflection of the trail.
    pub proof fn lemma_removal_reflects<E>(before: Self, after: Self, row_ids: Seq<RowId>, trail: Seq<AssertionInfo<E>>)
        requires
            before.reflects(trail),
            after.rows() == emptied(before.rows(), row_ids),
            after.spec_unreflected_order() == before.spec_unreflected_order(),
        ensures
            after.reflects(trail),
    {
        assert forall|i: int| 0 <= i < after.rows().len() && (#[trigger] after.rows()[i]) is Some implies {
            let row = after.rows()[i].unwrap();
            &&& row.sup() == sup_before(row.terms(), trail, after.spec_unreflected_order() as int)
            &&& row.assigned_after_max(trail, after.spec_unreflected_order() as int)
        } by {
            assert(before.rows()[i] is Some);
        }
    }

    /// Marks the rows behind `involved_constraints` as taking part in a
    /// conflict now.
    #[verifier::rlimit(100)]
    #[verifier::spinoff_prover]
    pub fn receive_involved_constraints(&mut self, involved_constraints: &[LinearPropagatorExplainKey])
        requires
            old(self).wf(),
            forall|k: int|
                0 <= k < involved_constraints@.len() ==> (#[trigger] involved_constraints@[k]).spec_row_id().spec_index()
                    < old(self).rows().len() && old(self).rows()[involved_constraints@[k].spec_row_id().spec_index() as int] is Some,
        ensures
            Self::involvement_received(*old(self), *final(self), involved_constraints@),
    {
        let mut k: usize = 0;
        while k < involved_constraints.len()
            invariant
                self.wf(),
                k <= involved_constraints@.len(),
                self.rows().len() == old(self).rows().len(),
                self.vacant() == old(self).vacant(),
                self.columns@ == old(self).columns@,
                self.reduction_count == old(self).reduction_count,
                self.unreflected_order == old(self).unreflected_order,
                forall|j: int|
                    0 <= j < involved_constraints@.len() ==> (#[trigger] involved_constraints@[j]).spec_row_id().spec_index()
                        < old(self).rows().len() && old(self).rows()[involved_constraints@[j].spec_row_id().spec_index() as int] is Some,
                forall|i: int| 0 <= i < self.rows().len() ==> (#[trigger] self.rows()[i]) is Some == old(self).rows()[i] is Some,
                stamped(old(self).rows(), self.rows(), involved_constraints@, k as int, old(self).spec_reduction_count()),
            decreases involved_constraints@.len() - k,
        {
            let row_id = involved_constraints[k].row_id();
            let ghost slots0 = self.rows.slots();
            let ghost before_self = *self;
            let timestamp = self.reduction_count;
            match self.rows.get_mut(row_id) {
                Some(row) => {
                    row.last_involved_timestamp = timestamp;
                },
                None => {},
            }
            proof {
                let r = row_id.spec_index() as int;
                lemma_stamp_step(
                    old(self).rows(),
                    slots0,
                    self.rows(),
                    involved_constraints@,
                    k as int,
                    old(self).spec_reduction_count(),
                );
                Self::lemma_wf_after_row_update(&before_self, self, r);
            }
            k = k + 1;
        }
    }
    /// Removes the rows that the assertions satisfy and, when there are too
    /// many learnt rows, the learnt rows idle longest; then counts one more
    /// reduction (see `learnt_reduced`). Only at decision level 0.
    #[verifier::rlimit(60)]
    #[verifier::spinoff_prover]
    pub fn reduce_learnt_constraints<E: Copy>(&mut self, state: &AssertionStack<E>)
        requires
            old(self).wf(),
            state.wf(),
            state.decisions().len() == 0,
            old(self).spec_number_of_variables() <= state.spec_number_of_variables(),
            old(self).spec_reduction_count() < usize::MAX,
        ensures
            Self::learnt_reduced(*old(self), *final(self), state.trail()),
    {
        let ghost trail = state.trail();
        let ghost occ = occupied_rows(self.rows());
        proof {
            self.rows.lemma_slots_len();
            lemma_occupied(self.rows.slots());
        }
        let rows = self.rows.iter();
        let mut learnt: usize = 0;
        let mut others: usize = 0;
        let mut k: usize = 0;
        while k < rows.len()
            invariant
                k <= rows@.len(),
                rows@.len() == occ.len(),
                forall|j: int| 0 <= j < rows@.len() ==> (#[trigger] rows@[j]).0 == occ[j].0 && *rows@[j].1 == occ[j].1,
                learnt == count_learnt(occ.take(k as int), true),
                others == count_learnt(occ.take(k as int), false),
                learnt + others == k,
            decreases rows@.len() - k,
        {
            proof {
                assert(occ.take(k as int + 1).drop_last() =~= occ.take(k as int));
            }
            if rows[k].1.is_learnt {
                learnt = learnt + 1;
            } else {
                others = others + 1;
            }
            k = k + 1;
        }
        proof {
            assert(occ.take(occ.len() as int) =~= occ);
        }
        let removing: usize = if learnt / 10 > 1000 {
            learnt / 10
        } else {
            1000
        };
        let other_share: usize = if others / 10 > 1000 {
            others / 10
        } else {
            1000
        };
        let retaining: u128 = other_share as u128 + 10 * (self.reduction_count as u128);
        if (learnt as u128) < removing as u128 + retaining {
            return;
        }
        let count = self.reduction_count;
        let mut removing_ids: Vec<RowId> = Vec::new();
        let mut candidates: Vec<(usize, RowId)> = Vec::new();
        k = 0;
        while k < rows.len()
            invariant
                k <= rows@.len(),
                rows@.len() == occ.len(),
                forall|j: int| 0 <= j < rows@.len() ==> (#[trigger] rows@[j]).0 == occ[j].0 && *rows@[j].1 == occ[j].1,
                self.wf(),
                occ == occupied_rows(self.rows()),
                self.rows().len() <= usize::MAX,
                forall|j: int|
                    0 <= j < occ.len() ==> {
                        let i = (#[trigger] occ[j]).0.spec_index() as int;
                        &&& 0 <= i < self.rows().len()
                        &&& self.rows()[i] == Some(occ[j].1)
                    },
                state.wf(),
                trail == state.trail(),
                self.spec_number_of_variables() <= state.spec_number_of_variables(),
                count == self.spec_reduction_count(),
                removing_ids@ == satisfied_ids(occ.take(k as int), trail),
                candidates@ == removal_candidates(occ.take(k as int), count, trail),
                forall|j: int| 0 <= j < removing_ids@.len() ==> (#[trigger] removing_ids@[j]).spec_index() < self.rows().len(),
                forall|j: int| 0 <= j < candidates@.len() ==> (#[trigger] candidates@[j]).1.spec_index() < self.rows().len(),
            decreases rows@.len() - k,
        {
            proof {
                assert(occ.take(k as int + 1).drop_last() =~= occ.take(k as int));
                let i = occ[k as int].0.spec_index() as int;
                self.lemma_row_within(i);
            }
            let row = rows[k].1;
            let inf = row.inf_literal_terms(state);
            if inf >= row.lower_bound {
                removing_ids.push(rows[k].0);
            } else if row.is_learnt {
                let span: usize = if count >= row.last_involved_timestamp {
                    count - row.last_involved_timestamp
                } else {
                    0
                };
                let span: usize = if span > 3 {
                    span
                } else {
                    3
                };
                candidates.push((span, rows[k].0));
            }
            k = k + 1;
        }
        proof {
            assert(occ.take(occ.len() as int) =~= occ);
        }
        let ghost satisfied = removing_ids@;
        let ghost cands0 = candidates@;
        let needed: usize = if removing_ids.len() < removing {
            removing - removing_ids.len()
        } else {
            0
        };
        let chosen_count: usize = if needed < candidates.len() {
            needed
        } else {
            candidates.len()
        };
        let ghost bound = self.rows().len();
        let mut i: usize = 0;
        while i < chosen_count
            invariant
                chosen_count <= candidates@.len(),
                i <= chosen_count,
                candidates@.len() == cands0.len(),
                candidates@.to_multiset() == cands0.to_multiset(),
                forall|j: int| 0 <= j < candidates@.len() ==> (#[trigger] candidates@[j]).1.spec_index() < bound,
                forall|a: int, b: int|
                    0 <= a < i && a < b < candidates@.len() ==> (#[trigger] candidates@[a]).0 >= (#[trigger] candidates@[b]).0,
            decreases chosen_count - i,
        {
            let mut best: usize = i;
            let mut j: usize = i + 1;
            while j < candidates.len()
                invariant
                    i < chosen_count <= candidates@.len(),
                    i <= best < candidates@.len(),
                    i < j <= candidates@.len(),
                    forall|b: int| i <= b < j ==> candidates@[best as int].0 >= (#[trigger] candidates@[b]).0,
                decreases candidates@.len() - j,
            {
                if candidates[j].0 > candidates[best].0 {
                    best = j;
                }
                j = j + 1;
            }
            let ghost before = candidates@;
            swap_elements(&mut candidates, i, best);
            proof {
                assert(candidates@ == swapped(before, i as int, best as int));
                assert forall|a: int, b: int|
                    0 <= a < i + 1 && a < b < candidates@.len() implies (#[trigger] candidates@[a]).0
                        >= (#[trigger] candidates@[b]).0 by {
                    let ob = if b == best as int {
                        i as int
                    } else if b == i as int {
                        best as int
                    } else {
                        b
                    };
                    assert(candidates@[b] == before[ob]);
                    if a < i {
                        assert(candidates@[a] == before[a]);
                    } else {
                        assert(candidates@[a] == before[best as int]);
                    }
                }
                assert forall|j: int| 0 <= j < candidates@.len() implies (#[trigger] candidates@[j]).1.spec_index() < bound by {
                    if j == i as int {
                        assert(candidates@[j] == before[best as int]);
                    } else if j == best as int {
                        assert(candidates@[j] == before[i as int]);
                    } else {
                        assert(candidates@[j] == before[j]);
                    }
                }
            }
            i = i + 1;
        }
        let ghost order = candidates@;
        let mut m: usize = 0;
        while m < chosen_count
            invariant
                chosen_count <= order.len(),
                m <= chosen_count,
                candidates@ == order,
                removing_ids@ == satisfied + order.take(m as int).map_values(|c: (usize, RowId)| c.1),
                forall|j: int| 0 <= j < order.len() ==> (#[trigger] order[j]).1.spec_index() < bound,
                forall|j: int| 0 <= j < satisfied.len() ==> (#[trigger] satisfied[j]).spec_index() < bound,
            decreases chosen_count - m,
        {
            removing_ids.push(candidates[m].1);
            m = m + 1;
            proof {
                assert(removing_ids@ =~= satisfied + order.take(m as int).map_values(|c: (usize, RowId)| c.1));
            }
        }
        let ghost chosen = order.take(chosen_count as int).map_values(|c: (usize, RowId)| c.1);
        proof {
            assert(longest_idle(cands0, chosen, chosen_count as nat));
            assert forall|j: int| 0 <= j < removing_ids@.len() implies (#[trigger] removing_ids@[j]).spec_index() < bound by {
                if j >= satisfied.len() {
                    assert(removing_ids@[j] == order[j - satisfied.len()].1);
                } else {
                    assert(removing_ids@[j] == satisfied[j]);
                }
            }
        }
        let ghost before = *self;
        self.remove_rows(&removing_ids);
        let ghost mid = *self;
        self.reduction_count = self.reduction_count + 1;
        proof {
            let ids = satisfied + chosen;
            assert forall|b: int|
                0 <= b < 2 * old(self).spec_number_of_variables() implies #[trigger] self.items(b) == items_kept(
                old(self).items(b),
                ids,
            ) by {
                assert(self.items(b) == mid.items(b));
            }
            assert(satisfied == satisfied_ids(occ, trail));
            assert(cands0 == removal_candidates(occ, old(self).spec_reduction_count(), trail));
            assert(Self::rows_removed(*old(self), *self, ids));
            assert(!(count_learnt(occ, true) < removal_quota(occ) + retention_quota(
                occ,
                old(self).spec_reduction_count(),
            )));
            assert(extra_removals(occ, old(self).spec_reduction_count(), trail) == chosen_count);
            assert(longest_idle(cands0, chosen, chosen_count as nat));
        }
    }
}

} // verus!
