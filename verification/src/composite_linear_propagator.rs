//! A propagator that keeps constraints whose coefficients are all 1 as
//! cardinality rows and the others as linear rows.
use vstd::prelude::*;

use crate::assertion_state::{AssertionInfo, AssertionStack};
use crate::cardinality_propagator::{CardinalityPropagator, CardinalityRow};
use crate::compressed_constraint::{
    lemma_keep_where_shape, lemma_strengthened_shape, nonzero_terms, strengthened, CompressedConstraint,
};
use crate::constraint::{literals_in_range, sum_coefficients, Constraint};
use crate::explain::{
    CardinalityPropagatorExplainKey, CompositeLinearPropagatorExplinKey, Implication, LinearPropagatorExplainKey,
};
use crate::linear_propagator::{LinearPropagator, LinearRow};
use crate::literal::Literal;

verus! {

/// An implication of the cardinality propagator, under a composite key.
pub open spec fn lift_cardinality(
    implication: Implication<CardinalityPropagatorExplainKey>,
) -> Implication<CompositeLinearPropagatorExplinKey> {
    match implication {
        Implication::Conflict(k) => Implication::Conflict(CompositeLinearPropagatorExplinKey::Cardinality(k)),
        Implication::Literal(l, k, slack, c) => Implication::Literal(
            l,
            CompositeLinearPropagatorExplinKey::Cardinality(k),
            slack,
            c,
        ),
    }
}

/// An implication of the linear propagator, under a composite key.
pub open spec fn lift_linear(
    implication: Implication<LinearPropagatorExplainKey>,
) -> Implication<CompositeLinearPropagatorExplinKey> {
    match implication {
        Implication::Conflict(k) => Implication::Conflict(CompositeLinearPropagatorExplinKey::Linear(k)),
        Implication::Literal(l, k, slack, c) => Implication::Literal(
            l,
            CompositeLinearPropagatorExplinKey::Linear(k),
            slack,
            c,
        ),
    }
}

/// The implications of the cardinality propagator, under composite keys.
pub open spec fn lifted_cardinality(
    events: Seq<Implication<CardinalityPropagatorExplainKey>>,
) -> Seq<Implication<CompositeLinearPropagatorExplinKey>> {
    events.map_values(|i: Implication<CardinalityPropagatorExplainKey>| lift_cardinality(i))
}

/// The implications of the linear propagator, under composite keys.
pub open spec fn lifted_linear(
    events: Seq<Implication<LinearPropagatorExplainKey>>,
) -> Seq<Implication<CompositeLinearPropagatorExplinKey>> {
    events.map_values(|i: Implication<LinearPropagatorExplainKey>| lift_linear(i))
}

/// The cardinality keys among `keys`, in order.
pub open spec fn cardinality_keys(keys: Seq<CompositeLinearPropagatorExplinKey>) -> Seq<
    CardinalityPropagatorExplainKey,
>
    decreases keys.len(),
{
    if keys.len() == 0 {
        Seq::empty()
    } else {
        match keys.last() {
            CompositeLinearPropagatorExplinKey::Cardinality(k) => cardinality_keys(keys.drop_last()).push(k),
            CompositeLinearPropagatorExplinKey::Linear(_) => cardinality_keys(keys.drop_last()),
        }
    }
}

/// The linear keys among `keys`, in order.
pub open spec fn linear_keys(keys: Seq<CompositeLinearPropagatorExplinKey>) -> Seq<LinearPropagatorExplainKey>
    decreases keys.len(),
{
    if keys.len() == 0 {
        Seq::empty()
    } else {
        match keys.last() {
            CompositeLinearPropagatorExplinKey::Cardinality(_) => linear_keys(keys.drop_last()),
            CompositeLinearPropagatorExplinKey::Linear(k) => linear_keys(keys.drop_last()).push(k),
        }
    }
}

/// Every coefficient is 1.
pub open spec fn unit_coefficients(terms: Seq<(Literal, u64)>) -> bool {
    forall|k: int| 0 <= k < terms.len() ==> (#[trigger] terms[k]).1 == 1
}

/// Whether every coefficient of `terms` is 1.
fn all_unit(terms: &Vec<(Literal, u64)>) -> (all: bool)
    ensures
        all == unit_coefficients(terms@),
{
    let mut k: usize = 0;
    while k < terms.len()
        invariant
            k <= terms@.len(),
            forall|j: int| 0 <= j < k ==> (#[trigger] terms@[j]).1 == 1,
        decreases terms@.len() - k,
    {
        if terms[k].1 != 1 {
            return false;
        }
        k = k + 1;
    }
    true
}

/// Appends the implications of the cardinality propagator under composite
/// keys.
fn append_cardinality(
    implications: &mut Vec<Implication<CompositeLinearPropagatorExplinKey>>,
    events: &Vec<Implication<CardinalityPropagatorExplainKey>>,
)
    ensures
        final(implications)@ == old(implications)@ + lifted_cardinality(events@),
{
    let mut k: usize = 0;
    while k < events.len()
        invariant
            k <= events@.len(),
            implications@ == old(implications)@ + lifted_cardinality(events@.take(k as int)),
        decreases events@.len() - k,
    {
        let lifted = match events[k] {
            Implication::Conflict(key) => Implication::Conflict(CompositeLinearPropagatorExplinKey::Cardinality(key)),
            Implication::Literal(l, key, slack, c) => Implication::Literal(
                l,
                CompositeLinearPropagatorExplinKey::Cardinality(key),
                slack,
                c,
            ),
        };
        implications.push(lifted);
        proof {
            assert(lifted_cardinality(events@.take(k as int + 1)) =~= lifted_cardinality(events@.take(k as int)).push(
                lifted,
            ));
        }
        k = k + 1;
    }
    proof {
        assert(events@.take(events@.len() as int) =~= events@);
    }
}

/// Appends the implications of the linear propagator under composite keys.
fn append_linear(
    implications: &mut Vec<Implication<CompositeLinearPropagatorExplinKey>>,
    events: &Vec<Implication<LinearPropagatorExplainKey>>,
)
    ensures
        final(implications)@ == old(implications)@ + lifted_linear(events@),
{
    let mut k: usize = 0;
    while k < events.len()
        invariant
            k <= events@.len(),
            implications@ == old(implications)@ + lifted_linear(events@.take(k as int)),
        decreases events@.len() - k,
    {
        let lifted = match events[k] {
            Implication::Conflict(key) => Implication::Conflict(CompositeLinearPropagatorExplinKey::Linear(key)),
            Implication::Literal(l, key, slack, c) => Implication::Literal(
                l,
                CompositeLinearPropagatorExplinKey::Linear(key),
                slack,
                c,
            ),
        };
        implications.push(lifted);
        proof {
            assert(lifted_linear(events@.take(k as int + 1)) =~= lifted_linear(events@.take(k as int)).push(lifted));
        }
        k = k + 1;
    }
    proof {
        assert(events@.take(events@.len() as int) =~= events@);
    }
}

/// The constraint behind a composite key: a row of either propagator.
pub enum CompositeRow<'a> {
    Cardinality(&'a CardinalityRow),
    Linear(&'a LinearRow),
}

impl<'a> Constraint for CompositeRow<'a> {
    open spec fn spec_terms(&self) -> Seq<(Literal, u64)> {
        match self {
            CompositeRow::Cardinality(row) => row.spec_terms(),
            CompositeRow::Linear(row) => row.spec_terms(),
        }
    }

    open spec fn spec_lower_bound(&self) -> u64 {
        match self {
            CompositeRow::Cardinality(row) => row.spec_lower_bound(),
            CompositeRow::Linear(row) => row.spec_lower_bound(),
        }
    }

    fn iter_terms(&self) -> (terms: Vec<(Literal, u64)>) {
        match self {
            CompositeRow::Cardinality(row) => row.iter_terms(),
            CompositeRow::Linear(row) => row.iter_terms(),
        }
    }

    fn lower_bound(&self) -> (lower_bound: u64) {
        match self {
            CompositeRow::Cardinality(row) => row.lower_bound(),
            CompositeRow::Linear(row) => row.lower_bound(),
        }
    }
}

/// A cardinality propagator and a linear propagator side by side: a
/// constraint is strengthened, then kept by the first when its
/// coefficients are all 1 and by the second otherwise.
pub struct CompositeLinearPropagator {
    cardinality_propagator: CardinalityPropagator,
    linear_propagator: LinearPropagator,
    constraint: CompressedConstraint,
}

impl CompositeLinearPropagator {
    /// The propagator of the cardinality constraints.
    pub closed spec fn cardinality(&self) -> CardinalityPropagator {
        self.cardinality_propagator
    }

    /// The propagator of the other constraints.
    pub closed spec fn linear(&self) -> LinearPropagator {
        self.linear_propagator
    }

    /// Both propagators are well formed, over as many variables.
    pub open spec fn wf(&self) -> bool {
        &&& self.cardinality().wf()
        &&& self.linear().wf()
        &&& self.cardinality().spec_number_of_variables() == self.linear().spec_number_of_variables()
    }

    /// A propagator with no variable and no constraint.
    pub fn new() -> (propagator: Self)
        ensures
            propagator.wf(),
            propagator.cardinality().rows() == Seq::<Option<CardinalityRow>>::empty(),
            propagator.cardinality().vacant().len() == 0,
            propagator.cardinality().spec_number_of_variables() == 0,
            propagator.cardinality().spec_unreflected_order() == 0,
            propagator.cardinality().spec_reduction_count() == 0,
            propagator.linear().rows() == Seq::<Option<LinearRow>>::empty(),
            propagator.linear().vacant().len() == 0,
            propagator.linear().spec_number_of_variables() == 0,
            propagator.linear().spec_unreflected_order() == 0,
            propagator.linear().spec_reduction_count() == 0,
    {
        Self {
            cardinality_propagator: CardinalityPropagator::new(),
            linear_propagator: LinearPropagator::new(),
            constraint: CompressedConstraint::new(Vec::new(), 0),
        }
    }

    /// Adds a variable to both propagators.
    pub fn add_variable(&mut self)
        requires
            old(self).wf(),
        ensures
            final(self).wf(),
            CardinalityPropagator::variable_added(old(self).cardinality(), final(self).cardinality()),
            LinearPropagator::variable_added(old(self).linear(), final(self).linear()),
    {
        self.cardinality_propagator.add_variable();
        self.linear_propagator.add_variable();
    }
    /// Propagates with the cardinality propagator, then with the linear
    /// one; their implications are appended under composite keys, those of
    /// the first before those of the second.
    pub fn propagate<E: Copy>(
        &mut self,
        state: &AssertionStack<E>,
        implications: &mut Vec<Implication<CompositeLinearPropagatorExplinKey>>,
    )
        requires
            old(self).wf(),
            state.wf(),
            old(self).cardinality().spec_number_of_variables() == state.spec_number_of_variables(),
            old(self).cardinality().spec_unreflected_order() <= state.trail().len(),
            old(self).linear().reflects(state.trail()),
        ensures
            final(self).wf(),
            exists|cardinality_events: Seq<Implication<CardinalityPropagatorExplainKey>>,
                linear_events: Seq<Implication<LinearPropagatorExplainKey>>|
                {
                    &&& CardinalityPropagator::propagation_done(
                        old(self).cardinality(),
                        final(self).cardinality(),
                        state.trail(),
                        Seq::empty(),
                        cardinality_events,
                    )
                    &&& LinearPropagator::propagation_done(
                        old(self).linear(),
                        final(self).linear(),
                        state.trail(),
                        Seq::empty(),
                        linear_events,
                    )
                    &&& final(implications)@ == old(implications)@ + lifted_cardinality(cardinality_events)
                        + lifted_linear(linear_events)
                },
    {
        let mut cardinality_events: Vec<Implication<CardinalityPropagatorExplainKey>> = Vec::new();
        self.cardinality_propagator.propagate(state, &mut cardinality_events);
        let mut linear_events: Vec<Implication<LinearPropagatorExplainKey>> = Vec::new();
        self.linear_propagator.propagate(state, &mut linear_events);
        append_cardinality(implications, &cardinality_events);
        append_linear(implications, &linear_events);
        proof {
            assert(CardinalityPropagator::propagation_done(
                old(self).cardinality(),
                self.cardinality(),
                state.trail(),
                Seq::empty(),
                cardinality_events@,
            ));
            assert(LinearPropagator::propagation_done(
                old(self).linear(),
                self.linear(),
                state.trail(),
                Seq::empty(),
                linear_events@,
            ));
        }
    }

    /// Whether a row stands behind `explain_key`.
    pub fn holds_row(&self, explain_key: CompositeLinearPropagatorExplinKey) -> (holds: bool)
        ensures
            holds == match explain_key {
                CompositeLinearPropagatorExplinKey::Cardinality(k) => k.spec_row_id().spec_index()
                    < self.cardinality().rows().len() && self.cardinality().rows()[k.spec_row_id().spec_index() as int] is Some,
                CompositeLinearPropagatorExplinKey::Linear(k) => k.spec_row_id().spec_index() < self.linear().rows().len()
                    && self.linear().rows()[k.spec_row_id().spec_index() as int] is Some,
            },
    {
        match explain_key {
            CompositeLinearPropagatorExplinKey::Cardinality(k) => self.cardinality_propagator.holds_row(k),
            CompositeLinearPropagatorExplinKey::Linear(k) => self.linear_propagator.holds_row(k),
        }
    }

    /// The row behind `explain_key`.
    pub fn explain(&self, explain_key: CompositeLinearPropagatorExplinKey) -> (row: CompositeRow<'_>)
        requires
            match explain_key {
                CompositeLinearPropagatorExplinKey::Cardinality(k) => k.spec_row_id().spec_index()
                    < self.cardinality().rows().len() && self.cardinality().rows()[k.spec_row_id().spec_index() as int] is Some,
                CompositeLinearPropagatorExplinKey::Linear(k) => k.spec_row_id().spec_index() < self.linear().rows().len()
                    && self.linear().rows()[k.spec_row_id().spec_index() as int] is Some,
            },
        ensures
            match (explain_key, row) {
                (CompositeLinearPropagatorExplinKey::Cardinality(k), CompositeRow::Cardinality(r)) => Some(*r)
                    == self.cardinality().rows()[k.spec_row_id().spec_index() as int],
                (CompositeLinearPropagatorExplinKey::Linear(k), CompositeRow::Linear(r)) => Some(*r)
                    == self.linear().rows()[k.spec_row_id().spec_index() as int],
                _ => false,
            },
    {
        match explain_key {
            CompositeLinearPropagatorExplinKey::Cardinality(k) => CompositeRow::Cardinality(
                self.cardinality_propagator.explain(k),
            ),
            CompositeLinearPropagatorExplinKey::Linear(k) => CompositeRow::Linear(self.linear_propagator.explain(k)),
        }
    }

    /// Backjumps both propagators to `backjump_level`.
    pub fn backjump<E: Copy>(&mut self, backjump_level: usize, state: &AssertionStack<E>)
        requires
            old(self).wf(),
            state.wf(),
            old(self).linear().spec_number_of_variables() == state.spec_number_of_variables(),
            old(self).linear().reflects(state.trail()),
            backjump_level <= state.decisions().len(),
        ensures
            final(self).wf(),
            CardinalityPropagator::backjumped(old(self).cardinality(), final(self).cardinality(), backjump_level, *state),
            LinearPropagator::backjumped(old(self).linear(), final(self).linear(), backjump_level, *state),
    {
        self.cardinality_propagator.backjump(backjump_level, state);
        self.linear_propagator.backjump(backjump_level, state);
    }

    /// Reduces the learnt rows of both propagators (see
    /// `CardinalityPropagator::learnt_reduced` and
    /// `LinearPropagator::learnt_reduced`); a propagator whose reduction
    /// count has reached `usize::MAX` is left as it is. Only at decision
    /// level 0.
    pub fn reduce_learnt_constraints<E: Copy>(&mut self, state: &AssertionStack<E>)
        requires
            old(self).wf(),
            state.wf(),
            state.decisions().len() == 0,
            old(self).cardinality().spec_number_of_variables() <= state.spec_number_of_variables(),
        ensures
            final(self).wf(),
            if old(self).cardinality().spec_reduction_count() < usize::MAX {
                CardinalityPropagator::learnt_reduced(old(self).cardinality(), final(self).cardinality(), state.trail())
            } else {
                final(self).cardinality() == old(self).cardinality()
            },
            if old(self).linear().spec_reduction_count() < usize::MAX {
                LinearPropagator::learnt_reduced(old(self).linear(), final(self).linear(), state.trail())
            } else {
                final(self).linear() == old(self).linear()
            },
    {
        if self.cardinality_propagator.reduction_count() < usize::MAX {
            self.cardinality_propagator.reduce_learnt_constraints(state);
        }
        if self.linear_propagator.reduction_count() < usize::MAX {
            self.linear_propagator.reduce_learnt_constraints(state);
        }
    }

    /// Hands each propagator the keys of its constraints involved in a
    /// conflict.
    pub fn receive_involved_constraints(&mut self, involved_constraints: &[CompositeLinearPropagatorExplinKey])
        requires
            old(self).wf(),
            forall|k: int|
                0 <= k < involved_constraints@.len() ==> match #[trigger] involved_constraints@[k] {
                    CompositeLinearPropagatorExplinKey::Cardinality(key) => key.spec_row_id().spec_index()
                        < old(self).cardinality().rows().len() && old(self).cardinality().rows()[key.spec_row_id().spec_index() as int] is Some,
                    CompositeLinearPropagatorExplinKey::Linear(key) => key.spec_row_id().spec_index()
                        < old(self).linear().rows().len() && old(self).linear().rows()[key.spec_row_id().spec_index() as int] is Some,
                },
        ensures
            final(self).wf(),
            CardinalityPropagator::involvement_received(
                old(self).cardinality(),
                final(self).cardinality(),
                cardinality_keys(involved_constraints@),
            ),
            LinearPropagator::involvement_received(
                old(self).linear(),
                final(self).linear(),
                linear_keys(involved_constraints@),
            ),
    {
        let mut cardinality: Vec<CardinalityPropagatorExplainKey> = Vec::new();
        let mut linear: Vec<LinearPropagatorExplainKey> = Vec::new();
        let mut k: usize = 0;
        while k < involved_constraints.len()
            invariant
                k <= involved_constraints@.len(),
                *self == *old(self),
                forall|j: int|
                    0 <= j < involved_constraints@.len() ==> match #[trigger] involved_constraints@[j] {
                        CompositeLinearPropagatorExplinKey::Cardinality(key) => key.spec_row_id().spec_index()
                            < self.cardinality().rows().len() && self.cardinality().rows()[key.spec_row_id().spec_index() as int] is Some,
                        CompositeLinearPropagatorExplinKey::Linear(key) => key.spec_row_id().spec_index()
                            < self.linear().rows().len() && self.linear().rows()[key.spec_row_id().spec_index() as int] is Some,
                    },
                cardinality@ == cardinality_keys(involved_constraints@.take(k as int)),
                linear@ == linear_keys(involved_constraints@.take(k as int)),
                forall|j: int|
                    0 <= j < cardinality@.len() ==> (#[trigger] cardinality@[j]).spec_row_id().spec_index()
                        < self.cardinality().rows().len() && self.cardinality().rows()[cardinality@[j].spec_row_id().spec_index() as int] is Some,
                forall|j: int|
                    0 <= j < linear@.len() ==> (#[trigger] linear@[j]).spec_row_id().spec_index()
                        < self.linear().rows().len() && self.linear().rows()[linear@[j].spec_row_id().spec_index() as int] is Some,
            decreases involved_constraints@.len() - k,
        {
            proof {
                assert(involved_constraints@.take(k as int + 1).drop_last() =~= involved_constraints@.take(k as int));
            }
            match involved_constraints[k] {
                CompositeLinearPropagatorExplinKey::Cardinality(key) => cardinality.push(key),
                CompositeLinearPropagatorExplinKey::Linear(key) => linear.push(key),
            }
            k = k + 1;
        }
        proof {
            assert(involved_constraints@.take(involved_constraints@.len() as int) =~= involved_constraints@);
        }
        self.cardinality_propagator.receive_involved_constraints(cardinality.as_slice());
        self.linear_propagator.receive_involved_constraints(linear.as_slice());
    }
    /// Adds `constraint` unless its lower bound is 0: strengthens its
    /// non-zero terms (see `strengthened`), and, unless that leaves the
    /// lower bound 0, adds the result to the cardinality propagator when
    /// its coefficients are all 1 and to the linear one otherwise, appending
    /// what the new row implies right away under composite keys.
    pub fn add_constraint<C: Constraint, E: Copy>(
        &mut self,
        constraint: &C,
        is_learnt: bool,
        state: &AssertionStack<E>,
        implications: &mut Vec<Implication<CompositeLinearPropagatorExplinKey>>,
    )
        requires
            old(self).wf(),
            state.wf(),
            old(self).cardinality().spec_unreflected_order() == state.trail().len(),
            old(self).linear().spec_unreflected_order() == state.trail().len(),
            old(self).linear().reflects(state.trail()),
            old(self).cardinality().spec_number_of_variables() <= state.spec_number_of_variables(),
            literals_in_range(constraint.spec_terms(), old(self).cardinality().spec_number_of_variables()),
            sum_coefficients(constraint.spec_terms()) <= u64::MAX,
            constraint.spec_lower_bound() <= usize::MAX,
        ensures
            final(self).wf(),
            ({
                let strong = strengthened(nonzero_terms(constraint.spec_terms()), constraint.spec_lower_bound());
                let terms = strong.0;
                let bound = strong.1;
                if constraint.spec_lower_bound() == 0 || bound == 0 {
                    &&& final(self).cardinality() == old(self).cardinality()
                    &&& final(self).linear() == old(self).linear()
                    &&& final(implications)@ == old(implications)@
                } else if unit_coefficients(terms) {
                    &&& final(self).linear() == old(self).linear()
                    &&& exists|events: Seq<Implication<CardinalityPropagatorExplainKey>>|
                        {
                            &&& CardinalityPropagator::constraint_added(
                                old(self).cardinality(),
                                final(self).cardinality(),
                                terms,
                                bound,
                                is_learnt,
                                state.trail(),
                                Seq::empty(),
                                events,
                            )
                            &&& final(implications)@ == old(implications)@ + lifted_cardinality(events)
                        }
                } else {
                    &&& final(self).cardinality() == old(self).cardinality()
                    &&& exists|events: Seq<Implication<LinearPropagatorExplainKey>>|
                        {
                            &&& LinearPropagator::constraint_added(
                                old(self).linear(),
                                final(self).linear(),
                                terms,
                                bound,
                                is_learnt,
                                state.trail(),
                                Seq::empty(),
                                events,
                            )
                            &&& final(implications)@ == old(implications)@ + lifted_linear(events)
                        }
                }
            }),
    {
        let ghost n = self.cardinality().spec_number_of_variables();
        let lower_bound = constraint.lower_bound();
        if lower_bound == 0 {
            return;
        }
        proof {
            lemma_keep_where_shape(constraint.spec_terms(), |t: (Literal, u64)| t.1 != 0, n);
            assert(nonzero_terms(constraint.spec_terms()) == crate::compressed_constraint::keep_where(
                constraint.spec_terms(),
                |t: (Literal, u64)| t.1 != 0,
            ));
            lemma_strengthened_shape(nonzero_terms(constraint.spec_terms()), lower_bound, n);
        }
        self.constraint.assign(constraint);
        proof {
            crate::compressed_constraint::lemma_sum_below_bounds(self.constraint.spec_terms(), self.constraint.spec_lower_bound(), 0);
        }
        self.constraint.strengthen2(state);
        if self.constraint.lower_bound() == 0 {
            return;
        }
        let terms = self.constraint.iter_terms();
        if all_unit(&terms) {
            let mut events: Vec<Implication<CardinalityPropagatorExplainKey>> = Vec::new();
            self.cardinality_propagator.add_constraint(&self.constraint, is_learnt, state, &mut events);
            append_cardinality(implications, &events);
            proof {
                assert(events@ =~= Seq::empty() + events@);
                assert(CardinalityPropagator::constraint_added(
                    old(self).cardinality(),
                    self.cardinality(),
                    self.constraint.spec_terms(),
                    self.constraint.spec_lower_bound(),
                    is_learnt,
                    state.trail(),
                    Seq::empty(),
                    events@,
                ));
            }
        } else {
            let mut events: Vec<Implication<LinearPropagatorExplainKey>> = Vec::new();
            self.linear_propagator.add_constraint(&self.constraint, is_learnt, state, &mut events);
            append_linear(implications, &events);
            proof {
                assert(LinearPropagator::constraint_added(
                    old(self).linear(),
                    self.linear(),
                    self.constraint.spec_terms(),
                    self.constraint.spec_lower_bound(),
                    is_learnt,
                    state.trail(),
                    Seq::empty(),
                    events@,
                ));
            }
        }
    }
}

} // verus!
