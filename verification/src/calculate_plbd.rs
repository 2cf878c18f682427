use vstd::prelude::*;

use crate::assertion_state::{asserted_before, assigned_at, AssertionInfo, AssertionStack, NULL_ORDER};
use crate::constraint::{literals_in_range, Constraint};
use crate::literal::Literal;
use crate::set::IndexSet;

verus! {

/// The decision levels in `1..=decision_level` at which a literal of
/// `terms` was falsified.
pub open spec fn plbd_levels<E>(
    terms: Seq<(Literal, u64)>,
    trail: Seq<AssertionInfo<E>>,
    decision_level: usize,
) -> Set<usize> {
    Set::new(
        |d: usize|
            0 < d <= decision_level && exists|k: int, o: int|
                0 <= k < terms.len() && 0 <= o < trail.len() && #[trigger] trail[o].predicate.spec_literal()
                    == (#[trigger] terms[k]).0.negated() && trail[o].decision_level == d,
    )
}

/// Counts the distinct decision levels of the falsified literals of a
/// constraint (its propagation literal block distance).
#[derive(Clone, Debug)]
pub struct CalculatePLBD {
    decision_level_set: IndexSet,
}

impl CalculatePLBD {
    /// The scratch set is well formed.
    pub closed spec fn wf(self) -> bool {
        self.decision_level_set.wf()
    }

    /// A calculator with an empty scratch set.
    pub fn new() -> (calculator: Self)
        ensures
            calculator.wf(),
    {
        Self { decision_level_set: IndexSet::new() }
    }

    /// The number of distinct decision levels in `1..=decision_level` at which
    /// a literal of `constraint` was falsified.
    pub fn calculate<ConstraintT: Constraint, E: Copy>(
        &mut self,
        constraint: &ConstraintT,
        state: &AssertionStack<E>,
        decision_level: usize,
    ) -> (plbd: usize)
        requires
            old(self).wf(),
            state.wf(),
            literals_in_range(constraint.spec_terms(), state.spec_number_of_variables()),
            decision_level <= usize::MAX / 2,
            constraint.spec_terms().len() + 1 < usize::MAX,
        ensures
            final(self).wf(),
            plbd == plbd_levels(constraint.spec_terms(), state.trail(), decision_level).len(),
    {
        let terms = constraint.iter_terms();
        let ghost trail = state.trail();
        self.decision_level_set.clear();
        let mut k: usize = 0;
        proof {
            assert(self.decision_level_set@ =~= plbd_levels(terms@.subrange(0, 0), trail, decision_level));
        }
        while k < terms.len()
            invariant
                self.wf(),
                state.wf(),
                trail == state.trail(),
                literals_in_range(terms@, state.spec_number_of_variables()),
                k <= terms@.len(),
                terms@.len() + 1 < usize::MAX,
                decision_level <= usize::MAX / 2,
                self.decision_level_set@ == plbd_levels(terms@.subrange(0, k as int), trail, decision_level),
                self.decision_level_set.spec_len() <= k,
            decreases terms@.len() - k,
        {
            let literal = terms[k].0;
            let literal_state = state.literal_state(literal);
            let ghost before = terms@.subrange(0, k as int);
            let ghost after = terms@.subrange(0, k as int + 1);
            let ghost old_set = self.decision_level_set@;
            let ghost old_len = self.decision_level_set.spec_len();
            let mut inserted: Option<usize> = None;
            if literal_state.is_false() {
                let level = literal_state.decision_level();
                match level {
                    Some(level) => {
                        if level != 0 && level <= decision_level {
                            proof {
                                self.decision_level_set.lemma_wf();
                            }
                            self.decision_level_set.insert(level);
                            inserted = Some(level);
                        }
                    },
                    None => {},
                }
            }
            proof {
                let lits_false = asserted_before(trail, literal.negated(), NULL_ORDER as int);
                assert forall|d: usize| #[trigger] plbd_levels(after, trail, decision_level).contains(d) == (
                old_set.contains(d) || inserted == Some(d)) by {
                    if plbd_levels(after, trail, decision_level).contains(d) {
                        let (k2, o) = choose|k2: int, o: int|
                            0 <= k2 < after.len() && 0 <= o < trail.len() && #[trigger] trail[o].predicate.spec_literal()
                                == (#[trigger] after[k2]).0.negated() && trail[o].decision_level == d;
                        if k2 < k {
                            assert(before[k2] == after[k2]);
                            assert(plbd_levels(before, trail, decision_level).contains(d));
                        } else {
                            assert(after[k2].0 == literal);
                            state.lemma_trail_bound();
                            assert(trail[o].predicate.spec_literal() == literal.negated());
                            assert(lits_false);
                            let o2 = choose|o2: int|
                                0 <= o2 < trail.len() && o2 < NULL_ORDER && #[trigger] trail[o2].predicate.spec_literal()
                                    == literal.negated();
                            broadcast use Literal::lemma_negated;
                            assert(assigned_at(trail, literal.spec_index(), o));
                            state.lemma_assigned_once(literal.spec_index(), o);
                        }
                    }
                    if old_set.contains(d) {
                        let (k2, o) = choose|k2: int, o: int|
                            0 <= k2 < before.len() && 0 <= o < trail.len() && #[trigger] trail[o].predicate.spec_literal()
                                == (#[trigger] before[k2]).0.negated() && trail[o].decision_level == d;
                        assert(after[k2] == before[k2]);
                    }
                    if inserted == Some(d) {
                        let o = choose|o: int|
                            0 <= o < trail.len() && o < NULL_ORDER && #[trigger] trail[o].predicate.spec_literal()
                                == literal.negated();
                        broadcast use Literal::lemma_negated;
                        assert(assigned_at(trail, literal.spec_index(), o));
                        state.lemma_assigned_once(literal.spec_index(), o);
                        assert(after[k as int].0 == literal);
                        assert(trail[o].predicate.spec_literal() == after[k as int].0.negated());
                    }
                }
                assert(self.decision_level_set@ =~= plbd_levels(after, trail, decision_level));
            }
            k = k + 1;
        }
        proof {
            assert(terms@.subrange(0, terms@.len() as int) =~= terms@);
        }
        self.decision_level_set.len()
    }
}

impl Default for CalculatePLBD {
    fn default() -> (calculator: Self)
        ensures
            calculator.wf(),
    {
        Self::new()
    }
}

} // verus!
