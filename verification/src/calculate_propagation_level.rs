use vstd::prelude::*;

use crate::assertion_state::{assigned_at, AssertionInfo, AssertionStack, NULL_ORDER};
use crate::constraint::{
    assigned_before, false_before, lemma_max_le_sum, lemma_sum_nonneg, lemma_sum_prefix,
    lemma_sum_where_bounds, lemma_sum_where_step, lemma_where_ext, lemma_where_split,
    literals_in_range, max_where, sum_coefficients, sum_where, Constraint,
};
use crate::assertion_state::asserted_before;
use crate::literal::Literal;

verus! {

/// Where a constraint propagates or conflicts.
#[derive(Clone, Copy, PartialEq, Eq, Structural, Debug)]
pub enum CalculatePropagationLevelOutput {
    /// It neither propagates nor conflicts at any decision level.
    Idle,
    /// It propagates at `decision_level`.
    Propagate { decision_level: usize },
    /// It conflicts at `decision_level`.
    Conflict { decision_level: usize },
}

/// The decision level of the assignment of the variable of `l`.
pub open spec fn level_of<E>(trail: Seq<AssertionInfo<E>>, l: Literal) -> int {
    trail[choose|k: int| assigned_at(trail, l.spec_index(), k)].decision_level as int
}

/// `l` is false.
pub open spec fn is_false<E>(trail: Seq<AssertionInfo<E>>, l: Literal) -> bool {
    false_before(trail, l, NULL_ORDER as int)
}

/// `l` counts at its decision level: it is false, or, when `with_true`, true.
pub open spec fn counted<E>(trail: Seq<AssertionInfo<E>>, l: Literal, with_true: bool) -> bool {
    is_false(trail, l) || (with_true && asserted_before(trail, l, NULL_ORDER as int))
}

/// Decision level `d` is examined: it is 0 or the level of a counted literal.
pub open spec fn present<E>(terms: Seq<(Literal, u64)>, trail: Seq<AssertionInfo<E>>, with_true: bool, d: int) -> bool {
    d == 0 || exists|k: int|
        0 <= k < terms.len() && counted(trail, (#[trigger] terms[k]).0, with_true) && level_of(trail, terms[k].0)
            == d
}

/// The greatest value the left-hand side can take once decision level `d`
/// is complete.
pub open spec fn sup_at<E>(terms: Seq<(Literal, u64)>, trail: Seq<AssertionInfo<E>>, d: int) -> int {
    sum_where(terms, |l: Literal| !(is_false(trail, l) && level_of(trail, l) <= d))
}

/// The greatest coefficient of a literal still unassigned once decision
/// level `d` is complete (counting only the counted literals as assigned).
pub open spec fn max_open_at<E>(terms: Seq<(Literal, u64)>, trail: Seq<AssertionInfo<E>>, with_true: bool, d: int) -> int {
    max_where(
        terms,
        |l: Literal|
            !assigned_before(trail, l, NULL_ORDER as int) || (counted(trail, l, with_true) && level_of(trail, l) > d),
    )
}

/// At decision level `d` the constraint conflicts or propagates.
pub open spec fn fires<E>(
    terms: Seq<(Literal, u64)>,
    lower_bound: u64,
    trail: Seq<AssertionInfo<E>>,
    with_true: bool,
    d: int,
) -> bool {
    &&& present(terms, trail, with_true, d)
    &&& (sup_at(terms, trail, d) < lower_bound || sup_at(terms, trail, d) - max_open_at(terms, trail, with_true, d) < lower_bound)
}

/// Finds the least decision level at which a constraint propagates or
/// conflicts.
#[derive(Clone, Debug)]
pub struct CalculatePropagationLevel {}

/// The decision level of an assigned literal is that of its assignment.
proof fn lemma_level_of<E: Copy>(state: AssertionStack<E>, l: Literal, k: int)
    requires
        state.wf(),
        assigned_at(state.trail(), l.spec_index(), k),
    ensures
        level_of(state.trail(), l) == state.trail()[k].decision_level,
        0 <= level_of(state.trail(), l) <= state.decisions().len(),
{
    state.lemma_assigned_once(l.spec_index(), k);
    state.lemma_trail_bound();
}

/// A false or true literal is assigned.
pub(crate) proof fn lemma_valued_assigned<E: Copy>(state: AssertionStack<E>, l: Literal)
    requires
        state.wf(),
        asserted_before(state.trail(), l, NULL_ORDER as int) || asserted_before(
            state.trail(),
            l.negated(),
            NULL_ORDER as int,
        ),
    ensures
        exists|k: int| assigned_at(state.trail(), l.spec_index(), k),
        0 <= level_of(state.trail(), l) <= state.decisions().len(),
{
    broadcast use Literal::lemma_negated;

    let trail = state.trail();
    if asserted_before(trail, l, NULL_ORDER as int) {
        let k = choose|k: int| 0 <= k < trail.len() && k < NULL_ORDER && #[trigger] trail[k].predicate.spec_literal() == l;
        lemma_level_of(state, l, k);
    } else {
        let k = choose|k: int|
            0 <= k < trail.len() && k < NULL_ORDER && #[trigger] trail[k].predicate.spec_literal() == l.negated();
        lemma_level_of(state, l, k);
    }
}

impl CalculatePropagationLevel {
    /// A calculator.
    pub fn new() -> (calculator: Self) {
        Self {}
    }

    /// The least decision level (among 0 and the levels of the counted
    /// literals, see `present`) at which `constraint` conflicts (the sum of
    /// its non-false coefficients once that level is complete is below the
    /// lower bound) or propagates (that sum less the greatest coefficient
    /// still unassigned is below it); true literals count only when
    /// `include_nonfalsified_literals`.
    pub fn calculate<ConstraintT: Constraint, E: Copy>(
        &self,
        constraint: &ConstraintT,
        state: &AssertionStack<E>,
        include_nonfalsified_literals: bool,
    ) -> (output: CalculatePropagationLevelOutput)
        requires
            state.wf(),
            literals_in_range(constraint.spec_terms(), state.spec_number_of_variables()),
            sum_coefficients(constraint.spec_terms()) <= u64::MAX,
            state.decisions().len() < usize::MAX,
        ensures
            match output {
                CalculatePropagationLevelOutput::Conflict { decision_level: d } => fires(
                    constraint.spec_terms(),
                    constraint.spec_lower_bound(),
                    state.trail(),
                    include_nonfalsified_literals,
                    d as int,
                ) && sup_at(constraint.spec_terms(), state.trail(), d as int)
                    < constraint.spec_lower_bound() && forall|d2: int|
                    0 <= d2 < d ==> !fires(
                        constraint.spec_terms(),
                        constraint.spec_lower_bound(),
                        state.trail(),
                        include_nonfalsified_literals,
                        d2,
                    ),
                CalculatePropagationLevelOutput::Propagate { decision_level: d } => fires(
                    constraint.spec_terms(),
                    constraint.spec_lower_bound(),
                    state.trail(),
                    include_nonfalsified_literals,
                    d as int,
                ) && sup_at(constraint.spec_terms(), state.trail(), d as int)
                    >= constraint.spec_lower_bound() && forall|d2: int|
                    0 <= d2 < d ==> !fires(
                        constraint.spec_terms(),
                        constraint.spec_lower_bound(),
                        state.trail(),
                        include_nonfalsified_literals,
                        d2,
                    ),
                CalculatePropagationLevelOutput::Idle => forall|d2: int|
                    0 <= d2 ==> !fires(
                        constraint.spec_terms(),
                        constraint.spec_lower_bound(),
                        state.trail(),
                        include_nonfalsified_literals,
                        d2,
                    ),
            },
    {
        let terms = constraint.iter_terms();
        let lower_bound = constraint.lower_bound();
        let with_true = include_nonfalsified_literals;
        let ghost trail = state.trail();
        let n = state.decision_level() + 1;
        let ghost decrease_spec = |d: int| |l: Literal| is_false(trail, l) && level_of(trail, l) == d;
        let ghost assigned_spec = |d: int| |l: Literal| counted(trail, l, with_true) && level_of(trail, l) == d;
        proof {
            lemma_sum_prefix(terms@, 0);
        }
        // The decrease of the supremum and the greatest counted coefficient
        // of each decision level, and whether the level is examined.
        let mut decrease: Vec<u64> = Vec::new();
        let mut max_assigned: Vec<u64> = Vec::new();
        let mut present_levels: Vec<bool> = Vec::new();
        let mut d: usize = 0;
        while d < n
            invariant
                d <= n,
                decrease@.len() == d,
                max_assigned@.len() == d,
                present_levels@.len() == d,
                forall|j: int| 0 <= j < d ==> #[trigger] decrease@[j] == 0,
                forall|j: int| 0 <= j < d ==> #[trigger] max_assigned@[j] == 0,
                forall|j: int| 0 <= j < d ==> #[trigger] present_levels@[j] == (j == 0),
            decreases n - d,
        {
            decrease.push(0);
            max_assigned.push(0);
            present_levels.push(d == 0);
            d = d + 1;
        }
        proof {
            assert(terms@.subrange(0, 0) =~= Seq::<(Literal, u64)>::empty());
        }
        let mut k: usize = 0;
        while k < terms.len()
            invariant
                state.wf(),
                trail == state.trail(),
                n == state.decisions().len() + 1,
                literals_in_range(terms@, state.spec_number_of_variables()),
                sum_coefficients(terms@) <= u64::MAX,
                k <= terms@.len(),
                decrease@.len() == n,
                max_assigned@.len() == n,
                present_levels@.len() == n,
                decrease_spec == (|d: int| |l: Literal| is_false(trail, l) && level_of(trail, l) == d),
                assigned_spec == (|d: int| |l: Literal| counted(trail, l, with_true) && level_of(trail, l) == d),
                forall|j: int| 0 <= j < n ==> #[trigger] decrease@[j] == sum_where(terms@.subrange(0, k as int), decrease_spec(j)),
                forall|j: int| 0 <= j < n ==> #[trigger] max_assigned@[j] == max_where(terms@.subrange(0, k as int), assigned_spec(j)),
                forall|j: int| 0 <= j < n ==> #[trigger] present_levels@[j] == (j == 0 || exists|i: int|
                    0 <= i < k && counted(trail, (#[trigger] terms@[i]).0, with_true) && level_of(trail, terms@[i].0) == j),
            decreases terms@.len() - k,
        {
            let (literal, coefficient) = terms[k];
            let literal_state = state.literal_state(literal);
            let is_false_literal = literal_state.is_false();
            let is_counted = is_false_literal || (with_true && literal_state.is_true());
            proof {
                let before = terms@.subrange(0, k as int);
                let after = terms@.subrange(0, k as int + 1);
                assert forall|j: int| 0 <= j < n implies #[trigger] sum_where(after, decrease_spec(j)) == sum_where(before, decrease_spec(j)) + if decrease_spec(j)(literal) { coefficient as int } else { 0 } by {
                    lemma_sum_where_step(terms@, decrease_spec(j), k as int);
                }
                assert forall|j: int| 0 <= j < n implies #[trigger] max_where(after, assigned_spec(j)) == if assigned_spec(j)(literal) && coefficient > max_where(before, assigned_spec(j)) { coefficient as int } else { max_where(before, assigned_spec(j)) } by {
                    lemma_sum_where_step(terms@, assigned_spec(j), k as int);
                }
                assert forall|j: int| 0 <= j < n implies #[trigger] sum_where(after, decrease_spec(j)) <= u64::MAX by {
                    lemma_sum_where_bounds(after, decrease_spec(j));
                    lemma_sum_prefix(terms@, k as int + 1);
                }
            }
            if is_counted {
                proof {
                    lemma_valued_assigned(*state, literal);
                }
                let level = literal_state.decision_level().unwrap();
                proof {
                    let o = choose|o: int| assigned_at(trail, literal.spec_index(), o) && trail[o].decision_level == level;
                    lemma_level_of(*state, literal, o);
                }
                proof {
                    let after = terms@.subrange(0, k as int + 1);
                    assert(sum_where(after, decrease_spec(level as int)) <= u64::MAX);
                    assert(max_where(after, assigned_spec(level as int)) == max_where(after, assigned_spec(level as int)));
                }
                if is_false_literal {
                    let current = decrease[level];
                    decrease.set(level, current + coefficient);
                }
                if coefficient > max_assigned[level] {
                    max_assigned.set(level, coefficient);
                }
                present_levels.set(level, true);
            }
            proof {
                let after = terms@.subrange(0, k as int + 1);
                assert forall|j: int| 0 <= j < n implies #[trigger] present_levels@[j] == (j == 0 || exists|i: int|
                    0 <= i < k + 1 && counted(trail, (#[trigger] terms@[i]).0, with_true) && level_of(trail, terms@[i].0) == j) by {
                    if is_counted && j == level_of(trail, literal) {
                        assert(terms@[k as int].0 == literal);
                    }
                }
            }
            k = k + 1;
        }
        proof {
            assert(terms@.subrange(0, terms@.len() as int) =~= terms@);
            assert forall|j: int| 0 <= j < n implies #[trigger] present_levels@[j] == present(terms@, trail, with_true, j) by {}
        }
        // The supremum and the greatest unassigned coefficient now.
        let mut sup = constraint.sup_literal_terms(state);
        let mut max_open = constraint.max_unassigned_coefficient(state);
        // The same once each decision level is complete, from the highest
        // level down.
        let mut sup_lhs: Vec<u64> = Vec::new();
        let mut max_unassigned: Vec<u64> = Vec::new();
        let mut j: usize = 0;
        while j < n
            invariant
                j <= n,
                sup_lhs@.len() == j,
                max_unassigned@.len() == j,
            decreases n - j,
        {
            sup_lhs.push(0);
            max_unassigned.push(0);
            j = j + 1;
        }
        proof {
            let top = n as int - 1;
            let p_now = |l: Literal| !false_before(trail, l, NULL_ORDER as int);
            let p_top = |l: Literal| !(is_false(trail, l) && level_of(trail, l) <= top);
            assert forall|l: Literal| #[trigger] p_now(l) == p_top(l) by {
                if is_false(trail, l) {
                    lemma_valued_assigned(*state, l);
                }
            }
            lemma_where_ext(terms@, p_now, p_top);
            let m_now = |l: Literal| !assigned_before(trail, l, NULL_ORDER as int);
            let m_top = |l: Literal| !assigned_before(trail, l, NULL_ORDER as int) || (counted(trail, l, with_true) && level_of(trail, l) > top);
            assert forall|l: Literal| #[trigger] m_now(l) == m_top(l) by {
                if counted(trail, l, with_true) {
                    lemma_valued_assigned(*state, l);
                }
            }
            lemma_where_ext(terms@, m_now, m_top);
        }
        let mut d: usize = n;
        while d > 0
            invariant
                d <= n,
                sup_lhs@.len() == n,
                max_unassigned@.len() == n,
                decrease@.len() == n,
                max_assigned@.len() == n,
                sum_coefficients(terms@) <= u64::MAX,
                decrease_spec == (|d: int| |l: Literal| is_false(trail, l) && level_of(trail, l) == d),
                assigned_spec == (|d: int| |l: Literal| counted(trail, l, with_true) && level_of(trail, l) == d),
                forall|j: int| 0 <= j < n ==> #[trigger] decrease@[j] == sum_where(terms@, decrease_spec(j)),
                forall|j: int| 0 <= j < n ==> #[trigger] max_assigned@[j] == max_where(terms@, assigned_spec(j)),
                sup == sup_at(terms@, trail, d as int - 1),
                max_open == max_open_at(terms@, trail, with_true, d as int - 1),
                forall|j: int| d <= j < n ==> #[trigger] sup_lhs@[j] == sup_at(terms@, trail, j),
                forall|j: int| d <= j < n ==> #[trigger] max_unassigned@[j] == max_open_at(terms@, trail, with_true, j),
            decreases d,
        {
            d = d - 1;
            sup_lhs.set(d, sup);
            max_unassigned.set(d, max_open);
            proof {
                let e = d as int;
                let p_after = |l: Literal| !(is_false(trail, l) && level_of(trail, l) <= e - 1);
                let p_now = |l: Literal| !(is_false(trail, l) && level_of(trail, l) <= e);
                assert forall|l: Literal| #[trigger] p_after(l) == (p_now(l) || decrease_spec(e)(l)) by {}
                lemma_where_split(terms@, p_after, p_now, decrease_spec(e));
                lemma_sum_where_bounds(terms@, p_after);
                let m_after = |l: Literal| !assigned_before(trail, l, NULL_ORDER as int) || (counted(trail, l, with_true) && level_of(trail, l) > e - 1);
                let m_now = |l: Literal| !assigned_before(trail, l, NULL_ORDER as int) || (counted(trail, l, with_true) && level_of(trail, l) > e);
                assert forall|l: Literal| #[trigger] m_after(l) == (m_now(l) || assigned_spec(e)(l)) by {}
                lemma_where_split(terms@, m_after, m_now, assigned_spec(e));
            }
            sup = sup + decrease[d];
            if max_assigned[d] > max_open {
                max_open = max_assigned[d];
            }
        }
        // The least examined level that conflicts or propagates.
        let mut d: usize = 0;
        while d < n
            invariant
                state.wf(),
                trail == state.trail(),
                n == state.decisions().len() + 1,
                d <= n,
                lower_bound == constraint.spec_lower_bound(),
                terms@ == constraint.spec_terms(),
                with_true == include_nonfalsified_literals,
                sup_lhs@.len() == n,
                max_unassigned@.len() == n,
                present_levels@.len() == n,
                forall|j: int| 0 <= j < n ==> #[trigger] sup_lhs@[j] == sup_at(terms@, trail, j),
                forall|j: int| 0 <= j < n ==> #[trigger] max_unassigned@[j] == max_open_at(terms@, trail, with_true, j),
                forall|j: int| 0 <= j < n ==> #[trigger] present_levels@[j] == present(terms@, trail, with_true, j),
                forall|d2: int| 0 <= d2 < d ==> !fires(terms@, lower_bound, trail, with_true, d2),
            decreases n - d,
        {
            if present_levels[d] {
                if sup_lhs[d] < lower_bound {
                    return CalculatePropagationLevelOutput::Conflict { decision_level: d };
                }
                proof {
                    broadcast use Literal::lemma_negated;

                    let e = d as int;
                    let m = |l: Literal| !assigned_before(trail, l, NULL_ORDER as int) || (counted(trail, l, with_true) && level_of(trail, l) > e);
                    let q = |l: Literal| !(is_false(trail, l) && level_of(trail, l) <= e);
                    assert forall|l: Literal| #[trigger] m(l) implies q(l) by {
                        if is_false(trail, l) {
                            let o = choose|o: int| 0 <= o < trail.len() && o < NULL_ORDER && #[trigger] trail[o].predicate.spec_literal() == l.negated();
                            assert(assigned_at(trail, l.spec_index(), o));
                        }
                    }
                    lemma_max_le_sum(terms@, m, q);
                }
                if sup_lhs[d] - max_unassigned[d] < lower_bound {
                    return CalculatePropagationLevelOutput::Propagate { decision_level: d };
                }
            }
            d = d + 1;
        }
        proof {
            assert forall|d2: int| 0 <= d2 implies !fires(terms@, lower_bound, trail, with_true, d2) by {
                if d2 >= n && present(terms@, trail, with_true, d2) {
                    let i = choose|i: int| 0 <= i < terms@.len() && counted(trail, (#[trigger] terms@[i]).0, with_true) && level_of(trail, terms@[i].0) == d2;
                    lemma_valued_assigned(*state, terms@[i].0);
                }
            }
        }
        CalculatePropagationLevelOutput::Idle
    }
}

impl Default for CalculatePropagationLevel {
    fn default() -> (calculator: Self) {
        Self::new()
    }
}

} // verus!
