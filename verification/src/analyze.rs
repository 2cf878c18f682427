//! Conflict analysis, one round at a time: whether the current conflict
//! constraint can be learnt, proves unsatisfiability, or must be resolved
//! with the reason of its latest implied false literal.
use vstd::prelude::*;

use crate::assertion_state::{asserted_before, assigned_at, AssertionInfo, AssertionStack, Reason, NULL_ORDER};
use crate::calculate_propagation_level::{
    counted, fires, is_false, lemma_valued_assigned, level_of, max_open_at, present, sup_at,
    CalculatePropagationLevel, CalculatePropagationLevelOutput,
};
use crate::compressed_constraint::{
    keep_where, strengthened, holds_under, lemma_drop_fixed_equivalent, lemma_strengthen_sound, lhs_under, nonzero_terms, CompressedConstraint,
};
use crate::constraint::{
    first_coefficient, lemma_where_ext, false_before, fixed_at_root, literals_in_range, max_where, sum_coefficients, sum_where, Constraint,
};
use crate::explain::KeyEq;
use crate::literal::Literal;
use crate::rescale::{
    coefficients_fit, lemma_nonzero_value, lemma_rescale_sound, narrowed, rescale_fits, rescaled, Rescale,
};
use crate::resolve::{
    first_of_variable, lemma_resolve_sound, order_of_variable, resolution_fits, resolution_sum, widened, Resolve,
};
use crate::round::{distinct_variables, value_under};
use crate::random_constraint::{entries_terms, sum_below_entries, is_enumeration, lemma_strengthen_map_sound, strengthened_map};

verus! {

/// What a round of conflict analysis decides.
#[derive(Clone, Copy, Debug)]
pub enum AnalyzeStep<ExplainKeyT> {
    /// The constraint propagates once the search backjumps to
    /// `backjump_level`: it is the learnt constraint.
    Learnt { backjump_level: usize },
    /// The constraint conflicts at decision level 0.
    Unsatisfiable,
    /// The constraint is to be resolved with the constraint behind `reason`,
    /// which implied `target` at order `order`.
    Resolve { target: Literal, reason: ExplainKeyT, order: usize },
    /// Nothing decides: the constraint neither conflicts nor propagates at
    /// any level, or it conflicts above level 0 and none of its literals
    /// false before the conflict order was implied.
    Exhausted,
}

/// `step` is the decision of a round of analysis on `terms >= lower_bound`
/// with the literals false before `order` still to be explained (see
/// `Analyze::next_step`).
pub open spec fn step_holds<E>(
    terms: Seq<(Literal, u64)>,
    lb: u64,
    trail: Seq<AssertionInfo<E>>,
    order: int,
    step: AnalyzeStep<E>,
) -> bool {
    match step {
        AnalyzeStep::Learnt { backjump_level } => {
            &&& first_fires_by_propagating(terms, lb, trail)
            &&& least_firing(terms, lb, trail, true, backjump_level as int)
        },
        AnalyzeStep::Unsatisfiable => least_firing(terms, lb, trail, false, 0) && sup_at(terms, trail, 0) < lb,
        AnalyzeStep::Resolve { target, reason, order: step_order } => {
            &&& exists|d: int| #[trigger] least_firing(terms, lb, trail, false, d) && d > 0 && sup_at(terms, trail, d) < lb
            &&& step_order < order
            &&& assigned_at(trail, target.spec_index(), step_order as int)
            &&& trail[step_order as int].predicate.spec_literal() == target
            &&& trail[step_order as int].reason == Reason::Implication { explain_key: reason }
            &&& exists|k: int| 0 <= k < terms.len() && (#[trigger] terms[k]).0 == target.negated()
            &&& forall|k: int|
                0 <= k < terms.len() && implied_false_before(trail, (#[trigger] terms[k]).0, order) ==> order_of_variable(
                    trail,
                    terms[k].0.spec_index(),
                ) <= step_order
        },
        AnalyzeStep::Exhausted => {
            ||| forall|d: int| 0 <= d ==> !fires(terms, lb, trail, false, d)
            ||| (exists|d: int| #[trigger] least_firing(terms, lb, trail, false, d) && d > 0 && sup_at(terms, trail, d) < lb)
                && !has_implied_false(terms, trail, order)
        },
    }
}

/// `assignment` gives each literal fixed at decision level 0 the value it
/// has on the trail.
pub open spec fn agrees_at_root<E>(trail: Seq<AssertionInfo<E>>, assignment: spec_fn(nat) -> bool) -> bool {
    forall|l: Literal|
        #[trigger] fixed_at_root(trail, l) ==> (holds_under(l, assignment) <==> asserted_before(
            trail,
            l,
            NULL_ORDER as int,
        ))
}

/// `assignment` satisfies every constraint that `explain` gives for one of
/// `keys`.
pub open spec fn explained_hold<C: Constraint, E, F: Fn(E) -> C>(
    explain: F,
    keys: Seq<E>,
    assignment: spec_fn(nat) -> bool,
) -> bool {
    forall|i: int, c: C|
        0 <= i < keys.len() && #[trigger] call_ensures(explain, (keys[i],), c) ==> lhs_under(c.spec_terms(), assignment)
            >= c.spec_lower_bound()
}

/// Every assignment that agrees with the trail at decision level 0 and
/// satisfies the constraints that `explain` gives for `keys` satisfies
/// `terms >= lower_bound`.
pub open spec fn implied_by<C: Constraint, E, F: Fn(E) -> C>(
    terms: Seq<(Literal, u64)>,
    lower_bound: u64,
    trail: Seq<AssertionInfo<E>>,
    explain: F,
    keys: Seq<E>,
) -> bool {
    forall|a: spec_fn(nat) -> bool|
        agrees_at_root(trail, a) && #[trigger] explained_hold(explain, keys, a) ==> lhs_under(terms, a) >= lower_bound
}

/// `terms >= lower_bound` is implied (see `implied_by`) by the constraints
/// that `explain` gives for some keys.
pub open spec fn implied_by_some<C: Constraint, E, F: Fn(E) -> C>(
    terms: Seq<(Literal, u64)>,
    lower_bound: u64,
    trail: Seq<AssertionInfo<E>>,
    explain: F,
) -> bool {
    exists|keys: Seq<E>| #[trigger] implied_by(terms, lower_bound, trail, explain, keys)
}

/// `d` is the least decision level at which the constraint fires.
pub open spec fn least_firing<E>(
    terms: Seq<(Literal, u64)>,
    lower_bound: u64,
    trail: Seq<AssertionInfo<E>>,
    with_true: bool,
    d: int,
) -> bool {
    &&& d >= 0
    &&& fires(terms, lower_bound, trail, with_true, d)
    &&& forall|d2: int| 0 <= d2 < d ==> !fires(terms, lower_bound, trail, with_true, d2)
}

/// The least decision level at which the constraint fires, only false
/// literals counting, is one at which it propagates.
pub open spec fn first_fires_by_propagating<E>(terms: Seq<(Literal, u64)>, lower_bound: u64, trail: Seq<AssertionInfo<E>>) -> bool {
    exists|d: int| #[trigger] least_firing(terms, lower_bound, trail, false, d) && sup_at(terms, trail, d) >= lower_bound
}

/// `l` is false before `order`, and the assignment of its variable was an
/// implication.
pub open spec fn implied_false_before<E>(trail: Seq<AssertionInfo<E>>, l: Literal, order: int) -> bool {
    &&& false_before(trail, l, order)
    &&& trail[order_of_variable(trail, l.spec_index())].reason is Implication
}

/// Some literal of `terms` is false before `order` by an implication.
pub open spec fn has_implied_false<E>(terms: Seq<(Literal, u64)>, trail: Seq<AssertionInfo<E>>, order: int) -> bool {
    exists|k: int| 0 <= k < terms.len() && implied_false_before(trail, (#[trigger] terms[k]).0, order)
}

/// The greatest coefficient among the literals that `p` holds of grows
/// with `p`.
proof fn lemma_max_where_grows(terms: Seq<(Literal, u64)>, p: spec_fn(Literal) -> bool, q: spec_fn(Literal) -> bool)
    requires
        forall|k: int| 0 <= k < terms.len() && p((#[trigger] terms[k]).0) ==> q(terms[k].0),
    ensures
        max_where(terms, p) <= max_where(terms, q),
    decreases terms.len(),
{
    if terms.len() > 0 {
        let rest = terms.drop_last();
        assert forall|k: int| 0 <= k < rest.len() && p((#[trigger] rest[k]).0) implies q(rest[k].0) by {
            assert(rest[k] == terms[k]);
        }
        lemma_max_where_grows(rest, p, q);
        assert(p(terms.last().0) ==> q(terms[terms.len() - 1].0));
    }
}

/// A level at which a constraint fires when only false literals count is
/// one at which it fires when true ones count too.
proof fn lemma_fires_with_true<E>(terms: Seq<(Literal, u64)>, lower_bound: u64, trail: Seq<AssertionInfo<E>>, d: int)
    requires
        fires(terms, lower_bound, trail, false, d),
    ensures
        fires(terms, lower_bound, trail, true, d),
{
    if d != 0 {
        let k = choose|k: int|
            0 <= k < terms.len() && counted(trail, (#[trigger] terms[k]).0, false)
                && crate::calculate_propagation_level::level_of(trail, terms[k].0) == d;
        assert(counted(trail, terms[k].0, true));
        assert(present(terms, trail, true, d));
    }
    let p = |l: Literal|
        !crate::constraint::assigned_before(trail, l, crate::assertion_state::NULL_ORDER as int) || (counted(
            trail,
            l,
            false,
        ) && crate::calculate_propagation_level::level_of(trail, l) > d);
    let q = |l: Literal|
        !crate::constraint::assigned_before(trail, l, crate::assertion_state::NULL_ORDER as int) || (counted(
            trail,
            l,
            true,
        ) && crate::calculate_propagation_level::level_of(trail, l) > d);
    lemma_max_where_grows(terms, p, q);
    assert(max_open_at(terms, trail, false, d) == max_where(terms, p));
    assert(max_open_at(terms, trail, true, d) == max_where(terms, q));
}

/// What conflict analysis finds.
#[derive(Clone, Debug)]
pub enum PpbAnalyzeOutput<ExplainKeyT> {
    /// `refutation`, derived from the constraints of the conflict, conflicts
    /// at decision level 0.
    Unsatisfiable { refutation: CompressedConstraint },
    /// The search should backjump to `backjump_level` and learn
    /// `learnt_constraint`, derived from the constraints behind
    /// `involved_constraints` (the conflict's first, then the reasons in the
    /// order they were first resolved with, each key once).
    Learnt {
        backjump_level: usize,
        learnt_constraint: CompressedConstraint,
        involved_constraints: Vec<ExplainKeyT>,
    },
    /// The analysis stopped short: a constraint was not falsified where it
    /// had to be, a literal to resolve on had no reason or no term in its
    /// reason, a constraint had a literal beyond the variables or
    /// coefficients summing past 64 bits, or a resolution or rescaling
    /// would have left 128-bit arithmetic.
    Abandoned,
}

/// Whether every literal of `terms` is over one of `n` variables.
pub(crate) fn terms_in_range(terms: &Vec<(Literal, u64)>, n: usize) -> (in_range: bool)
    ensures
        in_range == literals_in_range(terms@, n as nat),
{
    let mut k: usize = 0;
    while k < terms.len()
        invariant
            k <= terms@.len(),
            forall|j: int| 0 <= j < k ==> (#[trigger] terms@[j]).0.spec_index() < n,
        decreases terms@.len() - k,
    {
        if terms[k].0.index() >= n {
            return false;
        }
        k = k + 1;
    }
    true
}

/// Whether every literal of `terms` is over one of `n` variables.
fn wide_terms_in_range(terms: &Vec<(Literal, u128)>, n: usize) -> (in_range: bool)
    ensures
        in_range == literals_in_range(narrowed(terms@), n as nat),
{
    let mut k: usize = 0;
    while k < terms.len()
        invariant
            k <= terms@.len(),
            forall|j: int| 0 <= j < k ==> (#[trigger] terms@[j]).0.spec_index() < n,
        decreases terms@.len() - k,
    {
        if terms[k].0.index() >= n {
            proof {
                assert(narrowed(terms@)[k as int].0 == terms@[k as int].0);
            }
            return false;
        }
        k = k + 1;
    }
    proof {
        assert forall|j: int| 0 <= j < narrowed(terms@).len() implies (#[trigger] narrowed(terms@)[j]).0.spec_index()
            < n by {
            assert(narrowed(terms@)[j].0 == terms@[j].0);
        }
    }
    true
}

/// The literal of the first term of `terms` on variable `v`, if any.
fn first_literal_of_variable(terms: &Vec<(Literal, u64)>, v: usize) -> (found: Option<Literal>)
    ensures
        found == first_of_variable(terms@, v as nat),
{
    let mut k: usize = 0;
    proof {
        assert(terms@.subrange(0, terms@.len() as int) =~= terms@);
    }
    while k < terms.len()
        invariant
            k <= terms@.len(),
            first_of_variable(terms@, v as nat) == first_of_variable(
                terms@.subrange(k as int, terms@.len() as int),
                v as nat,
            ),
        decreases terms@.len() - k,
    {
        proof {
            let rest = terms@.subrange(k as int, terms@.len() as int);
            assert(rest.drop_first() =~= terms@.subrange(k as int + 1, terms@.len() as int));
            assert(rest[0] == terms@[k as int]);
        }
        if terms[k].0.index() == v {
            return Some(terms[k].0);
        }
        k = k + 1;
    }
    proof {
        assert(terms@.subrange(k as int, terms@.len() as int).len() == 0);
    }
    None
}

/// The terms of `terms` not fixed at decision level 0.
pub open spec fn unfixed_terms<E>(terms: Seq<(Literal, u64)>, trail: Seq<AssertionInfo<E>>) -> Seq<(Literal, u64)> {
    keep_where(terms, |t: (Literal, u64)| !fixed_at_root(trail, t.0))
}

/// What the true literals fixed at decision level 0 take of the lower
/// bound.
pub open spec fn fixed_true_total<E>(terms: Seq<(Literal, u64)>, trail: Seq<AssertionInfo<E>>) -> int {
    sum_where(terms, |l: Literal| fixed_at_root(trail, l) && asserted_before(trail, l, NULL_ORDER as int))
}

/// The prepared constraint: the variables fixed at decision level 0
/// dropped, then strengthened.
pub open spec fn prepared<E>(terms: Seq<(Literal, u64)>, lower_bound: u64, trail: Seq<AssertionInfo<E>>) -> (
    Seq<(Literal, u64)>,
    u64,
) {
    strengthened(unfixed_terms(terms, trail), (lower_bound - fixed_true_total(terms, trail)) as u64)
}

/// A constraint can be prepared: its literals are over the `n` variables
/// and its coefficients sum to at most `u64::MAX`, before and after each
/// step, and the true literals fixed at level 0 take no more than the lower
/// bound.
pub open spec fn preparable<E>(terms: Seq<(Literal, u64)>, lower_bound: u64, trail: Seq<AssertionInfo<E>>, n: nat) -> bool {
    let kept = unfixed_terms(terms, trail);
    let (t, _l) = prepared(terms, lower_bound, trail);
    &&& literals_in_range(terms, n)
    &&& sum_coefficients(terms) <= u64::MAX
    &&& fixed_true_total(terms, trail) <= lower_bound
    &&& literals_in_range(kept, n)
    &&& sum_coefficients(kept) <= u64::MAX
    &&& literals_in_range(t, n)
    &&& sum_coefficients(t) <= u64::MAX
}

/// Checks that `constraint` is over the variables of `state` with
/// coefficients summing to at most `u64::MAX`, drops its variables fixed at
/// decision level 0 and strengthens it; returns whether the checks held
/// before and after.
fn prepare<E: Copy>(constraint: &mut CompressedConstraint, state: &AssertionStack<E>) -> (ready: bool)
    requires
        state.wf(),
    ensures
        ready == preparable(
            old(constraint).spec_terms(),
            old(constraint).spec_lower_bound(),
            state.trail(),
            state.spec_number_of_variables(),
        ),
        ready ==> (final(constraint).spec_terms(), final(constraint).spec_lower_bound()) == prepared(
            old(constraint).spec_terms(),
            old(constraint).spec_lower_bound(),
            state.trail(),
        ),
        ready ==> literals_in_range(final(constraint).spec_terms(), state.spec_number_of_variables()),
        ready ==> sum_coefficients(final(constraint).spec_terms()) <= u64::MAX,
        ready ==> forall|a: spec_fn(nat) -> bool|
            agrees_at_root(state.trail(), a) && #[trigger] lhs_under(old(constraint).spec_terms(), a)
                >= old(constraint).spec_lower_bound() ==> lhs_under(final(constraint).spec_terms(), a)
                >= final(constraint).spec_lower_bound(),
{
    let n = state.number_of_variables();
    if !terms_in_range(&constraint.iter_terms(), n) || !coefficients_fit(&constraint.iter_terms()) {
        return false;
    }
    let ghost t0 = constraint.spec_terms();
    let ghost lb0 = constraint.spec_lower_bound();
    if !constraint.try_drop_fixed_variables2(state) {
        return false;
    }
    if !terms_in_range(&constraint.iter_terms(), n) || !coefficients_fit(&constraint.iter_terms()) {
        return false;
    }
    let ghost t1 = constraint.spec_terms();
    let ghost lb1 = constraint.spec_lower_bound();
    proof {
        crate::compressed_constraint::lemma_sum_below_bounds(constraint.spec_terms(), constraint.spec_lower_bound(), 0);
    }
    constraint.strengthen2(state);
    proof {
        assert forall|a: spec_fn(nat) -> bool|
            agrees_at_root(state.trail(), a) && #[trigger] lhs_under(t0, a) >= lb0 implies lhs_under(
                constraint.spec_terms(),
                a,
            ) >= constraint.spec_lower_bound() by {
            lemma_drop_fixed_equivalent(t0, lb0, state.trail(), a);
            lemma_strengthen_sound(t1, lb1, a);
        }
    }
    terms_in_range(&constraint.iter_terms(), n) && coefficients_fit(&constraint.iter_terms())
}

/// Whether no two terms of `terms`, whose literals are over `n` variables,
/// are over the same variable.
fn distinct_terms(terms: &Vec<(Literal, u64)>, n: usize) -> (distinct: bool)
    requires
        literals_in_range(terms@, n as nat),
    ensures
        distinct == distinct_variables(widened(terms@)),
{
    let mut seen: Vec<bool> = Vec::new();
    while seen.len() < n
        invariant
            seen@.len() <= n,
            forall|v: int| 0 <= v < seen@.len() ==> !seen@[v],
        decreases n - seen@.len(),
    {
        seen.push(false);
    }
    let mut k: usize = 0;
    while k < terms.len()
        invariant
            seen@.len() == n,
            literals_in_range(terms@, n as nat),
            k <= terms@.len(),
            forall|j: int| 0 <= j < k ==> seen@[(#[trigger] terms@[j]).0.spec_index() as int],
            forall|v: int|
                0 <= v < n && #[trigger] seen@[v] ==> exists|j: int| 0 <= j < k && terms@[j].0.spec_index() == v,
            forall|i: int, j: int|
                0 <= i < j < k ==> (#[trigger] terms@[i]).0.spec_index() != (#[trigger] terms@[j]).0.spec_index(),
        decreases terms@.len() - k,
    {
        let v = terms[k].0.index();
        proof {
            assert(terms@[k as int].0.spec_index() < n);
        }
        if seen[v] {
            proof {
                let j = choose|j: int| 0 <= j < k && terms@[j].0.spec_index() == v;
                assert(widened(terms@)[j].0 == terms@[j].0);
                assert(widened(terms@)[k as int].0 == terms@[k as int].0);
            }
            return false;
        }
        seen.set(v, true);
        proof {
            assert forall|w: int| 0 <= w < n && #[trigger] seen@[w] implies exists|j: int|
                0 <= j < k + 1 && terms@[j].0.spec_index() == w by {
                if w == v {
                    assert(terms@[k as int].0.spec_index() == w);
                } else {
                    let j = choose|j: int| 0 <= j < k && terms@[j].0.spec_index() == w;
                }
            }
        }
        k = k + 1;
    }
    proof {
        assert forall|i: int, j: int|
            0 <= i < j < widened(terms@).len() implies (#[trigger] widened(terms@)[i]).0.spec_index() != (
            #[trigger] widened(terms@)[j]).0.spec_index() by {
            assert(widened(terms@)[i].0 == terms@[i].0);
            assert(widened(terms@)[j].0 == terms@[j].0);
        }
    }
    true
}

/// Dropping the zero terms keeps the value.
proof fn lemma_nonzero_lhs(terms: Seq<(Literal, u64)>, a: spec_fn(nat) -> bool)
    ensures
        lhs_under(nonzero_terms(terms), a) == lhs_under(terms, a),
{
    lemma_nonzero_value(terms, |l: Literal| holds_under(l, a));
}

/// The greatest decision level of a false literal of `terms`, or 0.
pub open spec fn top_false_level<E>(terms: Seq<(Literal, u64)>, trail: Seq<AssertionInfo<E>>) -> int
    decreases terms.len(),
{
    if terms.len() == 0 {
        0
    } else {
        let rest = top_false_level(terms.drop_last(), trail);
        let l = terms.last().0;
        if is_false(trail, l) && level_of(trail, l) > rest {
            level_of(trail, l)
        } else {
            rest
        }
    }
}

/// Sums over predicates that agree on the literals of `terms` agree.
proof fn lemma_where_agree(terms: Seq<(Literal, u64)>, p: spec_fn(Literal) -> bool, q: spec_fn(Literal) -> bool)
    requires
        forall|k: int| 0 <= k < terms.len() ==> p((#[trigger] terms[k]).0) == q(terms[k].0),
    ensures
        sum_where(terms, p) == sum_where(terms, q),
    decreases terms.len(),
{
    if terms.len() > 0 {
        let rest = terms.drop_last();
        assert forall|k: int| 0 <= k < rest.len() implies p((#[trigger] rest[k]).0) == q(rest[k].0) by {
            assert(rest[k] == terms[k]);
        }
        lemma_where_agree(rest, p, q);
        assert(p(terms[terms.len() - 1].0) == q(terms[terms.len() - 1].0));
    }
}

/// The top false level is a level of the trail, at or above the level of
/// every false literal, and the level of one of them unless it is 0.
proof fn lemma_top_false_level<E: Copy>(terms: Seq<(Literal, u64)>, state: AssertionStack<E>)
    requires
        state.wf(),
    ensures
        0 <= top_false_level(terms, state.trail()) <= state.decisions().len(),
        forall|k: int|
            0 <= k < terms.len() && is_false(state.trail(), (#[trigger] terms[k]).0) ==> level_of(
                state.trail(),
                terms[k].0,
            ) <= top_false_level(terms, state.trail()),
        top_false_level(terms, state.trail()) == 0 || exists|k: int|
            0 <= k < terms.len() && is_false(state.trail(), (#[trigger] terms[k]).0) && level_of(state.trail(), terms[k].0)
                == top_false_level(terms, state.trail()),
    decreases terms.len(),
{
    let trail = state.trail();
    if terms.len() > 0 {
        let rest = terms.drop_last();
        lemma_top_false_level(rest, state);
        let l = terms.last().0;
        if is_false(trail, l) {
            lemma_valued_assigned(state, l);
        }
        assert forall|k: int| 0 <= k < terms.len() && is_false(trail, (#[trigger] terms[k]).0) implies level_of(
            trail,
            terms[k].0,
        ) <= top_false_level(terms, trail) by {
            if k < rest.len() {
                assert(rest[k] == terms[k]);
            }
        }
        if top_false_level(terms, trail) != 0 {
            if is_false(trail, l) && level_of(trail, l) > top_false_level(rest, trail) {
                assert(terms[terms.len() - 1].0 == l);
            } else {
                let k = choose|k: int|
                    0 <= k < rest.len() && is_false(trail, (#[trigger] rest[k]).0) && level_of(trail, rest[k].0)
                        == top_false_level(rest, trail);
                assert(rest[k] == terms[k]);
            }
        }
    }
}

/// A constraint whose non-false literals fall short of the lower bound
/// conflicts at the top false level.
proof fn lemma_falsified_fires<E: Copy>(terms: Seq<(Literal, u64)>, lower_bound: u64, state: AssertionStack<E>)
    requires
        state.wf(),
        sum_where(terms, |l: Literal| !false_before(state.trail(), l, NULL_ORDER as int)) < lower_bound,
    ensures
        fires(terms, lower_bound, state.trail(), false, top_false_level(terms, state.trail())),
        sup_at(terms, state.trail(), top_false_level(terms, state.trail())) < lower_bound,
        0 <= top_false_level(terms, state.trail()) <= state.decisions().len(),
{
    let trail = state.trail();
    let top = top_false_level(terms, trail);
    lemma_top_false_level(terms, state);
    let p = |l: Literal| !(is_false(trail, l) && level_of(trail, l) <= top);
    let q = |l: Literal| !false_before(trail, l, NULL_ORDER as int);
    lemma_where_agree(terms, p, q);
    assert(sup_at(terms, trail, top) == sum_where(terms, p));
    if top != 0 {
        let k = choose|k: int|
            0 <= k < terms.len() && is_false(trail, (#[trigger] terms[k]).0) && level_of(trail, terms[k].0) == top;
        assert(counted(trail, terms[k].0, false));
    }
    assert(present(terms, trail, false, top));
}

/// The checks before resolving `conflict` and `reason` on `variable`,
/// assigned at `order`: both are short enough; the conflict has a term on
/// the variable and the reason one of the opposite literal, not both with
/// coefficient 0; each one's slack before `order` is below its coefficient;
/// neither has two terms on one variable; and the resolution fits (see
/// `resolution_fits`).
pub open spec fn pair_fits<E>(
    conflict: Seq<(Literal, u64)>,
    conflict_lower_bound: u64,
    reason: Seq<(Literal, u64)>,
    reason_lower_bound: u64,
    variable: nat,
    trail: Seq<AssertionInfo<E>>,
    order: int,
) -> bool {
    let literal = first_of_variable(conflict, variable).unwrap();
    let c0 = first_coefficient(conflict, literal).unwrap();
    let c1 = first_coefficient(reason, literal.negated()).unwrap();
    &&& conflict.len() < usize::MAX / 4
    &&& reason.len() < usize::MAX / 4
    &&& first_of_variable(conflict, variable) is Some
    &&& first_coefficient(conflict, literal) is Some
    &&& first_coefficient(reason, literal.negated()) is Some
    &&& (c0 != 0 || c1 != 0)
    &&& sum_where(conflict, |l: Literal| !false_before(trail, l, order)) < conflict_lower_bound + c0
    &&& sum_where(reason, |l: Literal| !false_before(trail, l, order)) < reason_lower_bound + c1
    &&& distinct_variables(widened(conflict))
    &&& distinct_variables(widened(reason))
    &&& resolution_fits(conflict, conflict_lower_bound, reason, reason_lower_bound, literal, trail, order)
}

/// What a round of resolution gives (see `Analyze::resolve_round`) for the
/// conflict `conflict >= conflict_lower_bound` and the explained reason
/// `explained >= explained_lower_bound`, over `n` variables: nothing when
/// the reason cannot be prepared or the pair fails its checks; otherwise,
/// for the enumeration of the strengthened resolvent that the resolution
/// visits, its rescaling when the resolvent's literals are over the
/// variables, the rescaling fits and its result is over the variables with
/// coefficients summing to at most `u64::MAX`, and nothing otherwise.
pub open spec fn round_outcome<E>(
    conflict: Seq<(Literal, u64)>,
    conflict_lower_bound: u64,
    explained: Seq<(Literal, u64)>,
    explained_lower_bound: u64,
    variable: nat,
    trail: Seq<AssertionInfo<E>>,
    order: int,
    n: nat,
    next: Option<(Seq<(Literal, u64)>, u64)>,
) -> bool {
    let (rt, rl) = prepared(explained, explained_lower_bound, trail);
    if !preparable(explained, explained_lower_bound, trail, n) || !pair_fits(
        conflict,
        conflict_lower_bound,
        rt,
        rl,
        variable,
        trail,
        order,
    ) {
        next is None
    } else {
        let (m, lower_bound) = resolution_sum(
            conflict,
            conflict_lower_bound,
            rt,
            rl,
            first_of_variable(conflict, variable).unwrap(),
            trail,
            order,
        );
        exists|e1: Seq<(usize, (bool, u128))>, e2: Seq<(usize, (bool, u128))>|
            #![trigger is_enumeration(m, e1), entries_terms(e2)]
            is_enumeration(m, e1) && is_enumeration(strengthened_map(m, e1, lower_bound as u128).0, e2) && ({
                let resolvent_lower_bound = strengthened_map(m, e1, lower_bound as u128).1;
                let terms = entries_terms(e2);
                let (nt, nl) = rescaled(terms, resolvent_lower_bound, trail, order);
                if literals_in_range(narrowed(terms), n) && rescale_fits(terms, resolvent_lower_bound, trail, order)
                    && literals_in_range(nt, n) && sum_coefficients(nt) <= u64::MAX {
                    next == Some((nt, nl))
                } else {
                    next is None
                }
            })
    }
}

/// `terms >= lower_bound` is falsified on the whole trail.
pub open spec fn falsified<E>(terms: Seq<(Literal, u64)>, lower_bound: u64, trail: Seq<AssertionInfo<E>>) -> bool {
    sum_where(terms, |l: Literal| !false_before(trail, l, NULL_ORDER as int)) < lower_bound
}

/// The least firing level is unique.
proof fn lemma_least_unique<E>(
    terms: Seq<(Literal, u64)>,
    lower_bound: u64,
    trail: Seq<AssertionInfo<E>>,
    with_true: bool,
    d1: int,
    d2: int,
)
    requires
        least_firing(terms, lower_bound, trail, with_true, d1),
        least_firing(terms, lower_bound, trail, with_true, d2),
    ensures
        d1 == d2,
{
    if d1 < d2 {
        assert(!fires(terms, lower_bound, trail, with_true, d1));
    } else if d2 < d1 {
        assert(!fires(terms, lower_bound, trail, with_true, d2));
    }
}

/// At the first round, a constraint that first fires by propagating does
/// not first fire by conflicting.
proof fn lemma_propagating_excludes<E>(terms: Seq<(Literal, u64)>, lower_bound: u64, trail: Seq<AssertionInfo<E>>)
    requires
        first_fires_by_propagating(terms, lower_bound, trail),
    ensures
        !(least_firing(terms, lower_bound, trail, false, 0) && sup_at(terms, trail, 0) < lower_bound),
        !(exists|d: int| #[trigger]
            least_firing(terms, lower_bound, trail, false, d) && d > 0 && sup_at(terms, trail, d) < lower_bound),
{
    let d2 = choose|d2: int|
        #[trigger] least_firing(terms, lower_bound, trail, false, d2) && sup_at(terms, trail, d2) >= lower_bound;
    if least_firing(terms, lower_bound, trail, false, 0) {
        lemma_least_unique(terms, lower_bound, trail, false, d2, 0);
    }
    if exists|d: int| #[trigger]
        least_firing(terms, lower_bound, trail, false, d) && d > 0 && sup_at(terms, trail, d) < lower_bound {
        let d = choose|d: int|
            #[trigger] least_firing(terms, lower_bound, trail, false, d) && d > 0 && sup_at(terms, trail, d) < lower_bound;
        lemma_least_unique(terms, lower_bound, trail, false, d2, d);
    }
}

/// A constraint that first conflicts at level 0 does not first fire at
/// another level.
proof fn lemma_root_conflict_excludes<E>(terms: Seq<(Literal, u64)>, lower_bound: u64, trail: Seq<AssertionInfo<E>>)
    requires
        least_firing(terms, lower_bound, trail, false, 0),
        sup_at(terms, trail, 0) < lower_bound,
    ensures
        !first_fires_by_propagating(terms, lower_bound, trail),
        !(exists|d: int| #[trigger]
            least_firing(terms, lower_bound, trail, false, d) && d > 0 && sup_at(terms, trail, d) < lower_bound),
{
    if first_fires_by_propagating(terms, lower_bound, trail) {
        lemma_propagating_excludes(terms, lower_bound, trail);
    }
    if exists|d: int| #[trigger]
        least_firing(terms, lower_bound, trail, false, d) && d > 0 && sup_at(terms, trail, d) < lower_bound {
        let d = choose|d: int|
            #[trigger] least_firing(terms, lower_bound, trail, false, d) && d > 0 && sup_at(terms, trail, d) < lower_bound;
        lemma_least_unique(terms, lower_bound, trail, false, 0, d);
    }
}

/// A round that resolves has a literal false by an implication: the one
/// it resolves on, which is assigned at the round's order.
proof fn lemma_resolve_implied<E: Copy>(
    terms: Seq<(Literal, u64)>,
    lb: u64,
    state: AssertionStack<E>,
    order: int,
    target: Literal,
    reason: E,
    step_order: usize,
)
    requires
        state.wf(),
        step_holds(terms, lb, state.trail(), order, AnalyzeStep::Resolve { target, reason, order: step_order }),
    ensures
        has_implied_false(terms, state.trail(), order),
        forall|k: int|
            0 <= k < terms.len() && (#[trigger] terms[k]).0 == target.negated() ==> implied_false_before(
                state.trail(),
                terms[k].0,
                order,
            ) && order_of_variable(state.trail(), terms[k].0.spec_index()) == step_order,
{
    let trail = state.trail();
    target.lemma_negated();
    state.lemma_assigned_once(target.spec_index(), step_order as int);
    assert(order_of_variable(trail, target.spec_index()) == step_order);
    assert forall|k: int| 0 <= k < terms.len() && (#[trigger] terms[k]).0 == target.negated() implies implied_false_before(
        trail,
        terms[k].0,
        order,
    ) && order_of_variable(trail, terms[k].0.spec_index()) == step_order by {
        assert(trail[step_order as int].predicate.spec_literal() == terms[k].0.negated());
    }
    let k = choose|k: int| 0 <= k < terms.len() && (#[trigger] terms[k]).0 == target.negated();
    assert(implied_false_before(trail, terms[k].0, order));
}

/// The decision of a round is unique.
proof fn lemma_step_unique<E: Copy>(
    terms: Seq<(Literal, u64)>,
    lb: u64,
    state: AssertionStack<E>,
    order: int,
    s1: AnalyzeStep<E>,
    s2: AnalyzeStep<E>,
)
    requires
        state.wf(),
        step_holds(terms, lb, state.trail(), order, s1),
        step_holds(terms, lb, state.trail(), order, s2),
    ensures
        s1 == s2,
    decreases 2nat - (if s1 is Exhausted { 1nat } else { 0nat }),
{
    let trail = state.trail();
    if s2 is Exhausted && !(s1 is Exhausted) {
        lemma_step_unique(terms, lb, state, order, s2, s1);
    } else {
    match s1 {
        AnalyzeStep::Learnt { backjump_level: b1 } => {
            lemma_propagating_excludes(terms, lb, trail);
            let d = choose|d: int| #[trigger] least_firing(terms, lb, trail, false, d) && sup_at(terms, trail, d) >= lb;
            assert(fires(terms, lb, trail, false, d));
            if let AnalyzeStep::Learnt { backjump_level: b2 } = s2 {
                lemma_least_unique(terms, lb, trail, true, b1 as int, b2 as int);
            }
        },
        AnalyzeStep::Unsatisfiable => {
            lemma_root_conflict_excludes(terms, lb, trail);
            assert(fires(terms, lb, trail, false, 0));
        },
        AnalyzeStep::Resolve { target: t1, reason: r1, order: o1 } => {
            lemma_resolve_implied(terms, lb, state, order, t1, r1, o1);
            let d = choose|d: int| #[trigger] least_firing(terms, lb, trail, false, d) && d > 0 && sup_at(terms, trail, d) < lb;
            assert(fires(terms, lb, trail, false, d));
            if first_fires_by_propagating(terms, lb, trail) {
                lemma_propagating_excludes(terms, lb, trail);
            }
            if least_firing(terms, lb, trail, false, 0) && sup_at(terms, trail, 0) < lb {
                lemma_root_conflict_excludes(terms, lb, trail);
            }
            if let AnalyzeStep::Resolve { target: t2, reason: r2, order: o2 } = s2 {
                lemma_resolve_implied(terms, lb, state, order, t2, r2, o2);
                let k1 = choose|k: int| 0 <= k < terms.len() && (#[trigger] terms[k]).0 == t1.negated();
                let k2 = choose|k: int| 0 <= k < terms.len() && (#[trigger] terms[k]).0 == t2.negated();
                assert(o1 <= o2);
                assert(o2 <= o1);
            }
        },
        AnalyzeStep::Exhausted => {
            if !(s2 is Exhausted) {
                match s2 {
                    AnalyzeStep::Learnt { .. } => {
                        lemma_propagating_excludes(terms, lb, trail);
                        let d = choose|d: int|
                            #[trigger] least_firing(terms, lb, trail, false, d) && sup_at(terms, trail, d) >= lb;
                        assert(fires(terms, lb, trail, false, d));
                    },
                    AnalyzeStep::Unsatisfiable => {
                        lemma_root_conflict_excludes(terms, lb, trail);
                        assert(fires(terms, lb, trail, false, 0));
                    },
                    AnalyzeStep::Resolve { target: t2, reason: r2, order: o2 } => {
                        lemma_resolve_implied(terms, lb, state, order, t2, r2, o2);
                        let d = choose|d: int|
                            #[trigger] least_firing(terms, lb, trail, false, d) && d > 0 && sup_at(terms, trail, d) < lb;
                        assert(fires(terms, lb, trail, false, d));
                    },
                    AnalyzeStep::Exhausted => {},
                }
            }
        },
    }
    }
}

/// What the analysis gives when it starts from the constraint
/// `terms >= lower_bound` that `explain` gave, over `n` variables, with
/// `keys` used: it gives up when the constraint cannot be prepared (see
/// `preparable`), and otherwise goes on from the prepared constraint (see
/// `analysis_ok`).
pub open spec fn analysis_starts<C: Constraint, E, F: Fn(E) -> C>(
    explain: F,
    terms: Seq<(Literal, u64)>,
    lower_bound: u64,
    trail: Seq<AssertionInfo<E>>,
    n: nat,
    keys: Seq<E>,
    output: PpbAnalyzeOutput<E>,
) -> bool {
    if preparable(terms, lower_bound, trail, n) {
        let (t, l) = prepared(terms, lower_bound, trail);
        analysis_ok(explain, t, l, trail, n, NULL_ORDER as int, keys, output)
    } else {
        output is Abandoned
    }
}

/// Some constraint that `explain` gives for `key` starts the analysis as
/// `analysis_starts` says.
pub open spec fn explained_start<C: Constraint, E, F: Fn(E) -> C>(
    explain: F,
    key: E,
    trail: Seq<AssertionInfo<E>>,
    n: nat,
    output: PpbAnalyzeOutput<E>,
) -> bool {
    exists|c: C|
        #[trigger] call_ensures(explain, (key,), c) && analysis_starts(
            explain,
            nonzero_terms(c.spec_terms()),
            c.spec_lower_bound(),
            trail,
            n,
            seq![key],
            output,
        )
}

/// What the analysis gives when it starts from the two constraints that
/// imply `variable` false (`t0 >= l0`) and true (`t1 >= l1`), over `n`
/// variables, with `keys` used: it gives up when either cannot be prepared,
/// when the variable is beyond the variables, when the pair fails its checks
/// (see `pair_fits`), when strengthening the resolvent again (over the
/// enumeration it visits) or rescaling it with every false literal rounding
/// up would leave 128 bits, or when the rescaled and strengthened constraint
/// has a literal beyond the variables or coefficients summing past 64 bits;
/// otherwise it goes on from that constraint (see `analysis_ok`).
pub open spec fn implications_start<C: Constraint, E, F: Fn(E) -> C>(
    explain: F,
    t0: Seq<(Literal, u64)>,
    l0: u64,
    t1: Seq<(Literal, u64)>,
    l1: u64,
    variable: nat,
    trail: Seq<AssertionInfo<E>>,
    n: nat,
    keys: Seq<E>,
    output: PpbAnalyzeOutput<E>,
) -> bool {
    let (a, al) = prepared(t0, l0, trail);
    let (b, bl) = prepared(t1, l1, trail);
    let order = order_of_variable(trail, variable);
    if !preparable(t0, l0, trail, n) || !preparable(t1, l1, trail, n) || variable >= n || variable > usize::MAX / 2
        || !pair_fits(a, al, b, bl, variable, trail, order) {
        output is Abandoned
    } else {
        let (m, lower_bound) = resolution_sum(a, al, b, bl, first_of_variable(a, variable).unwrap(), trail, order);
        exists|e1: Seq<(usize, (bool, u128))>, e2: Seq<(usize, (bool, u128))>|
            #![trigger is_enumeration(m, e1), entries_terms(e2)]
            is_enumeration(m, e1) && is_enumeration(strengthened_map(m, e1, lower_bound as u128).0, e2) && ({
                let first = strengthened_map(m, e1, lower_bound as u128);
                if sum_below_entries(e2, first.1) > u128::MAX {
                    output is Abandoned
                } else {
                    let second = strengthened_map(first.0, e2, first.1);
                    exists|e3: Seq<(usize, (bool, u128))>|
                        #[trigger] is_enumeration(second.0, e3) && ({
                            let terms = entries_terms(e3);
                            let (rt, rl) = rescaled(terms, second.1, trail, NULL_ORDER as int);
                            let (ft, fl) = strengthened(rt, rl);
                            if literals_in_range(narrowed(terms), n) && rescale_fits(
                                terms,
                                second.1,
                                trail,
                                NULL_ORDER as int,
                            ) && sum_coefficients(rt) <= u64::MAX && literals_in_range(ft, n) && sum_coefficients(ft)
                                <= u64::MAX {
                                analysis_ok(explain, ft, fl, trail, n, NULL_ORDER as int, keys, output)
                            } else {
                                output is Abandoned
                            }
                        })
                }
            })
    }
}

/// Some constraints that `explain` gives for `keys` start the analysis of
/// a pair of implications as `implications_start` says.
pub open spec fn explained_implications_start<C: Constraint, E, F: Fn(E) -> C>(
    explain: F,
    keys: [E; 2],
    variable: nat,
    trail: Seq<AssertionInfo<E>>,
    n: nat,
    output: PpbAnalyzeOutput<E>,
) -> bool {
    exists|c0: C, c1: C|
        #![trigger call_ensures(explain, (keys[0],), c0), call_ensures(explain, (keys[1],), c1)]
        call_ensures(explain, (keys[0],), c0) && call_ensures(explain, (keys[1],), c1) && implications_start(
            explain,
            nonzero_terms(c0.spec_terms()),
            c0.spec_lower_bound(),
            nonzero_terms(c1.spec_terms()),
            c1.spec_lower_bound(),
            variable,
            trail,
            n,
            with_key(seq![keys[0]], keys[1]),
            output,
        )
}

/// What the analysis gives from `terms >= lower_bound`, over `n`
/// variables, with the literals false before `order` still to be explained
/// and `keys` used: it gives up when the constraint is not falsified before
/// `order`; otherwise it decides the round (see `step_holds`): it learns the
/// constraint with `keys` and the round's backjump level when it is
/// falsified on the whole trail (and gives up when it is not); it reports
/// the constraint as the refutation; it gives up when nothing decides; and
/// when it resolves, with what `explain` gives for the reason, it gives up
/// when the round does (see `round_outcome`) and goes on from the round's
/// constraint otherwise.
pub open spec fn analysis_ok<C: Constraint, E, F: Fn(E) -> C>(
    explain: F,
    terms: Seq<(Literal, u64)>,
    lower_bound: u64,
    trail: Seq<AssertionInfo<E>>,
    n: nat,
    order: int,
    keys: Seq<E>,
    output: PpbAnalyzeOutput<E>,
) -> bool
    decreases order,
{
    if order < 0 {
        false
    } else if sum_where(terms, |l: Literal| !false_before(trail, l, order)) >= lower_bound {
        output is Abandoned
    } else {
        let step = choose|s: AnalyzeStep<E>| step_holds(terms, lower_bound, trail, order, s);
        match step {
            AnalyzeStep::Learnt { backjump_level } => if falsified(terms, lower_bound, trail) {
                output matches PpbAnalyzeOutput::Learnt { backjump_level: b, learnt_constraint, involved_constraints }
                    && b == backjump_level && learnt_constraint.spec_terms() == terms
                    && learnt_constraint.spec_lower_bound() == lower_bound && involved_constraints@ == keys
            } else {
                output is Abandoned
            },
            AnalyzeStep::Unsatisfiable => output matches PpbAnalyzeOutput::Unsatisfiable { refutation }
                && refutation.spec_terms() == terms && refutation.spec_lower_bound() == lower_bound,
            AnalyzeStep::Exhausted => output is Abandoned,
            AnalyzeStep::Resolve { target, reason, order: step_order } => if 0 <= step_order < order {
                exists|c: C, next: Option<(Seq<(Literal, u64)>, u64)>|
                    #![trigger call_ensures(explain, (reason,), c), round_outcome(terms, lower_bound, nonzero_terms(c.spec_terms()), c.spec_lower_bound(), target.spec_index(), trail, step_order as int, n, next)]
                    call_ensures(explain, (reason,), c) && round_outcome(
                        terms,
                        lower_bound,
                        nonzero_terms(c.spec_terms()),
                        c.spec_lower_bound(),
                        target.spec_index(),
                        trail,
                        step_order as int,
                        n,
                        next,
                    ) && match next {
                        None => output is Abandoned,
                        Some((t, l)) => analysis_ok(
                            explain,
                            t,
                            l,
                            trail,
                            n,
                            step_order as int,
                            with_key(keys, reason),
                            output,
                        ),
                    }
            } else {
                false
            },
        }
    }
}

/// `keys` with `key` added at the end unless it is there already.
pub open spec fn with_key<E>(keys: Seq<E>, key: E) -> Seq<E> {
    if keys.contains(key) {
        keys
    } else {
        keys.push(key)
    }
}

/// Adds `key` to `keys` unless it is there already.
fn add_key<E: Copy + KeyEq>(keys: &mut Vec<E>, key: E)
    ensures
        final(keys)@ == with_key(old(keys)@, key),
        old(keys)@.no_duplicates() ==> final(keys)@.no_duplicates(),
{
    let mut k: usize = 0;
    while k < keys.len()
        invariant
            k <= keys@.len(),
            keys@ == old(keys)@,
            forall|j: int| 0 <= j < k ==> keys@[j] != key,
        decreases keys@.len() - k,
    {
        if keys[k].key_eq(&key) {
            proof {
                assert(keys@[k as int] == key);
            }
            return;
        }
        k = k + 1;
    }
    keys.push(key);
}

/// Decides the rounds of conflict analysis and carries them out.
#[derive(Clone, Debug)]
pub struct Analyze {
    calculate_propagation_level: CalculatePropagationLevel,
    resolve: Resolve,
    rescale: Rescale,
}

impl Analyze {
    /// An analyzer.
    pub fn new() -> (analyze: Self) {
        Self { calculate_propagation_level: CalculatePropagationLevel::new(), resolve: Resolve::new(), rescale: Rescale::new() }
    }

    /// Analyzes the conflict of the constraint behind
    /// `conflict_explain_key` (`explain` gives the constraint behind a key):
    /// prepares it (see `prepare`) and goes on as `analyze_from` does.
    pub fn analyze_conflict_constraint<C: Constraint, E: Copy + KeyEq, F: Fn(E) -> C>(
        &self,
        conflict_explain_key: E,
        state: &AssertionStack<E>,
        explain: F,
    ) -> (output: PpbAnalyzeOutput<E>)
        requires
            state.wf(),
            state.decisions().len() < usize::MAX,
            forall|e: E| call_requires(explain, (e,)),
        ensures
            output matches PpbAnalyzeOutput::Learnt { learnt_constraint, .. } ==> sum_where(
                learnt_constraint.spec_terms(),
                |l: Literal| !false_before(state.trail(), l, NULL_ORDER as int),
            ) < learnt_constraint.spec_lower_bound(),
            output matches PpbAnalyzeOutput::Learnt { learnt_constraint, .. } ==> first_fires_by_propagating(
                learnt_constraint.spec_terms(),
                learnt_constraint.spec_lower_bound(),
                state.trail(),
            ),
            output matches PpbAnalyzeOutput::Learnt { backjump_level, learnt_constraint, .. } ==> least_firing(
                learnt_constraint.spec_terms(),
                learnt_constraint.spec_lower_bound(),
                state.trail(),
                true,
                backjump_level as int,
            ),
            output matches PpbAnalyzeOutput::Learnt { backjump_level, .. } ==> backjump_level
                < state.decisions().len(),
            output matches PpbAnalyzeOutput::Learnt { learnt_constraint, .. } ==> literals_in_range(
                learnt_constraint.spec_terms(),
                state.spec_number_of_variables(),
            ) && sum_coefficients(learnt_constraint.spec_terms()) <= u64::MAX,
            output matches PpbAnalyzeOutput::Learnt { involved_constraints, .. } ==> involved_constraints@.len() >= 1
                && involved_constraints@[0] == conflict_explain_key,
            output matches PpbAnalyzeOutput::Learnt { involved_constraints, .. } ==> involved_constraints@.no_duplicates(),
            explained_start(explain, conflict_explain_key, state.trail(), state.spec_number_of_variables(), output),
            output matches PpbAnalyzeOutput::Unsatisfiable { refutation } ==> least_firing(
                refutation.spec_terms(),
                refutation.spec_lower_bound(),
                state.trail(),
                false,
                0,
            ) && sup_at(refutation.spec_terms(), state.trail(), 0) < refutation.spec_lower_bound(),
            output matches PpbAnalyzeOutput::Learnt { learnt_constraint, involved_constraints, .. } ==> implied_by(
                learnt_constraint.spec_terms(),
                learnt_constraint.spec_lower_bound(),
                state.trail(),
                explain,
                involved_constraints@,
            ),
            output matches PpbAnalyzeOutput::Unsatisfiable { refutation } ==> implied_by_some(
                refutation.spec_terms(),
                refutation.spec_lower_bound(),
                state.trail(),
                explain,
            ),
    {
        let explained = explain(conflict_explain_key);
        let mut conflict = CompressedConstraint::from_constraint(&explained);
        let ghost conflict0 = conflict;
        if !prepare(&mut conflict, state) {
            proof {
                assert(analysis_starts(
                    explain,
                    nonzero_terms(explained.spec_terms()),
                    explained.spec_lower_bound(),
                    state.trail(),
                    state.spec_number_of_variables(),
                    seq![conflict_explain_key],
                    PpbAnalyzeOutput::<E>::Abandoned,
                ));
            }
            return PpbAnalyzeOutput::Abandoned;
        }
        let mut involved: Vec<E> = Vec::new();
        involved.push(conflict_explain_key);
        proof {
            assert forall|a: spec_fn(nat) -> bool|
                agrees_at_root(state.trail(), a) && #[trigger] explained_hold(explain, involved@, a) implies lhs_under(
                    conflict.spec_terms(),
                    a,
                ) >= conflict.spec_lower_bound() by {
                assert(involved@[0] == conflict_explain_key);
                lemma_nonzero_lhs(explained.spec_terms(), a);
                assert(lhs_under(conflict0.spec_terms(), a) >= conflict0.spec_lower_bound());
            }
        }
        let output = self.analyze_from(conflict, involved, state, explain);
        proof {
            if output is Learnt {
                let involved_constraints = output->involved_constraints;
                assert(involved_constraints@.take(1)[0] == involved_constraints@[0]);
            }
            assert(involved@ =~= seq![conflict_explain_key]);
            assert(analysis_starts(
                explain,
                nonzero_terms(explained.spec_terms()),
                explained.spec_lower_bound(),
                state.trail(),
                state.spec_number_of_variables(),
                seq![conflict_explain_key],
                output,
            ));
        }
        output
    }

    /// Analyzes the conflict of the two constraints behind `explain_keys`,
    /// which imply `variable` false and true: prepares both (see
    /// `prepare`), resolves them on the variable, strengthens and rescales
    /// the resolvent and strengthens it again, and goes on from it as
    /// `analyze_from` does.
    #[verifier::rlimit(60)]
    #[verifier::spinoff_prover]
    pub fn analyze_conflict_implications<C: Constraint, E: Copy + KeyEq, F: Fn(E) -> C>(
        &self,
        variable: usize,
        explain_keys: [E; 2],
        state: &AssertionStack<E>,
        explain: F,
    ) -> (output: PpbAnalyzeOutput<E>)
        requires
            state.wf(),
            state.decisions().len() < usize::MAX,
            forall|e: E| call_requires(explain, (e,)),
        ensures
            output matches PpbAnalyzeOutput::Learnt { learnt_constraint, .. } ==> sum_where(
                learnt_constraint.spec_terms(),
                |l: Literal| !false_before(state.trail(), l, NULL_ORDER as int),
            ) < learnt_constraint.spec_lower_bound(),
            output matches PpbAnalyzeOutput::Learnt { learnt_constraint, .. } ==> first_fires_by_propagating(
                learnt_constraint.spec_terms(),
                learnt_constraint.spec_lower_bound(),
                state.trail(),
            ),
            output matches PpbAnalyzeOutput::Learnt { backjump_level, learnt_constraint, .. } ==> least_firing(
                learnt_constraint.spec_terms(),
                learnt_constraint.spec_lower_bound(),
                state.trail(),
                true,
                backjump_level as int,
            ),
            output matches PpbAnalyzeOutput::Learnt { backjump_level, .. } ==> backjump_level
                < state.decisions().len(),
            output matches PpbAnalyzeOutput::Learnt { learnt_constraint, .. } ==> literals_in_range(
                learnt_constraint.spec_terms(),
                state.spec_number_of_variables(),
            ) && sum_coefficients(learnt_constraint.spec_terms()) <= u64::MAX,
            output matches PpbAnalyzeOutput::Learnt { involved_constraints, .. } ==> involved_constraints@.len() >= 1
                && involved_constraints@[0] == explain_keys[0] && involved_constraints@.contains(explain_keys[1]),
            output matches PpbAnalyzeOutput::Learnt { involved_constraints, .. } ==> involved_constraints@.no_duplicates(),
            explained_implications_start(
                explain,
                explain_keys,
                variable as nat,
                state.trail(),
                state.spec_number_of_variables(),
                output,
            ),
            output matches PpbAnalyzeOutput::Unsatisfiable { refutation } ==> least_firing(
                refutation.spec_terms(),
                refutation.spec_lower_bound(),
                state.trail(),
                false,
                0,
            ) && sup_at(refutation.spec_terms(), state.trail(), 0) < refutation.spec_lower_bound(),
            output matches PpbAnalyzeOutput::Learnt { learnt_constraint, involved_constraints, .. } ==> implied_by(
                learnt_constraint.spec_terms(),
                learnt_constraint.spec_lower_bound(),
                state.trail(),
                explain,
                involved_constraints@,
            ),
            output matches PpbAnalyzeOutput::Unsatisfiable { refutation } ==> implied_by_some(
                refutation.spec_terms(),
                refutation.spec_lower_bound(),
                state.trail(),
                explain,
            ),
    {
        let explained0 = explain(explain_keys[0]);
        let explained1 = explain(explain_keys[1]);
        let mut conflict = CompressedConstraint::from_constraint(&explained0);
        let ghost conflict0 = conflict;
        let mut reason = CompressedConstraint::from_constraint(&explained1);
        let ghost reason0 = reason;
        if !prepare(&mut conflict, state) || !prepare(&mut reason, state) {
            proof {
                assert(implications_start(
                    explain,
                    nonzero_terms(explained0.spec_terms()),
                    explained0.spec_lower_bound(),
                    nonzero_terms(explained1.spec_terms()),
                    explained1.spec_lower_bound(),
                    variable as nat,
                    state.trail(),
                    state.spec_number_of_variables(),
                    with_key(seq![explain_keys[0]], explain_keys[1]),
                    PpbAnalyzeOutput::<E>::Abandoned,
                ));
                assert(explained_implications_start(
                    explain,
                    explain_keys,
                    variable as nat,
                    state.trail(),
                    state.spec_number_of_variables(),
                    PpbAnalyzeOutput::<E>::Abandoned,
                ));
            }
            return PpbAnalyzeOutput::Abandoned;
        }
        if variable >= state.number_of_variables() || variable > usize::MAX / 2 {
            proof {
                assert(implications_start(
                    explain,
                    nonzero_terms(explained0.spec_terms()),
                    explained0.spec_lower_bound(),
                    nonzero_terms(explained1.spec_terms()),
                    explained1.spec_lower_bound(),
                    variable as nat,
                    state.trail(),
                    state.spec_number_of_variables(),
                    with_key(seq![explain_keys[0]], explain_keys[1]),
                    PpbAnalyzeOutput::<E>::Abandoned,
                ));
                assert(explained_implications_start(
                    explain,
                    explain_keys,
                    variable as nat,
                    state.trail(),
                    state.spec_number_of_variables(),
                    PpbAnalyzeOutput::<E>::Abandoned,
                ));
            }
            return PpbAnalyzeOutput::Abandoned;
        }
        let order = match state.literal_state(Literal::new(variable, true)).order() {
            Some(o) => o,
            None => NULL_ORDER,
        };
        proof {
            if exists|k: int| assigned_at(state.trail(), variable as nat, k) {
                let k = choose|k: int| assigned_at(state.trail(), variable as nat, k);
                state.lemma_assigned_once(variable as nat, k);
            }
        }
        let resolved = match self.resolve_pair(&conflict, &reason, variable, order, state) {
            Some(r) => r,
            None => {
                proof {
                    assert(implications_start(
                        explain,
                        nonzero_terms(explained0.spec_terms()),
                        explained0.spec_lower_bound(),
                        nonzero_terms(explained1.spec_terms()),
                        explained1.spec_lower_bound(),
                        variable as nat,
                        state.trail(),
                        state.spec_number_of_variables(),
                        with_key(seq![explain_keys[0]], explain_keys[1]),
                        PpbAnalyzeOutput::<E>::Abandoned,
                    ));
                    assert(explained_implications_start(
                        explain,
                        explain_keys,
                        variable as nat,
                        state.trail(),
                        state.spec_number_of_variables(),
                        PpbAnalyzeOutput::<E>::Abandoned,
                    ));
                }
                return PpbAnalyzeOutput::Abandoned;
            },
        };
        let mut resolved = resolved;
        let ghost trail = state.trail();
        let ghost (m, lower_bound) = resolution_sum(
            conflict.spec_terms(),
            conflict.spec_lower_bound(),
            reason.spec_terms(),
            reason.spec_lower_bound(),
            first_of_variable(conflict.spec_terms(), variable as nat).unwrap(),
            trail,
            order as int,
        );
        let ghost e1 = choose|entries: Seq<(usize, (bool, u128))>|
            #[trigger] is_enumeration(m, entries) && (resolved.terms_map(), resolved.spec_lower_bound())
                == strengthened_map(m, entries, lower_bound as u128);
        let ghost e2 = resolved.entries();
        proof {
            resolved.lemma_entries();
            assert(is_enumeration(resolved.terms_map(), e2));
            assert(entries_terms(e2) == resolved.spec_terms());
        }
        if !resolved.strengthen_fits() {
            proof {
                assert(implications_start(
                    explain,
                    nonzero_terms(explained0.spec_terms()),
                    explained0.spec_lower_bound(),
                    nonzero_terms(explained1.spec_terms()),
                    explained1.spec_lower_bound(),
                    variable as nat,
                    state.trail(),
                    state.spec_number_of_variables(),
                    with_key(seq![explain_keys[0]], explain_keys[1]),
                    PpbAnalyzeOutput::<E>::Abandoned,
                ));
                assert(explained_implications_start(
                    explain,
                    explain_keys,
                    variable as nat,
                    state.trail(),
                    state.spec_number_of_variables(),
                    PpbAnalyzeOutput::<E>::Abandoned,
                ));
            }
            return PpbAnalyzeOutput::Abandoned;
        }
        let ghost resolved0 = resolved;
        resolved.strengthen2();
        let ghost e3 = resolved.entries();
        proof {
            resolved.lemma_entries();
            let first = strengthened_map(m, e1, lower_bound as u128);
            assert(resolved0.terms_map() == first.0 && resolved0.spec_lower_bound() == first.1);
            assert(sum_below_entries(e2, first.1) <= u128::MAX);
            let second = strengthened_map(first.0, e2, first.1);
            assert(resolved.terms_map() == second.0 && resolved.spec_lower_bound() == second.1);
            assert(is_enumeration(second.0, e3));
            assert(entries_terms(e3) == resolved.spec_terms());
        }
        if !wide_terms_in_range(&resolved.iter_terms(), state.number_of_variables()) {
            proof {
                assert(implications_start(
                    explain,
                    nonzero_terms(explained0.spec_terms()),
                    explained0.spec_lower_bound(),
                    nonzero_terms(explained1.spec_terms()),
                    explained1.spec_lower_bound(),
                    variable as nat,
                    state.trail(),
                    state.spec_number_of_variables(),
                    with_key(seq![explain_keys[0]], explain_keys[1]),
                    PpbAnalyzeOutput::<E>::Abandoned,
                ));
                assert(explained_implications_start(
                    explain,
                    explain_keys,
                    variable as nat,
                    state.trail(),
                    state.spec_number_of_variables(),
                    PpbAnalyzeOutput::<E>::Abandoned,
                ));
            }
            return PpbAnalyzeOutput::Abandoned;
        }
        let mut rescaled = match self.rescale.rescale(&resolved, NULL_ORDER, state) {
            Some(c) => c,
            None => {
                proof {
                    assert(implications_start(
                        explain,
                        nonzero_terms(explained0.spec_terms()),
                        explained0.spec_lower_bound(),
                        nonzero_terms(explained1.spec_terms()),
                        explained1.spec_lower_bound(),
                        variable as nat,
                        state.trail(),
                        state.spec_number_of_variables(),
                        with_key(seq![explain_keys[0]], explain_keys[1]),
                        PpbAnalyzeOutput::<E>::Abandoned,
                    ));
                    assert(explained_implications_start(
                        explain,
                        explain_keys,
                        variable as nat,
                        state.trail(),
                        state.spec_number_of_variables(),
                        PpbAnalyzeOutput::<E>::Abandoned,
                    ));
                }
                return PpbAnalyzeOutput::Abandoned;
            },
        };
        if !coefficients_fit(&rescaled.iter_terms()) {
            proof {
                assert(implications_start(
                    explain,
                    nonzero_terms(explained0.spec_terms()),
                    explained0.spec_lower_bound(),
                    nonzero_terms(explained1.spec_terms()),
                    explained1.spec_lower_bound(),
                    variable as nat,
                    state.trail(),
                    state.spec_number_of_variables(),
                    with_key(seq![explain_keys[0]], explain_keys[1]),
                    PpbAnalyzeOutput::<E>::Abandoned,
                ));
                assert(explained_implications_start(
                    explain,
                    explain_keys,
                    variable as nat,
                    state.trail(),
                    state.spec_number_of_variables(),
                    PpbAnalyzeOutput::<E>::Abandoned,
                ));
            }
            return PpbAnalyzeOutput::Abandoned;
        }
        let ghost rescaled0 = rescaled;
        proof {
            crate::compressed_constraint::lemma_sum_below_bounds(rescaled.spec_terms(), rescaled.spec_lower_bound(), 0);
        }
        rescaled.strengthen2(state);
        if !terms_in_range(&rescaled.iter_terms(), state.number_of_variables()) || !coefficients_fit(
            &rescaled.iter_terms(),
        ) {
            proof {
                assert(implications_start(
                    explain,
                    nonzero_terms(explained0.spec_terms()),
                    explained0.spec_lower_bound(),
                    nonzero_terms(explained1.spec_terms()),
                    explained1.spec_lower_bound(),
                    variable as nat,
                    state.trail(),
                    state.spec_number_of_variables(),
                    with_key(seq![explain_keys[0]], explain_keys[1]),
                    PpbAnalyzeOutput::<E>::Abandoned,
                ));
                assert(explained_implications_start(
                    explain,
                    explain_keys,
                    variable as nat,
                    state.trail(),
                    state.spec_number_of_variables(),
                    PpbAnalyzeOutput::<E>::Abandoned,
                ));
            }
            return PpbAnalyzeOutput::Abandoned;
        }
        let mut involved: Vec<E> = Vec::new();
        involved.push(explain_keys[0]);
        add_key(&mut involved, explain_keys[1]);
        proof {
            let trail = state.trail();
            assert forall|a: spec_fn(nat) -> bool|
                agrees_at_root(trail, a) && #[trigger] explained_hold(explain, involved@, a) implies lhs_under(
                    rescaled.spec_terms(),
                    a,
                ) >= rescaled.spec_lower_bound() by {
                assert(involved@[0] == explain_keys[0]);
                if explain_keys[1] != explain_keys[0] {
                    assert(involved@[1] == explain_keys[1]);
                }
                lemma_nonzero_lhs(explained0.spec_terms(), a);
                lemma_nonzero_lhs(explained1.spec_terms(), a);
                assert(lhs_under(conflict0.spec_terms(), a) >= conflict0.spec_lower_bound());
                assert(lhs_under(reason0.spec_terms(), a) >= reason0.spec_lower_bound());
                assert(lhs_under(conflict.spec_terms(), a) >= conflict.spec_lower_bound());
                resolved0.lemma_value(a);
                resolved0.lemma_entries();
                assert(is_enumeration(resolved0.terms_map(), resolved0.entries()));
                lemma_strengthen_map_sound(resolved0.terms_map(), resolved0.entries(), resolved0.spec_lower_bound(), a);
                resolved.lemma_value(a);
                lemma_rescale_sound(resolved.spec_terms(), resolved.spec_lower_bound(), trail, NULL_ORDER as int, a);
                lemma_strengthen_sound(rescaled0.spec_terms(), rescaled0.spec_lower_bound(), a);
            }
        }
        let output = self.analyze_from(rescaled, involved, state, explain);
        proof {
            if output is Learnt {
                let involved_constraints = output->involved_constraints;
                let l = involved@.len() as int;
                assert(involved_constraints@.take(l)[0] == involved_constraints@[0]);
                if explain_keys[1] != explain_keys[0] {
                    assert(involved_constraints@.take(l)[1] == involved_constraints@[1]);
                }
            }
            assert(involved@ =~= with_key(seq![explain_keys[0]], explain_keys[1]));
        }
        proof {
            assert(implications_start(
                explain,
                nonzero_terms(explained0.spec_terms()),
                explained0.spec_lower_bound(),
                nonzero_terms(explained1.spec_terms()),
                explained1.spec_lower_bound(),
                variable as nat,
                state.trail(),
                state.spec_number_of_variables(),
                with_key(seq![explain_keys[0]], explain_keys[1]),
                output,
            ));
            assert(explained_implications_start(
                explain,
                explain_keys,
                variable as nat,
                state.trail(),
                state.spec_number_of_variables(),
                output,
            ));
        }
        output
    }

    /// One round of resolution: `explained`, the constraint behind the
    /// reason of the literal of `variable` assigned at `order`, is prepared
    /// (see `prepare`), resolved with `conflict` on the variable (see
    /// `resolve_pair`), and the resolvent is rescaled with the literals
    /// false before `order` rounding up (see `Rescale::rescale`); `None`
    /// exactly when a check fails (see `round_outcome`).
    pub fn resolve_round<C: Constraint, E: Copy>(
        &self,
        conflict: &CompressedConstraint,
        explained: &C,
        variable: usize,
        order: usize,
        state: &AssertionStack<E>,
    ) -> (next: Option<CompressedConstraint>)
        requires
            state.wf(),
            literals_in_range(conflict.spec_terms(), state.spec_number_of_variables()),
            sum_coefficients(conflict.spec_terms()) <= u64::MAX,
            order == order_of_variable(state.trail(), variable as nat),
        ensures
            round_outcome(
                conflict.spec_terms(),
                conflict.spec_lower_bound(),
                nonzero_terms(explained.spec_terms()),
                explained.spec_lower_bound(),
                variable as nat,
                state.trail(),
                order as int,
                state.spec_number_of_variables(),
                match next {
                    Some(c) => Some((c.spec_terms(), c.spec_lower_bound())),
                    None => None,
                },
            ),
            next matches Some(c) ==> literals_in_range(c.spec_terms(), state.spec_number_of_variables())
                && sum_coefficients(c.spec_terms()) <= u64::MAX,
            next matches Some(c) ==> forall|a: spec_fn(nat) -> bool|
                agrees_at_root(state.trail(), a) && #[trigger] lhs_under(conflict.spec_terms(), a)
                    >= conflict.spec_lower_bound() && lhs_under(explained.spec_terms(), a)
                    >= explained.spec_lower_bound() ==> lhs_under(c.spec_terms(), a) >= c.spec_lower_bound(),
    {
        let mut reason = CompressedConstraint::from_constraint(explained);
        let ghost reason0 = reason;
        if !prepare(&mut reason, state) {
            return None;
        }
        let resolved = match self.resolve_pair(conflict, &reason, variable, order, state) {
            Some(r) => r,
            None => {
                return None;
            },
        };
        let ghost trail = state.trail();
        let ghost (m, lower_bound) = resolution_sum(
            conflict.spec_terms(),
            conflict.spec_lower_bound(),
            reason.spec_terms(),
            reason.spec_lower_bound(),
            first_of_variable(conflict.spec_terms(), variable as nat).unwrap(),
            trail,
            order as int,
        );
        let ghost e1 = choose|entries: Seq<(usize, (bool, u128))>|
            #[trigger] is_enumeration(m, entries) && (resolved.terms_map(), resolved.spec_lower_bound())
                == strengthened_map(m, entries, lower_bound as u128);
        let ghost e2 = resolved.entries();
        proof {
            resolved.lemma_entries();
            assert(is_enumeration(resolved.terms_map(), e2));
            assert(resolved.spec_terms() == entries_terms(e2));
        }
        if !wide_terms_in_range(&resolved.iter_terms(), state.number_of_variables()) {
            return None;
        }
        let rescaled = match self.rescale.rescale(&resolved, order, state) {
            Some(c) => c,
            None => {
                return None;
            },
        };
        if !terms_in_range(&rescaled.iter_terms(), state.number_of_variables()) || !coefficients_fit(
            &rescaled.iter_terms(),
        ) {
            return None;
        }
        proof {
            assert forall|a: spec_fn(nat) -> bool|
                agrees_at_root(trail, a) && #[trigger] lhs_under(conflict.spec_terms(), a) >= conflict.spec_lower_bound()
                    && lhs_under(explained.spec_terms(), a) >= explained.spec_lower_bound() implies lhs_under(
                    rescaled.spec_terms(),
                    a,
                ) >= rescaled.spec_lower_bound() by {
                lemma_nonzero_lhs(explained.spec_terms(), a);
                assert(lhs_under(reason0.spec_terms(), a) >= reason0.spec_lower_bound());
                lemma_rescale_sound(resolved.spec_terms(), resolved.spec_lower_bound(), trail, order as int, a);
            }
        }
        Some(rescaled)
    }

    /// Resolves `conflict` and `reason` on `variable` (see
    /// `Resolve::resolve`) where the checks that resolution needs hold: the
    /// lengths are small enough, `conflict` has a term on the variable and
    /// `reason` one of the opposite literal, not both with coefficient 0,
    /// and each one's slack before `order`, the order at which the variable
    /// was assigned (`usize::MAX` when it is not), is below its coefficient.
    fn resolve_pair<E: Copy>(
        &self,
        conflict: &CompressedConstraint,
        reason: &CompressedConstraint,
        variable: usize,
        order: usize,
        state: &AssertionStack<E>,
    ) -> (resolved: Option<crate::random_constraint::RandomConstraint>)
        requires
            state.wf(),
            literals_in_range(conflict.spec_terms(), state.spec_number_of_variables()),
            literals_in_range(reason.spec_terms(), state.spec_number_of_variables()),
            sum_coefficients(conflict.spec_terms()) <= u64::MAX,
            sum_coefficients(reason.spec_terms()) <= u64::MAX,
            order == order_of_variable(state.trail(), variable as nat),
        ensures
            resolved is Some <==> pair_fits(
                conflict.spec_terms(),
                conflict.spec_lower_bound(),
                reason.spec_terms(),
                reason.spec_lower_bound(),
                variable as nat,
                state.trail(),
                order as int,
            ),
            resolved matches Some(r) ==> r.wf(),
            resolved matches Some(r) ==> ({
                let (m, lower_bound) = resolution_sum(
                    conflict.spec_terms(),
                    conflict.spec_lower_bound(),
                    reason.spec_terms(),
                    reason.spec_lower_bound(),
                    first_of_variable(conflict.spec_terms(), variable as nat).unwrap(),
                    state.trail(),
                    order as int,
                );
                exists|entries: Seq<(usize, (bool, u128))>|
                    #[trigger] is_enumeration(m, entries) && (r.terms_map(), r.spec_lower_bound())
                        == strengthened_map(m, entries, lower_bound as u128)
            }),
            resolved matches Some(r) ==> forall|a: spec_fn(nat) -> bool|
                #[trigger] lhs_under(conflict.spec_terms(), a) >= conflict.spec_lower_bound() && lhs_under(
                    reason.spec_terms(),
                    a,
                ) >= reason.spec_lower_bound() ==> value_under(r.spec_terms(), a) >= r.spec_lower_bound(),
    {
        let conflict_terms = conflict.iter_terms();
        let reason_terms = reason.iter_terms();
        if conflict_terms.len() >= usize::MAX / 4 || reason_terms.len() >= usize::MAX / 4 {
            return None;
        }
        let literal = match first_literal_of_variable(&conflict_terms, variable) {
            Some(l) => l,
            None => {
                return None;
            },
        };
        let coefficient0 = match conflict.get_coefficient(literal) {
            Some(c) => c,
            None => {
                return None;
            },
        };
        let coefficient1 = match reason.get_coefficient(literal.negation()) {
            Some(c) => c,
            None => {
                return None;
            },
        };
        let sup0 = conflict.sup_literal_terms_before(order, state);
        let sup1 = reason.sup_literal_terms_before(order, state);
        if coefficient0 == 0 && coefficient1 == 0 {
            return None;
        }
        if sup0 as u128 >= conflict.lower_bound() as u128 + coefficient0 as u128 || sup1 as u128
            >= reason.lower_bound() as u128 + coefficient1 as u128 {
            return None;
        }
        let n = state.number_of_variables();
        if !distinct_terms(&conflict_terms, n) || !distinct_terms(&reason_terms, n) {
            return None;
        }
        let resolved = self.resolve.resolve(conflict, reason, variable, state);
        proof {
            if resolved is Some {
                let r = resolved->0;
                let t0 = conflict.spec_terms();
                let lb0 = conflict.spec_lower_bound();
                let t1 = reason.spec_terms();
                let lb1 = reason.spec_lower_bound();
                let (m, lower_bound) = resolution_sum(t0, lb0, t1, lb1, literal, state.trail(), order as int);
                let entries = choose|entries: Seq<(usize, (bool, u128))>|
                    #[trigger] is_enumeration(m, entries) && (r.terms_map(), r.spec_lower_bound())
                        == strengthened_map(m, entries, lower_bound as u128);
                assert forall|a: spec_fn(nat) -> bool|
                    #[trigger] lhs_under(t0, a) >= lb0 && lhs_under(t1, a) >= lb1 implies value_under(r.spec_terms(), a)
                        >= r.spec_lower_bound() by {
                    lemma_resolve_sound(t0, lb0, t1, lb1, literal, state.trail(), order as int, a, entries);
                    r.lemma_value(a);
                }
            }
        }
        resolved
    }

    /// Goes on with the analysis of `conflict`, the constraints behind
    /// `involved` having been used: while the constraint is falsified
    /// before the order of the last resolution (at first, on the whole
    /// trail), decides the round (see `next_step`); resolves it with the
    /// reason of its latest implied false literal (see `resolve_pair`) and
    /// rescales the resolvent (see `Rescale::rescale`), until it is learnt
    /// or conflicts at level 0.
    fn analyze_from<C: Constraint, E: Copy + KeyEq, F: Fn(E) -> C>(
        &self,
        first: CompressedConstraint,
        used: Vec<E>,
        state: &AssertionStack<E>,
        explain: F,
    ) -> (output: PpbAnalyzeOutput<E>)
        requires
            state.wf(),
            state.decisions().len() < usize::MAX,
            forall|e: E| call_requires(explain, (e,)),
            used@.no_duplicates(),
            literals_in_range(first.spec_terms(), state.spec_number_of_variables()),
            sum_coefficients(first.spec_terms()) <= u64::MAX,
            implied_by(first.spec_terms(), first.spec_lower_bound(), state.trail(), explain, used@),
        ensures
            output matches PpbAnalyzeOutput::Learnt { learnt_constraint, .. } ==> sum_where(
                learnt_constraint.spec_terms(),
                |l: Literal| !false_before(state.trail(), l, NULL_ORDER as int),
            ) < learnt_constraint.spec_lower_bound(),
            output matches PpbAnalyzeOutput::Learnt { learnt_constraint, .. } ==> first_fires_by_propagating(
                learnt_constraint.spec_terms(),
                learnt_constraint.spec_lower_bound(),
                state.trail(),
            ),
            output matches PpbAnalyzeOutput::Learnt { backjump_level, learnt_constraint, .. } ==> least_firing(
                learnt_constraint.spec_terms(),
                learnt_constraint.spec_lower_bound(),
                state.trail(),
                true,
                backjump_level as int,
            ),
            output matches PpbAnalyzeOutput::Learnt { backjump_level, .. } ==> backjump_level
                < state.decisions().len(),
            output matches PpbAnalyzeOutput::Learnt { learnt_constraint, .. } ==> literals_in_range(
                learnt_constraint.spec_terms(),
                state.spec_number_of_variables(),
            ) && sum_coefficients(learnt_constraint.spec_terms()) <= u64::MAX,
            output matches PpbAnalyzeOutput::Learnt { involved_constraints, .. } ==> involved_constraints@.len()
                >= used@.len() && involved_constraints@.take(used@.len() as int) == used@,
            output matches PpbAnalyzeOutput::Learnt { involved_constraints, .. } ==> involved_constraints@.no_duplicates(),
            output matches PpbAnalyzeOutput::Unsatisfiable { refutation } ==> least_firing(
                refutation.spec_terms(),
                refutation.spec_lower_bound(),
                state.trail(),
                false,
                0,
            ) && sup_at(refutation.spec_terms(), state.trail(), 0) < refutation.spec_lower_bound(),
            output matches PpbAnalyzeOutput::Learnt { learnt_constraint, involved_constraints, .. } ==> implied_by(
                learnt_constraint.spec_terms(),
                learnt_constraint.spec_lower_bound(),
                state.trail(),
                explain,
                involved_constraints@,
            ),
            output matches PpbAnalyzeOutput::Unsatisfiable { refutation } ==> implied_by_some(
                refutation.spec_terms(),
                refutation.spec_lower_bound(),
                state.trail(),
                explain,
            ),
            analysis_ok(
                explain,
                first.spec_terms(),
                first.spec_lower_bound(),
                state.trail(),
                state.spec_number_of_variables(),
                NULL_ORDER as int,
                used@,
                output,
            ),
    {
        let ghost start = used@;
        let ghost t0 = first.spec_terms();
        let ghost l0 = first.spec_lower_bound();
        let mut conflict = first;
        let mut involved = used;
        let mut conflict_order: usize = NULL_ORDER;
        loop
            invariant
                state.wf(),
                state.decisions().len() < usize::MAX,
                forall|e: E| call_requires(explain, (e,)),
                    involved@.no_duplicates(),
                literals_in_range(conflict.spec_terms(), state.spec_number_of_variables()),
                sum_coefficients(conflict.spec_terms()) <= u64::MAX,
                start == used@,
                t0 == first.spec_terms(),
                l0 == first.spec_lower_bound(),
                forall|out: PpbAnalyzeOutput<E>|
                    #[trigger] analysis_ok(
                        explain,
                        conflict.spec_terms(),
                        conflict.spec_lower_bound(),
                        state.trail(),
                        state.spec_number_of_variables(),
                        conflict_order as int,
                        involved@,
                        out,
                    ) ==> analysis_ok(
                        explain,
                        t0,
                        l0,
                        state.trail(),
                        state.spec_number_of_variables(),
                        NULL_ORDER as int,
                        start,
                        out,
                    ),
                involved@.len() >= start.len(),
                involved@.take(start.len() as int) == start,
                implied_by(conflict.spec_terms(), conflict.spec_lower_bound(), state.trail(), explain, involved@),
            decreases conflict_order,
        {
            let ghost n = state.spec_number_of_variables();
            let lower_bound = conflict.lower_bound();
            if conflict.sup_literal_terms_before(conflict_order, state) >= lower_bound {
                proof {
                    assert(analysis_ok(
                        explain,
                        conflict.spec_terms(),
                        conflict.spec_lower_bound(),
                        state.trail(),
                        state.spec_number_of_variables(),
                        conflict_order as int,
                        involved@,
                        PpbAnalyzeOutput::<E>::Abandoned,
                    ));
                }
                return PpbAnalyzeOutput::Abandoned;
            }
            let step = self.next_step(&conflict, conflict_order, state);
            proof {
                let chosen = choose|s: AnalyzeStep<E>|
                    step_holds(conflict.spec_terms(), conflict.spec_lower_bound(), state.trail(), conflict_order as int, s);
                lemma_step_unique(
                    conflict.spec_terms(),
                    conflict.spec_lower_bound(),
                    *state,
                    conflict_order as int,
                    step,
                    chosen,
                );
            }
            match step {
                AnalyzeStep::Learnt { backjump_level } => {
                    if conflict.sup_literal_terms_before(NULL_ORDER, state) >= lower_bound {
                        proof {
                            assert(analysis_ok(
                                explain,
                                conflict.spec_terms(),
                                conflict.spec_lower_bound(),
                                state.trail(),
                                state.spec_number_of_variables(),
                                conflict_order as int,
                                involved@,
                                PpbAnalyzeOutput::<E>::Abandoned,
                            ));
                        }
                        return PpbAnalyzeOutput::Abandoned;
                    }
                    proof {
                        let terms = conflict.spec_terms();
                        let lb = conflict.spec_lower_bound();
                        let d = choose|d: int|
                            #[trigger] least_firing(terms, lb, state.trail(), false, d) && sup_at(terms, state.trail(), d) >= lb;
                        lemma_falsified_fires(terms, lb, *state);
                        let top = top_false_level(terms, state.trail());
                        lemma_fires_with_true(terms, lb, state.trail(), d);
                        assert(d <= top);
                        assert(d != top);
                        assert(backjump_level <= d);
                        let out = PpbAnalyzeOutput::Learnt {
                            backjump_level,
                            learnt_constraint: conflict,
                            involved_constraints: involved,
                        };
                        assert(analysis_ok(
                            explain,
                            conflict.spec_terms(),
                            conflict.spec_lower_bound(),
                            state.trail(),
                            state.spec_number_of_variables(),
                            conflict_order as int,
                            involved@,
                            out,
                        ));
                    }
                    return PpbAnalyzeOutput::Learnt {
                        backjump_level,
                        learnt_constraint: conflict,
                        involved_constraints: involved,
                    };
                },
                AnalyzeStep::Unsatisfiable => {
                    proof {
                        assert(implied_by(
                            conflict.spec_terms(),
                            conflict.spec_lower_bound(),
                            state.trail(),
                            explain,
                            involved@,
                        ));
                        assert(implied_by_some(conflict.spec_terms(), conflict.spec_lower_bound(), state.trail(), explain));
                        let out = PpbAnalyzeOutput::Unsatisfiable { refutation: conflict };
                        assert(analysis_ok(
                            explain,
                            conflict.spec_terms(),
                            conflict.spec_lower_bound(),
                            state.trail(),
                            state.spec_number_of_variables(),
                            conflict_order as int,
                            involved@,
                            out,
                        ));
                    }
                    return PpbAnalyzeOutput::Unsatisfiable { refutation: conflict };
                },
                AnalyzeStep::Exhausted => {
                    proof {
                        assert(analysis_ok(
                            explain,
                            conflict.spec_terms(),
                            conflict.spec_lower_bound(),
                            state.trail(),
                            state.spec_number_of_variables(),
                            conflict_order as int,
                            involved@,
                            PpbAnalyzeOutput::<E>::Abandoned,
                        ));
                    }
                    return PpbAnalyzeOutput::Abandoned;
                },
                AnalyzeStep::Resolve { target, reason: reason_key, order } => {
                    let explained = explain(reason_key);
                    proof {
                        state.lemma_assigned_once(target.spec_index(), order as int);
                        assert(order_of_variable(state.trail(), target.spec_index()) == order);
                    }
                    let next = self.resolve_round(&conflict, &explained, target.index(), order, state);
                    let ghost next_view = if next is Some {
                        Some((next->0.spec_terms(), next->0.spec_lower_bound()))
                    } else {
                        None
                    };
                    proof {
                        assert(call_ensures(explain, (reason_key,), explained));
                        assert(round_outcome(
                            conflict.spec_terms(),
                            conflict.spec_lower_bound(),
                            nonzero_terms(explained.spec_terms()),
                            explained.spec_lower_bound(),
                            target.spec_index(),
                            state.trail(),
                            order as int,
                            n,
                            next_view,
                        ));
                    }
                    let rescaled = match next {
                        Some(c) => c,
                        None => {
                            proof {
                                assert(analysis_ok(
                                    explain,
                                    conflict.spec_terms(),
                                    conflict.spec_lower_bound(),
                                    state.trail(),
                                    state.spec_number_of_variables(),
                                    conflict_order as int,
                                    involved@,
                                    PpbAnalyzeOutput::<E>::Abandoned,
                                ));
                            }
                            return PpbAnalyzeOutput::Abandoned;
                        },
                    };
                    let ghost before = involved@;
                    let ghost old_terms = conflict.spec_terms();
                    let ghost old_lb = conflict.spec_lower_bound();
                    let ghost old_order = conflict_order;
                    proof {
                        if !involved@.contains(reason_key) {
                            assert(involved@.push(reason_key).take(start.len() as int) =~= involved@.take(start.len() as int));
                        }
                    }
                    add_key(&mut involved, reason_key);
                    proof {
                        let trail = state.trail();
                        assert forall|a: spec_fn(nat) -> bool|
                            agrees_at_root(trail, a) && #[trigger] explained_hold(explain, involved@, a) implies lhs_under(
                                rescaled.spec_terms(),
                                a,
                            ) >= rescaled.spec_lower_bound() by {
                            assert forall|i: int, c: C|
                                0 <= i < before.len() && #[trigger] call_ensures(explain, (before[i],), c) implies lhs_under(
                                    c.spec_terms(),
                                    a,
                                ) >= c.spec_lower_bound() by {
                                assert(involved@[i] == before[i]);
                            }
                            assert(explained_hold(explain, before, a));
                            if before.contains(reason_key) {
                                let i = choose|i: int| 0 <= i < before.len() && before[i] == reason_key;
                                assert(involved@[i] == reason_key);
                            } else {
                                assert(involved@[before.len() as int] == reason_key);
                            }
                            assert(lhs_under(explained.spec_terms(), a) >= explained.spec_lower_bound());
                        }
                        assert forall|out: PpbAnalyzeOutput<E>|
                            #[trigger] analysis_ok(
                                explain,
                                rescaled.spec_terms(),
                                rescaled.spec_lower_bound(),
                                trail,
                                n,
                                order as int,
                                involved@,
                                out,
                            ) implies analysis_ok(explain, t0, l0, trail, n, NULL_ORDER as int, start, out) by {
                            assert(involved@ == with_key(before, reason_key));
                            assert(analysis_ok(explain, old_terms, old_lb, trail, n, old_order as int, before, out));
                        }
                    }
                    conflict = rescaled;
                    conflict_order = order;
                },
            }
        }
    }

    /// One round of conflict analysis on `conflict`, whose literals false
    /// before `conflict_order` are the ones still to be explained. Where the
    /// constraint first fires (only false literals counting) by propagating,
    /// it is learnt, and the search backjumps to the least level at which it
    /// fires with true literals counting too; where it first fires by
    /// conflicting at level 0, the problem is unsatisfiable; where it first
    /// conflicts above level 0, it is resolved on the literal false before
    /// `conflict_order` by an implication with the latest assignment.
    pub fn next_step<C: Constraint, E: Copy>(
        &self,
        conflict: &C,
        conflict_order: usize,
        state: &AssertionStack<E>,
    ) -> (step: AnalyzeStep<E>)
        requires
            state.wf(),
            literals_in_range(conflict.spec_terms(), state.spec_number_of_variables()),
            sum_coefficients(conflict.spec_terms()) <= u64::MAX,
            state.decisions().len() < usize::MAX,
        ensures
            step_holds(conflict.spec_terms(), conflict.spec_lower_bound(), state.trail(), conflict_order as int, step),
    {
        let ghost terms = conflict.spec_terms();
        let ghost lb = conflict.spec_lower_bound();
        let ghost trail = state.trail();
        match self.calculate_propagation_level.calculate(conflict, state, false) {
            CalculatePropagationLevelOutput::Propagate { decision_level } => {
                proof {
                    assert(least_firing(terms, lb, trail, false, decision_level as int));
                    lemma_fires_with_true(terms, lb, trail, decision_level as int);
                }
                let backjump_level = match self.calculate_propagation_level.calculate(conflict, state, true) {
                    CalculatePropagationLevelOutput::Propagate { decision_level } => decision_level,
                    CalculatePropagationLevelOutput::Conflict { decision_level } => decision_level,
                    CalculatePropagationLevelOutput::Idle => {
                        proof {
                            assert(!fires(terms, lb, trail, true, decision_level as int));
                        }
                        0
                    },
                };
                return AnalyzeStep::Learnt { backjump_level };
            },
            CalculatePropagationLevelOutput::Conflict { decision_level } => {
                if decision_level == 0 {
                    return AnalyzeStep::Unsatisfiable;
                }
                proof {
                    assert(least_firing(terms, lb, trail, false, decision_level as int));
                }
            },
            CalculatePropagationLevelOutput::Idle => {
                return AnalyzeStep::Exhausted;
            },
        }
        match self.latest_implied_false(conflict, conflict_order, state) {
            Some((target, reason, order)) => AnalyzeStep::Resolve { target, reason, order },
            None => AnalyzeStep::Exhausted,
        }
    }

    /// Among the literals of `conflict` false before `conflict_order` by an
    /// implication, the one assigned last: its negation (the literal that
    /// was asserted), the key of the constraint that implied it, and the
    /// order of the assertion; `None` when there is none.
    fn latest_implied_false<C: Constraint, E: Copy>(
        &self,
        conflict: &C,
        conflict_order: usize,
        state: &AssertionStack<E>,
    ) -> (found: Option<(Literal, E, usize)>)
        requires
            state.wf(),
            literals_in_range(conflict.spec_terms(), state.spec_number_of_variables()),
        ensures
            ({
                let terms = conflict.spec_terms();
                let trail = state.trail();
                match found {
                    Some((target, reason, order)) => {
                        &&& order < conflict_order
                        &&& assigned_at(trail, target.spec_index(), order as int)
                        &&& trail[order as int].predicate.spec_literal() == target
                        &&& trail[order as int].reason == Reason::Implication { explain_key: reason }
                        &&& exists|k: int| 0 <= k < terms.len() && (#[trigger] terms[k]).0 == target.negated()
                        &&& forall|k: int|
                            0 <= k < terms.len() && implied_false_before(trail, (#[trigger] terms[k]).0, conflict_order as int)
                                ==> order_of_variable(trail, terms[k].0.spec_index()) <= order
                    },
                    None => !has_implied_false(terms, trail, conflict_order as int),
                }
            }),
    {
        broadcast use Literal::lemma_negated;

        let terms = conflict.iter_terms();
        let ghost trail = state.trail();
        let mut found: Option<(Literal, E, usize)> = None;
        let mut k: usize = 0;
        while k < terms.len()
            invariant
                state.wf(),
                trail == state.trail(),
                terms@ == conflict.spec_terms(),
                literals_in_range(terms@, state.spec_number_of_variables()),
                k <= terms@.len(),
                match found {
                    Some((target, reason, order)) => {
                        &&& order < conflict_order
                        &&& assigned_at(trail, target.spec_index(), order as int)
                        &&& trail[order as int].predicate.spec_literal() == target
                        &&& trail[order as int].reason == Reason::Implication { explain_key: reason }
                        &&& exists|j: int| 0 <= j < terms@.len() && (#[trigger] terms@[j]).0 == target.negated()
                        &&& forall|j: int|
                            0 <= j < k && implied_false_before(trail, (#[trigger] terms@[j]).0, conflict_order as int)
                                ==> order_of_variable(trail, terms@[j].0.spec_index()) <= order
                    },
                    None => forall|j: int|
                        0 <= j < k ==> !implied_false_before(trail, (#[trigger] terms@[j]).0, conflict_order as int),
                },
            decreases terms@.len() - k,
        {
            let literal = terms[k].0;
            let literal_state = state.literal_state(literal);
            let ghost v = literal.spec_index();
            proof {
                assert(terms@[k as int].0.spec_index() < state.spec_number_of_variables());
                literal.lemma_negated();
            }
            if literal_state.is_false_before(conflict_order) {
                let ghost j = choose|j: int|
                    0 <= j < trail.len() && j < conflict_order && #[trigger] trail[j].predicate.spec_literal()
                        == literal.negated();
                proof {
                    assert(assigned_at(trail, v, j));
                    state.lemma_assigned_once(v, j);
                    assert(order_of_variable(trail, v) == j);
                }
                let order = literal_state.order().unwrap();
                let reason = literal_state.reason().unwrap();
                proof {
                    assert(order == j);
                    let i = choose|i: int| assigned_at(trail, v, i) && trail[i].reason == reason;
                    assert(i == j);
                }
                match reason {
                    Reason::Implication { explain_key } => {
                        let better = match found {
                            Some((_, _, best_order)) => order > best_order,
                            None => true,
                        };
                        if better {
                            proof {
                                assert(terms@[k as int].0 == literal.negated().negated());
                            }
                            found = Some((literal.negation(), explain_key, order));
                        }
                    },
                    Reason::Decision => {
                        proof {
                            assert(!implied_false_before(trail, terms@[k as int].0, conflict_order as int));
                        }
                    },
                }
            } else {
                proof {
                    assert(!implied_false_before(trail, terms@[k as int].0, conflict_order as int));
                }
            }
            k = k + 1;
        }
        found
    }
}

} // verus!
