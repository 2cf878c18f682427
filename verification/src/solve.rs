//! From an OPB instance to the solver's normalised constraints, the steps of
//! the search that act on the engine, and from the solver's assignment to a
//! solution.
use vstd::prelude::*;

use crate::assertion_state::{asserted_before, assigned_at, AssertionInfo, AssertionStack, Predicate, Reason, NULL_ORDER};
use crate::constraint::{Constraint, ConstraintView};
use crate::analyze::terms_in_range;
use crate::compressed_constraint::{holds_under, lhs_under, CompressedConstraint};
use crate::constraint::{literals_in_range, sum_coefficients, sum_where};
use crate::engine::{constraint_held, settled, unassigned, Engine};
use crate::explain::{CompositeLinearPropagatorExplinKey, ExplainKey};
use crate::rescale::coefficients_fit;
use crate::literal::Literal;
use crate::parse_opb::{Constraint as OpbConstraint, Objective, RelationalOperator, WeightedTerm};

verus! {

/// The literal on `variable` asserting `value`.
pub open spec fn literal_of(variable: nat, value: bool) -> Literal {
    Literal::from_bits_spec(Literal::pack(variable, value) as usize)
}

/// The sum of the negative coefficients.
pub open spec fn negative_sum(terms: Seq<(usize, i64)>) -> int
    decreases terms.len(),
{
    if terms.len() == 0 {
        0
    } else {
        negative_sum(terms.drop_last()) + if terms.last().1 < 0 {
            terms.last().1 as int
        } else {
            0
        }
    }
}

/// The lower bound of `sum c x >= rhs` once each term with `c < 0` is
/// written `|c| (not x) + c`.
pub open spec fn normalized_lower_bound(terms: Seq<(usize, i64)>, rhs: i64) -> int {
    rhs - negative_sum(terms)
}

/// The terms of the normalised constraint: `c x` for `c > 0`, `|c| (not x)`
/// for `c < 0`, no term for `c == 0`; each coefficient capped at `lower`.
pub open spec fn normalized_terms(terms: Seq<(usize, i64)>, lower: int) -> Seq<(Literal, u64)>
    decreases terms.len(),
{
    if terms.len() == 0 {
        Seq::empty()
    } else {
        let rest = normalized_terms(terms.drop_last(), lower);
        let (index, c) = terms.last();
        let magnitude = if c < 0 {
            -(c as int)
        } else {
            c as int
        };
        let capped = if magnitude < lower {
            magnitude
        } else {
            lower
        };
        if c == 0 {
            rest
        } else {
            rest.push((literal_of(index as nat, c > 0), capped as u64))
        }
    }
}

/// The value of the left-hand side `sum c x` of an OPB constraint when each
/// variable `x` has value `assignment(x)` (1 for true, 0 for false).
pub open spec fn opb_lhs(terms: Seq<(usize, i64)>, assignment: spec_fn(nat) -> bool) -> int
    decreases terms.len(),
{
    if terms.len() == 0 {
        0
    } else {
        opb_lhs(terms.drop_last(), assignment) + if assignment(terms.last().0 as nat) {
            terms.last().1 as int
        } else {
            0
        }
    }
}

/// The literal on a variable that fits in half a word has that variable
/// and that value.
proof fn lemma_literal_of(variable: nat, value: bool)
    requires
        variable <= usize::MAX / 2,
    ensures
        literal_of(variable, value).spec_index() == variable,
        literal_of(variable, value).spec_value() == value,
{
    let bits = Literal::pack(variable, value);
    assert(0 <= bits <= usize::MAX);
    Literal::lemma_from_bits_spec(bits as usize);
}

/// Under any assignment, the normalised terms (coefficients capped at
/// `cap`) are worth no more than the input's left-hand side less its
/// negative coefficients, and at least that much or `cap`.
proof fn lemma_normalized_value(terms: Seq<(usize, i64)>, cap: int, assignment: spec_fn(nat) -> bool)
    requires
        0 < cap < u64::MAX,
        forall|k: int| 0 <= k < terms.len() ==> (#[trigger] terms[k]).0 <= usize::MAX / 2,
    ensures
        ({
            let whole = opb_lhs(terms, assignment) - negative_sum(terms);
            let normalized = lhs_under(normalized_terms(terms, cap), assignment);
            &&& 0 <= normalized <= whole
            &&& normalized >= whole || normalized >= cap
        }),
    decreases terms.len(),
{
    if terms.len() > 0 {
        let rest = terms.drop_last();
        assert forall|k: int| 0 <= k < rest.len() implies (#[trigger] rest[k]).0 <= usize::MAX / 2 by {
            assert(rest[k] == terms[k]);
        }
        lemma_normalized_value(rest, cap, assignment);
        let (index, c) = terms.last();
        assert(terms[terms.len() - 1] == terms.last());
        let p = |l: Literal| holds_under(l, assignment);
        let before = normalized_terms(rest, cap);
        if c != 0 {
            let magnitude = if c < 0 { -(c as int) } else { c as int };
            let capped = if magnitude < cap { magnitude } else { cap };
            let l = literal_of(index as nat, c > 0);
            lemma_literal_of(index as nat, c > 0);
            let after = before.push((l, capped as u64));
            assert(normalized_terms(terms, cap) == after);
            assert(after.drop_last() =~= before);
            assert(sum_where(after, p) == sum_where(before, p) + if p(l) { capped } else { 0 });
        }
    }
}

/// The normalised terms have positive coefficients no greater than `cap`.
proof fn lemma_normalized_coefficients(terms: Seq<(usize, i64)>, cap: int)
    requires
        0 < cap < u64::MAX,
    ensures
        forall|k: int|
            0 <= k < normalized_terms(terms, cap).len() ==> 0 < (#[trigger] normalized_terms(terms, cap)[k]).1 <= cap,
    decreases terms.len(),
{
    if terms.len() > 0 {
        let rest = normalized_terms(terms.drop_last(), cap);
        lemma_normalized_coefficients(terms.drop_last(), cap);
        let all = normalized_terms(terms, cap);
        assert forall|k: int| 0 <= k < all.len() implies 0 < (#[trigger] all[k]).1 <= cap by {
            if k < rest.len() {
                assert(all[k] == rest[k]);
            }
        }
    }
}

/// Normalisation keeps the meaning of an OPB constraint: under every
/// assignment, `sum c x >= rhs` holds exactly when the normalised
/// constraint does, and when the normalised lower bound is not positive
/// (no constraint is made) every assignment satisfies the input.
pub proof fn lemma_normalization_equivalent(terms: Seq<(usize, i64)>, rhs: i64, assignment: spec_fn(nat) -> bool)
    requires
        forall|k: int| 0 <= k < terms.len() ==> (#[trigger] terms[k]).0 <= usize::MAX / 2,
        normalized_lower_bound(terms, rhs) < u64::MAX,
    ensures
        normalized_lower_bound(terms, rhs) <= 0 ==> opb_lhs(terms, assignment) >= rhs,
        normalized_lower_bound(terms, rhs) > 0 ==> ((opb_lhs(terms, assignment) >= rhs) <==> lhs_under(
            normalized_terms(terms, normalized_lower_bound(terms, rhs)),
            assignment,
        ) >= normalized_lower_bound(terms, rhs)),
{
    let lower = normalized_lower_bound(terms, rhs);
    if lower <= 0 {
        lemma_normalized_value(terms, 1, assignment);
    } else {
        lemma_normalized_value(terms, lower, assignment);
    }
}

/// The sum of the absolute values of the weights.
pub open spec fn abs_sum(terms: Seq<WeightedTerm>) -> int
    decreases terms.len(),
{
    if terms.len() == 0 {
        0
    } else {
        abs_sum(terms.drop_last()) + if terms.last().weight < 0 {
            -(terms.last().weight as int)
        } else {
            terms.last().weight as int
        }
    }
}

/// The sum of the absolute values of the weights of `terms`.
fn sum_of_abs(terms: &Vec<WeightedTerm>) -> (sum: u128)
    ensures
        sum == abs_sum(terms@),
{
    let mut sum: u128 = 0;
    let mut k: usize = 0;
    while k < terms.len()
        invariant
            k <= terms@.len(),
            sum == abs_sum(terms@.take(k as int)),
            sum <= k * 0x8000_0000_0000_0000,
        decreases terms@.len() - k,
    {
        proof {
            assert(terms@.take(k as int + 1).drop_last() =~= terms@.take(k as int));
        }
        let weight = terms[k].weight;
        let magnitude: u128 = if weight < 0 {
            (-(weight as i128)) as u128
        } else {
            weight as u128
        };
        sum = sum + magnitude;
        k = k + 1;
    }
    proof {
        assert(terms@.take(terms@.len() as int) =~= terms@);
    }
    sum
}

/// The solver takes an objective whose absolute weights sum to less than
/// `2^52`.
pub fn objective_is_supported(objective: &Objective) -> (supported: bool)
    ensures
        supported == (abs_sum(objective.sum@) < 0x10_0000_0000_0000),
{
    sum_of_abs(&objective.sum) < 0x10_0000_0000_0000
}

/// The solver takes a constraint whose absolute weights sum to at most
/// `u64::MAX`.
pub fn constraint_is_supported(constraint: &OpbConstraint) -> (supported: bool)
    ensures
        supported == (abs_sum(constraint.sum@) <= u64::MAX),
{
    sum_of_abs(&constraint.sum) <= u64::MAX as u128
}

/// The constraint `sum c x >= rhs` over variables `x` in the solver's form
/// (see `normalized_terms`), or `None` when it holds whatever the values
/// (its normalised lower bound is not positive).
pub fn make_constraint(terms: &[(usize, i64)], rhs: i64) -> (constraint: Option<ConstraintView>)
    requires
        forall|k: int| 0 <= k < terms@.len() ==> (#[trigger] terms@[k]).0 <= usize::MAX / 2,
        normalized_lower_bound(terms@, rhs) < u64::MAX,
    ensures
        constraint is None <==> normalized_lower_bound(terms@, rhs) <= 0,
        constraint matches Some(c) ==> c.spec_lower_bound() == normalized_lower_bound(terms@, rhs)
            && c.spec_terms() == normalized_terms(terms@, normalized_lower_bound(terms@, rhs)),
        constraint matches Some(c) ==> c.spec_lower_bound() > 0 && forall|k: int|
            0 <= k < c.spec_terms().len() ==> 0 < (#[trigger] c.spec_terms()[k]).1 <= c.spec_lower_bound(),
        forall|assignment: spec_fn(nat) -> bool|
            #![trigger opb_lhs(terms@, assignment)]
            (opb_lhs(terms@, assignment) >= rhs) <==> match constraint {
                None => true,
                Some(c) => lhs_under(c.spec_terms(), assignment) >= c.spec_lower_bound(),
            },
{
    let mut negative: i128 = 0;
    let mut k: usize = 0;
    while k < terms.len()
        invariant
            k <= terms@.len(),
            negative == negative_sum(terms@.take(k as int)),
            negative >= -(k * 0x8000_0000_0000_0000),
            negative <= 0,
        decreases terms@.len() - k,
    {
        proof {
            assert(terms@.take(k as int + 1).drop_last() =~= terms@.take(k as int));
        }
        let coefficient = terms[k].1;
        if coefficient < 0 {
            negative = negative + coefficient as i128;
        }
        k = k + 1;
    }
    proof {
        assert(terms@.take(terms@.len() as int) =~= terms@);
    }
    let lower_i128 = rhs as i128 - negative;
    if lower_i128 <= 0 {
        proof {
            assert forall|assignment: spec_fn(nat) -> bool| opb_lhs(terms@, assignment) >= rhs by {
                lemma_normalized_value(terms@, 1, assignment);
            }
        }
        return None;
    }
    let lower = lower_i128 as u64;
    let mut literal_terms: Vec<(Literal, u64)> = Vec::new();
    let mut k: usize = 0;
    while k < terms.len()
        invariant
            k <= terms@.len(),
            lower as int == normalized_lower_bound(terms@, rhs),
            forall|j: int| 0 <= j < terms@.len() ==> (#[trigger] terms@[j]).0 <= usize::MAX / 2,
            literal_terms@ == normalized_terms(terms@.take(k as int), lower as int),
        decreases terms@.len() - k,
    {
        proof {
            assert(terms@.take(k as int + 1).drop_last() =~= terms@.take(k as int));
        }
        let (index, coefficient) = terms[k];
        if coefficient != 0 {
            let magnitude: u64 = if coefficient < 0 {
                (-(coefficient as i128)) as u64
            } else {
                coefficient as u64
            };
            let capped = if magnitude < lower {
                magnitude
            } else {
                lower
            };
            let literal = Literal::new(index, coefficient > 0);
            proof {
                Literal::lemma_from_bits_spec(Literal::pack(index as nat, coefficient > 0) as usize);
                Literal::lemma_bits_determine(literal, literal_of(index as nat, coefficient > 0));
            }
            literal_terms.push((literal, capped));
        }
        k = k + 1;
    }
    proof {
        assert(terms@.take(terms@.len() as int) =~= terms@);
        assert forall|assignment: spec_fn(nat) -> bool| (opb_lhs(terms@, assignment) >= rhs) <==> lhs_under(
            literal_terms@,
            assignment,
        ) >= lower by {
            lemma_normalized_value(terms@, lower as int, assignment);
        }
        lemma_normalized_coefficients(terms@, lower as int);
    }
    Some(ConstraintView::new(literal_terms, lower))
}

/// Records in `solution` the value of every variable: whether its positive
/// literal is true.
pub fn store_solution<E: Copy>(solution: &mut Vec<bool>, assertion_state: &AssertionStack<E>)
    requires
        assertion_state.wf(),
        assertion_state.spec_number_of_variables() <= usize::MAX / 2 + 1,
    ensures
        final(solution)@.len() == assertion_state.spec_number_of_variables(),
        forall|v: int|
            0 <= v < final(solution)@.len() ==> #[trigger] final(solution)@[v] == asserted_before(
                assertion_state.trail(),
                literal_of(v as nat, true),
                NULL_ORDER as int,
            ),
{
    solution.clear();
    let n = assertion_state.number_of_variables();
    let mut variable: usize = 0;
    while variable < n
        invariant
            assertion_state.wf(),
            n == assertion_state.spec_number_of_variables(),
            n <= usize::MAX / 2 + 1,
            variable <= n,
            solution@.len() == variable,
            forall|v: int|
                0 <= v < variable ==> #[trigger] solution@[v] == asserted_before(
                    assertion_state.trail(),
                    literal_of(v as nat, true),
                    NULL_ORDER as int,
                ),
        decreases n - variable,
    {
        let literal = Literal::new(variable, true);
        proof {
            Literal::lemma_from_bits_spec(Literal::pack(variable as nat, true) as usize);
            Literal::lemma_bits_determine(literal, literal_of(variable as nat, true));
        }
        let value = assertion_state.literal_state(literal).is_true();
        solution.push(value);
        variable = variable + 1;
    }
}

/// The first variable that `state` leaves unassigned, if any.
pub fn first_unassigned<E: Copy>(state: &AssertionStack<E>) -> (variable: Option<usize>)
    requires
        state.wf(),
        state.spec_number_of_variables() <= usize::MAX / 2 + 1,
    ensures
        match variable {
            Some(v) => v < state.spec_number_of_variables() && unassigned(state.trail(), v as nat) && forall|u: nat|
                u < v ==> !#[trigger] unassigned(state.trail(), u),
            None => forall|u: nat| u < state.spec_number_of_variables() ==> !#[trigger] unassigned(state.trail(), u),
        },
{
    let n = state.number_of_variables();
    let mut variable: usize = 0;
    while variable < n
        invariant
            state.wf(),
            n == state.spec_number_of_variables(),
            n <= usize::MAX / 2 + 1,
            variable <= n,
            forall|u: nat| u < variable ==> !#[trigger] unassigned(state.trail(), u),
        decreases n - variable,
    {
        let literal = Literal::new(variable, true);
        proof {
            Literal::lemma_from_bits_spec(Literal::pack(variable as nat, true) as usize);
        }
        if !state.literal_state(literal).is_assigned() {
            return Some(variable);
        }
        proof {
            let k = choose|k: int| assigned_at(state.trail(), variable as nat, k);
            assert(!unassigned(state.trail(), variable as nat));
        }
        variable = variable + 1;
    }
    None
}

/// What `decide` did.
#[derive(Clone, Copy, Debug)]
pub enum Decided {
    /// Every variable is assigned: the assertions are a model.
    Complete,
    /// The search went back to decision level 0.
    Restarted,
    /// `literal` was decided.
    Decision(Literal),
}

/// The search's step when no conflict waits: when every variable is
/// assigned, nothing (`Complete`); otherwise, when `restart` and above
/// decision level 0, a backjump to level 0; otherwise the decision of the
/// first unassigned variable at its cached phase.
pub fn decide<O: Copy>(engine: &mut Engine<O>, restart: bool) -> (decided: Decided)
    requires
        old(engine).wf(),
        old(engine).queue().conflict_constraints().len() == 0,
        old(engine).queue().conflict_literals().len() == 0,
        settled(old(engine).queue()),
    ensures
        final(engine).wf(),
        settled(final(engine).queue()),
        final(engine).state().spec_number_of_variables() == old(engine).state().spec_number_of_variables(),
        decided is Complete <==> forall|u: nat|
            u < old(engine).state().spec_number_of_variables() ==> !#[trigger] unassigned(old(engine).state().trail(), u),
        decided is Complete ==> *final(engine) == *old(engine),
        decided is Restarted <==> !(decided is Complete) && restart && old(engine).state().decisions().len() > 0,
        decided is Restarted ==> final(engine).state().decisions().len() == 0 && final(engine).state().trail()
            == old(engine).state().trail().subrange(0, old(engine).state().decisions()[0] as int),
        decided matches Decided::Decision(literal) ==> {
            let v = literal.spec_index();
            &&& v < old(engine).state().spec_number_of_variables()
            &&& unassigned(old(engine).state().trail(), v)
            &&& forall|u: nat| u < v ==> !#[trigger] unassigned(old(engine).state().trail(), u)
            &&& literal == literal_of(v, old(engine).state().phases()[v as int])
            &&& final(engine).state().decisions() == old(engine).state().decisions().push(
                old(engine).state().trail().len() as usize,
            )
            &&& final(engine).state().trail().take(old(engine).state().trail().len() as int + 1) == old(
                engine,
            ).state().trail().push(
                AssertionInfo {
                    predicate: Predicate::Literal(literal),
                    reason: Reason::Decision,
                    decision_level: (old(engine).state().decisions().len() + 1) as usize,
                },
            )
        },
{
    let state = engine.assertion_stack();
    match first_unassigned(state) {
        None => Decided::Complete,
        Some(variable) => {
            if restart && engine.decision_level() > 0 {
                engine.backjump(0);
                Decided::Restarted
            } else {
                let value = state.cached_phase(variable);
                let literal = Literal::new(variable, value);
                proof {
                    Literal::lemma_from_bits_spec(Literal::pack(variable as nat, value) as usize);
                    Literal::lemma_bits_determine(literal, literal_of(variable as nat, value));
                }
                engine.decision(Predicate::Literal(literal));
                Decided::Decision(literal)
            }
        },
    }
}

/// A row of `engine` stands behind `key`, when it is a propagator's key.
pub open spec fn held_by<O: Copy>(engine: Engine<O>, key: ExplainKey<CompositeLinearPropagatorExplinKey, O>) -> bool {
    match key {
        ExplainKey::Propagator(CompositeLinearPropagatorExplinKey::Cardinality(k)) => k.spec_row_id().spec_index()
            < engine.propagator().cardinality().rows().len()
            && engine.propagator().cardinality().rows()[k.spec_row_id().spec_index() as int] is Some,
        ExplainKey::Propagator(CompositeLinearPropagatorExplinKey::Linear(k)) => k.spec_row_id().spec_index()
            < engine.propagator().linear().rows().len()
            && engine.propagator().linear().rows()[k.spec_row_id().spec_index() as int] is Some,
        ExplainKey::Outer(_) => true,
    }
}

/// Whether a row of `engine` stands behind every propagator key of `keys`.
fn all_held<O: Copy>(engine: &Engine<O>, keys: &[ExplainKey<CompositeLinearPropagatorExplinKey, O>]) -> (held: bool)
    ensures
        held == forall|k: int| 0 <= k < keys@.len() ==> held_by(*engine, #[trigger] keys@[k]),
{
    let mut k: usize = 0;
    while k < keys.len()
        invariant
            k <= keys@.len(),
            forall|j: int| 0 <= j < k ==> held_by(*engine, #[trigger] keys@[j]),
        decreases keys@.len() - k,
    {
        let held = match keys[k] {
            ExplainKey::Propagator(key) => engine.holds_row(key),
            ExplainKey::Outer(_) => true,
        };
        if !held {
            return false;
        }
        k = k + 1;
    }
    true
}

/// The inputs on which `learn` learns: the backjump stays within the
/// decision levels, a row stands behind every involved propagator key, and
/// the learnt constraint is over the engine's variables, its coefficients
/// sum to at most `u64::MAX` and its lower bound fits a `usize`.
pub open spec fn learnable<O: Copy>(
    engine: Engine<O>,
    backjump_level: usize,
    terms: Seq<(Literal, u64)>,
    lower_bound: u64,
    involved_constraints: Seq<ExplainKey<CompositeLinearPropagatorExplinKey, O>>,
) -> bool {
    &&& backjump_level <= engine.state().decisions().len()
    &&& forall|k: int| 0 <= k < involved_constraints.len() ==> held_by(engine, #[trigger] involved_constraints[k])
    &&& literals_in_range(terms, engine.state().spec_number_of_variables())
    &&& sum_coefficients(terms) <= u64::MAX
    &&& lower_bound <= usize::MAX
}

/// The search's step after conflict analysis learnt `learnt_constraint`:
/// marks the constraints behind `involved_constraints` as taking part in
/// a conflict, backjumps to `backjump_level` and adds the constraint as a
/// learnt one. Returns whether it did; on inputs that are not `learnable`
/// it changes nothing.
pub fn learn<O: Copy>(
    engine: &mut Engine<O>,
    backjump_level: usize,
    learnt_constraint: &CompressedConstraint,
    involved_constraints: &[ExplainKey<CompositeLinearPropagatorExplinKey, O>],
) -> (learnt: bool)
    requires
        old(engine).wf(),
    ensures
        final(engine).wf(),
        learnt == learnable(
            *old(engine),
            backjump_level,
            learnt_constraint.spec_terms(),
            learnt_constraint.spec_lower_bound(),
            involved_constraints@,
        ),
        !learnt ==> *final(engine) == *old(engine),
        learnt ==> {
            let before = old(engine).state();
            let kept = if backjump_level < before.decisions().len() {
                before.decisions()[backjump_level as int] as int
            } else {
                before.trail().len() as int
            };
            &&& settled(final(engine).queue())
            &&& final(engine).state().spec_number_of_variables() == before.spec_number_of_variables()
            &&& final(engine).state().decisions() == before.decisions().subrange(0, backjump_level as int)
            &&& kept <= final(engine).state().trail().len()
            &&& final(engine).state().trail().take(kept) == before.trail().take(kept)
            &&& exists|propagator| constraint_held(
                propagator,
                final(engine).propagator(),
                learnt_constraint.spec_terms(),
                learnt_constraint.spec_lower_bound(),
            )
        },
{
    let terms = learnt_constraint.iter_terms();
    let n = engine.number_of_variables();
    if backjump_level > engine.decision_level() || !all_held(engine, involved_constraints) || !terms_in_range(&terms, n)
        || !coefficients_fit(&terms) || learnt_constraint.lower_bound() as u128 > usize::MAX as u128 {
        return false;
    }
    let ghost before = engine.state();
    engine.update_activity(involved_constraints);
    engine.backjump(backjump_level);
    proof {
        if backjump_level == before.decisions().len() {
            assert(before.decisions().subrange(0, backjump_level as int) =~= before.decisions());
        } else {
            let kept = before.decisions()[backjump_level as int] as int;
            assert(engine.state().trail().take(kept) =~= before.trail().take(kept));
        }
    }
    let ghost middle = engine.state();
    let ghost propagator = engine.propagator();
    engine.add_constraint(learnt_constraint, true);
    proof {
        let kept = if backjump_level < before.decisions().len() {
            before.decisions()[backjump_level as int] as int
        } else {
            before.trail().len() as int
        };
        assert(kept == middle.trail().len());
        assert(engine.state().trail().take(kept) =~= before.trail().take(kept));
    }
    true
}

/// The votes of a term for the values of its variable, for false and for
/// true: both for an equality, true for a positive weight, false otherwise.
pub open spec fn vote(equal: bool, weight: i64) -> (int, int) {
    if equal {
        (1, 1)
    } else if weight > 0 {
        (0, 1)
    } else {
        (1, 0)
    }
}

/// The votes of `terms` for the values of the variable with 0-based index
/// `v`.
pub open spec fn term_votes(terms: Seq<WeightedTerm>, equal: bool, v: int) -> (int, int)
    decreases terms.len(),
{
    if terms.len() == 0 {
        (0, 0)
    } else {
        let rest = term_votes(terms.drop_last(), equal, v);
        if terms.last().term.index - 1 == v {
            (rest.0 + vote(equal, terms.last().weight).0, rest.1 + vote(equal, terms.last().weight).1)
        } else {
            rest
        }
    }
}

/// The votes of the terms of `constraints` for the values of the variable
/// with 0-based index `v`.
pub open spec fn votes(constraints: Seq<OpbConstraint>, v: int) -> (int, int)
    decreases constraints.len(),
{
    if constraints.len() == 0 {
        (0, 0)
    } else {
        let rest = votes(constraints.drop_last(), v);
        let c = constraints.last();
        let here = term_votes(c.sum@, c.relational_operator == RelationalOperator::Equal, v);
        (rest.0 + here.0, rest.1 + here.1)
    }
}

/// The greatest variable index of `terms`, or `start` if greater.
pub open spec fn max_term_index(terms: Seq<WeightedTerm>, start: nat) -> nat
    decreases terms.len(),
{
    if terms.len() == 0 {
        start
    } else {
        let rest = max_term_index(terms.drop_last(), start);
        if terms.last().term.index > rest {
            terms.last().term.index as nat
        } else {
            rest
        }
    }
}

/// The greatest variable index of the constraints, or 0: the number of
/// variables when they are numbered from 1 without gaps.
pub open spec fn max_index(constraints: Seq<OpbConstraint>) -> nat
    decreases constraints.len(),
{
    if constraints.len() == 0 {
        0
    } else {
        max_term_index(constraints.last().sum@, max_index(constraints.drop_last()))
    }
}

/// The number of terms of the constraints.
pub open spec fn total_terms(constraints: Seq<OpbConstraint>) -> int
    decreases constraints.len(),
{
    if constraints.len() == 0 {
        0
    } else {
        total_terms(constraints.drop_last()) + constraints.last().sum@.len()
    }
}

/// Votes are natural numbers, at most one per term.
proof fn lemma_term_votes_bound(terms: Seq<WeightedTerm>, equal: bool, v: int)
    ensures
        0 <= term_votes(terms, equal, v).0 <= terms.len(),
        0 <= term_votes(terms, equal, v).1 <= terms.len(),
    decreases terms.len(),
{
    if terms.len() > 0 {
        lemma_term_votes_bound(terms.drop_last(), equal, v);
    }
}

/// Votes are natural numbers, at most one per term.
proof fn lemma_votes_bound(constraints: Seq<OpbConstraint>, v: int)
    ensures
        0 <= votes(constraints, v).0 <= total_terms(constraints),
        0 <= votes(constraints, v).1 <= total_terms(constraints),
        total_terms(constraints) >= 0,
    decreases constraints.len(),
{
    if constraints.len() > 0 {
        let c = constraints.last();
        lemma_votes_bound(constraints.drop_last(), v);
        lemma_term_votes_bound(c.sum@, c.relational_operator == RelationalOperator::Equal, v);
    }
}

/// The greatest index never falls below the start.
proof fn lemma_max_term_index(terms: Seq<WeightedTerm>, start: nat)
    ensures
        max_term_index(terms, start) >= start,
        forall|k: int| 0 <= k < terms.len() ==> (#[trigger] terms[k]).term.index <= max_term_index(terms, start),
    decreases terms.len(),
{
    if terms.len() > 0 {
        lemma_max_term_index(terms.drop_last(), start);
        assert forall|k: int| 0 <= k < terms.len() implies (#[trigger] terms[k]).term.index <= max_term_index(
            terms,
            start,
        ) by {
            if k < terms.len() - 1 {
                assert(terms[k] == terms.drop_last()[k]);
            }
        }
    }
}

/// The initial value of each variable, numbered from 1 without gaps: true
/// when more terms vote for true than for false (see `vote`).
pub fn initial_values(constraints: &Vec<OpbConstraint>) -> (values: Vec<bool>)
    requires
        forall|i: int, k: int|
            0 <= i < constraints@.len() && 0 <= k < constraints@[i].sum@.len() ==> (
            #[trigger] constraints@[i].sum@[k]).term.index >= 1,
        total_terms(constraints@) <= usize::MAX,
    ensures
        values@.len() == max_index(constraints@),
        forall|v: int| 0 <= v < values@.len() ==> values@[v] == (votes(constraints@, v).0 < votes(constraints@, v).1),
{
    let mut n: usize = 0;
    let mut i: usize = 0;
    while i < constraints.len()
        invariant
            i <= constraints@.len(),
            n == max_index(constraints@.take(i as int)),
        decreases constraints@.len() - i,
    {
        let terms = &constraints[i].sum;
        let ghost start = n as nat;
        let mut j: usize = 0;
        while j < terms.len()
            invariant
                i < constraints@.len(),
                j <= terms@.len(),
                terms@ == constraints@[i as int].sum@,
                n == max_term_index(terms@.take(j as int), start),
            decreases terms@.len() - j,
        {
            proof {
                assert(terms@.take(j as int + 1).drop_last() =~= terms@.take(j as int));
            }
            if terms[j].term.index > n {
                n = terms[j].term.index;
            }
            j = j + 1;
        }
        proof {
            assert(terms@.take(terms@.len() as int) =~= terms@);
            assert(constraints@.take(i as int + 1).drop_last() =~= constraints@.take(i as int));
        }
        i = i + 1;
    }
    proof {
        assert(constraints@.take(constraints@.len() as int) =~= constraints@);
    }
    let mut counts: Vec<(usize, usize)> = Vec::new();
    while counts.len() < n
        invariant
            counts@.len() <= n,
            forall|v: int| 0 <= v < counts@.len() ==> counts@[v] == (0usize, 0usize),
        decreases n - counts@.len(),
    {
        counts.push((0, 0));
    }
    let mut i: usize = 0;
    while i < constraints.len()
        invariant
            i <= constraints@.len(),
            counts@.len() == n,
            n == max_index(constraints@),
            total_terms(constraints@) <= usize::MAX,
            forall|i2: int, k: int|
                0 <= i2 < constraints@.len() && 0 <= k < constraints@[i2].sum@.len() ==> (
                #[trigger] constraints@[i2].sum@[k]).term.index >= 1,
            forall|v: int|
                0 <= v < n ==> (#[trigger] counts@[v]).0 == votes(constraints@.take(i as int), v).0 && counts@[v].1
                    == votes(constraints@.take(i as int), v).1,
        decreases constraints@.len() - i,
    {
        let terms = &constraints[i].sum;
        let equal = constraints[i].relational_operator == RelationalOperator::Equal;
        let ghost done = constraints@.take(i as int);
        let mut j: usize = 0;
        while j < terms.len()
            invariant
                i < constraints@.len(),
                done == constraints@.take(i as int),
                j <= terms@.len(),
                terms@ == constraints@[i as int].sum@,
                equal == (constraints@[i as int].relational_operator == RelationalOperator::Equal),
                counts@.len() == n,
                n == max_index(constraints@),
                total_terms(constraints@) <= usize::MAX,
                forall|k: int| 0 <= k < terms@.len() ==> (#[trigger] terms@[k]).term.index >= 1,
                forall|v: int|
                    0 <= v < n ==> (#[trigger] counts@[v]).0 == votes(done, v).0 + term_votes(
                        terms@.take(j as int),
                        equal,
                        v,
                    ).0 && counts@[v].1 == votes(done, v).1 + term_votes(terms@.take(j as int), equal, v).1,
            decreases terms@.len() - j,
        {
            proof {
                assert(terms@.take(j as int + 1).drop_last() =~= terms@.take(j as int));
            }
            let v = terms[j].term.index - 1;
            proof {
                lemma_max_index_bounds(constraints@, i as int, j as int);
                lemma_votes_bound(done, v as int);
                lemma_term_votes_bound(terms@.take(j as int), equal, v as int);
                lemma_total_prefix(constraints@, i as int + 1);
                assert(constraints@.take(i as int + 1).drop_last() =~= done);
                assert(constraints@.take(i as int + 1).last() == constraints@[i as int]);
                lemma_term_votes_prefix(terms@, j as int + 1, equal, v as int);
            }
            let (false_count, true_count) = counts[v];
            let updated = if equal {
                (false_count + 1, true_count + 1)
            } else if terms[j].weight > 0 {
                (false_count, true_count + 1)
            } else {
                (false_count + 1, true_count)
            };
            counts.set(v, updated);
            j = j + 1;
        }
        proof {
            assert(terms@.take(terms@.len() as int) =~= terms@);
            assert(constraints@.take(i as int + 1).drop_last() =~= constraints@.take(i as int));
        }
        i = i + 1;
    }
    proof {
        assert(constraints@.take(constraints@.len() as int) =~= constraints@);
    }
    let mut values: Vec<bool> = Vec::new();
    let mut v: usize = 0;
    while v < n
        invariant
            v <= n,
            counts@.len() == n,
            values@.len() == v,
            forall|u: int|
                0 <= u < n ==> (#[trigger] counts@[u]).0 == votes(constraints@, u).0 && counts@[u].1 == votes(
                    constraints@,
                    u,
                ).1,
            forall|u: int| 0 <= u < v ==> values@[u] == (votes(constraints@, u).0 < votes(constraints@, u).1),
        decreases n - v,
    {
        values.push(counts[v].0 < counts[v].1);
        v = v + 1;
    }
    values
}

/// Each term's index is at most the greatest index, which bounds the
/// greatest index of any prefix.
proof fn lemma_max_index_bounds(constraints: Seq<OpbConstraint>, i: int, j: int)
    requires
        0 <= i < constraints.len(),
        0 <= j < constraints[i].sum@.len(),
    ensures
        constraints[i].sum@[j].term.index <= max_index(constraints),
    decreases constraints.len(),
{
    let last = constraints.len() - 1;
    lemma_max_term_index(constraints.last().sum@, max_index(constraints.drop_last()));
    if i < last {
        lemma_max_index_bounds(constraints.drop_last(), i, j);
        assert(constraints.drop_last()[i] == constraints[i]);
    }
}

/// The terms of a prefix of the constraints are at most all terms.
proof fn lemma_total_prefix(constraints: Seq<OpbConstraint>, i: int)
    requires
        0 <= i <= constraints.len(),
    ensures
        total_terms(constraints.take(i)) <= total_terms(constraints),
        total_terms(constraints.take(i)) >= 0,
    decreases constraints.len() - i,
{
    if i < constraints.len() {
        lemma_total_prefix(constraints, i + 1);
        assert(constraints.take(i + 1).drop_last() =~= constraints.take(i));
        lemma_votes_bound(constraints.take(i + 1), 0);
        lemma_votes_bound(constraints.take(i), 0);
    } else {
        assert(constraints.take(i) =~= constraints);
        lemma_votes_bound(constraints, 0);
    }
}

/// The votes of a prefix of terms extended by one term.
proof fn lemma_term_votes_prefix(terms: Seq<WeightedTerm>, j: int, equal: bool, v: int)
    requires
        0 < j <= terms.len(),
    ensures
        term_votes(terms.take(j), equal, v) == if terms[j - 1].term.index - 1 == v {
            (
                term_votes(terms.take(j - 1), equal, v).0 + vote(equal, terms[j - 1].weight).0,
                term_votes(terms.take(j - 1), equal, v).1 + vote(equal, terms[j - 1].weight).1,
            )
        } else {
            term_votes(terms.take(j - 1), equal, v)
        },
{
    assert(terms.take(j).drop_last() =~= terms.take(j - 1));
    assert(terms.take(j).last() == terms[j - 1]);
}

} // verus!
