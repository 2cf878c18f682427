//! The engine of the solver: the assertions, a propagator of linear
//! constraints and the implications waiting to be asserted, propagated to a
//! fixed point after each change.
use vstd::prelude::*;

use crate::assertion_state::{assigned_at, AssertionInfo, AssertionStack, Predicate, Reason};
use crate::cardinality_propagator::{
    count_not_false, lemma_consistent, lemma_count_extension, lemma_count_permutation,
    lemma_initial_implications_sound, sound_in, term_literals, CardinalityPropagator,
};
use crate::composite_linear_propagator::{
    lift_cardinality, lift_linear, lifted_cardinality, lifted_linear, unit_coefficients, CompositeLinearPropagator,
    CompositeRow,
};
use crate::compressed_constraint::{nonzero_terms, strengthened};
use crate::constraint::{literals_in_range, sum_coefficients, Constraint};
use crate::explain::{
    CardinalityPropagatorExplainKey, CompositeLinearPropagatorExplinKey, ConflictImplication, ConflictStatus,
    ExplainKey, Implication, LinearPropagatorExplainKey, Status,
};
use crate::implication_queue::{is_least_conflict, is_least_propagation, received, ImplicationQueue};
use crate::linear_propagator::{
    lemma_fresh_confirmed_sound, lemma_sup_extension, linear_sound_in, sup_before, LinearPropagator,
};
use crate::literal::Literal;
use crate::solve::literal_of;

verus! {

/// The variable `v` is not assigned in `trail`.
pub open spec fn unassigned<E>(trail: Seq<AssertionInfo<E>>, v: nat) -> bool {
    forall|k: int| !assigned_at(trail, v, k)
}

/// Every variable waiting in `queue` is one of the first `n` and is not
/// assigned in `trail`.
pub open spec fn waiting_unassigned<E, K: Copy>(queue: ImplicationQueue<K>, trail: Seq<AssertionInfo<E>>, n: nat) -> bool {
    &&& forall|v: usize| #[trigger] queue.propagations().contains_key(v) ==> v < n && unassigned(trail, v as nat)
    &&& forall|v: usize| #[trigger] queue.conflict_literals().contains_key(v) ==> v < n && unassigned(trail, v as nat)
}

/// The implication is a conflict, or implies a literal of one of the first
/// `n` variables that is not assigned in `trail`.
pub open spec fn implies_unassigned<E>(
    implication: Implication<CompositeLinearPropagatorExplinKey>,
    trail: Seq<AssertionInfo<E>>,
    n: nat,
) -> bool {
    match implication {
        Implication::Conflict(_) => true,
        Implication::Literal(l, _, _, _) => l.spec_index() < n && unassigned(trail, l.spec_index()),
    }
}

/// A finite set of variables below `n` has at most `n` elements.
proof fn lemma_len_below(s: Set<usize>, n: nat)
    requires
        s.finite(),
        forall|v: usize| #[trigger] s.contains(v) ==> v < n,
    ensures
        s.len() <= n,
    decreases n,
{
    if n == 0 {
        assert(s =~= Set::empty());
    } else if n - 1 > usize::MAX {
        lemma_len_below(s, (n - 1) as nat);
    } else {
        let t = s.remove((n - 1) as usize);
        lemma_len_below(t, (n - 1) as nat);
    }
}

/// The queue holds at most `n` variables of each kind.
proof fn lemma_queue_len<E, K: Copy>(queue: ImplicationQueue<K>, trail: Seq<AssertionInfo<E>>, n: nat)
    requires
        queue.wf(),
        waiting_unassigned(queue, trail, n),
    ensures
        queue.propagations().len() <= n,
        queue.conflict_literals().len() <= n,
{
    queue.lemma_finite();
    lemma_len_below(queue.propagations().dom(), n);
    lemma_len_below(queue.conflict_literals().dom(), n);
}

/// The trail assigns each variable at most once, so it is no longer than
/// the number of variables.
proof fn lemma_trail_len<E: Copy>(state: AssertionStack<E>)
    requires
        state.wf(),
    ensures
        state.trail().len() <= state.spec_number_of_variables(),
{
    let trail = state.trail();
    let n = state.spec_number_of_variables();
    let vars = trail.map_values(|info: AssertionInfo<E>| info.predicate.spec_literal().spec_index() as usize);
    assert forall|k: int| 0 <= k < trail.len() implies (#[trigger] vars[k]) < n by {
        assert(assigned_at(trail, trail[k].predicate.spec_literal().spec_index(), k));
        state.lemma_assigned_once(trail[k].predicate.spec_literal().spec_index(), k);
    }
    assert(vars.no_duplicates()) by {
        assert forall|i: int, j: int| 0 <= i < vars.len() && 0 <= j < vars.len() && i != j implies vars[i]
            != vars[j] by {
            if vars[i] == vars[j] {
                let v = trail[i].predicate.spec_literal().spec_index();
                assert(assigned_at(trail, v, i));
                assert(assigned_at(trail, v, j));
                state.lemma_assigned_once(v, i);
            }
        }
    }
    vars.unique_seq_to_set();
    assert forall|v: usize| #[trigger] vars.to_set().contains(v) implies v < n by {
        let k = choose|k: int| 0 <= k < vars.len() && vars[k] == v;
    }
    lemma_len_below(vars.to_set(), n);
}

/// The constraint behind `key` implies `literal` given the assertions of
/// `prefix`: for a cardinality row, the literal is one of its literals and
/// at most its lower bound of them are not false; for a linear row,
/// `(literal, coefficient)` is one of its terms and its slack is below
/// `coefficient`.
pub open spec fn explains_with<E>(
    propagator: CompositeLinearPropagator,
    key: CompositeLinearPropagatorExplinKey,
    literal: Literal,
    coefficient: u64,
    prefix: Seq<AssertionInfo<E>>,
) -> bool {
    match key {
        CompositeLinearPropagatorExplinKey::Cardinality(k) => {
            let rows = propagator.cardinality().rows();
            let i = k.spec_row_id().spec_index() as int;
            &&& 0 <= i < rows.len()
            &&& rows[i] is Some
            &&& rows[i].unwrap().spec_literals().contains(literal)
            &&& count_not_false(rows[i].unwrap().spec_literals(), prefix) <= rows[i].unwrap().spec_bound()
        },
        CompositeLinearPropagatorExplinKey::Linear(k) => {
            let rows = propagator.linear().rows();
            let i = k.spec_row_id().spec_index() as int;
            &&& 0 <= i < rows.len()
            &&& rows[i] is Some
            &&& rows[i].unwrap().terms().contains((literal, coefficient))
            &&& sup_before(rows[i].unwrap().terms(), prefix, prefix.len() as int) - rows[i].unwrap().bound() < coefficient
        },
    }
}

/// The constraint behind `key` implies `literal` given the assertions of
/// `prefix` (see `explains_with`).
pub open spec fn explains<E>(
    propagator: CompositeLinearPropagator,
    key: CompositeLinearPropagatorExplinKey,
    literal: Literal,
    prefix: Seq<AssertionInfo<E>>,
) -> bool {
    exists|coefficient: u64| #[trigger] explains_with(propagator, key, literal, coefficient, prefix)
}

/// Every implication waiting in `queue` is implied by the constraint behind
/// its key given `trail`.
pub open spec fn queue_explained<E>(
    queue: ImplicationQueue<CompositeLinearPropagatorExplinKey>,
    propagator: CompositeLinearPropagator,
    trail: Seq<AssertionInfo<E>>,
) -> bool {
    &&& forall|v: usize| #[trigger]
        queue.propagations().contains_key(v) ==> explains_with(
            propagator,
            queue.propagations()[v].explain_key,
            literal_of(v as nat, queue.propagations()[v].value),
            queue.propagations()[v].normalized_slack.1,
            trail,
        )
    &&& forall|v: usize| #[trigger]
        queue.conflict_literals().contains_key(v) ==> {
            let e = queue.conflict_literals()[v];
            &&& explains_with(propagator, e.explain_keys@[0], literal_of(v as nat, false), e.normalized_slacks@[0].1, trail)
            &&& explains_with(propagator, e.explain_keys@[1], literal_of(v as nat, true), e.normalized_slacks@[1].1, trail)
        }
}

/// Every implied assertion of `trail` is implied by the constraint behind
/// its key given the assertions before it.
pub open spec fn trail_explained<O>(
    propagator: CompositeLinearPropagator,
    trail: Seq<AssertionInfo<ExplainKey<CompositeLinearPropagatorExplinKey, O>>>,
) -> bool {
    forall|k: int|
        0 <= k < trail.len() && (#[trigger] trail[k]).decision_level > 0 ==> match trail[k].reason {
            Reason::Implication { explain_key: ExplainKey::Propagator(key) } => explains(
                propagator,
                key,
                trail[k].predicate.spec_literal(),
                trail.take(k),
            ),
            _ => true,
        }
}

/// Every row of `a` is in `b`, in the same slot, with the same literals
/// (counted with multiplicity) or terms and the same lower bound.
pub open spec fn rows_kept_for(a: CompositeLinearPropagator, b: CompositeLinearPropagator) -> bool {
    &&& forall|i: int|
        0 <= i < a.cardinality().rows().len() && (#[trigger] a.cardinality().rows()[i]) is Some ==> {
            &&& i < b.cardinality().rows().len()
            &&& b.cardinality().rows()[i] is Some
            &&& b.cardinality().rows()[i].unwrap().spec_literals().to_multiset()
                == a.cardinality().rows()[i].unwrap().spec_literals().to_multiset()
            &&& b.cardinality().rows()[i].unwrap().spec_bound() == a.cardinality().rows()[i].unwrap().spec_bound()
        }
    &&& forall|i: int|
        0 <= i < a.linear().rows().len() && (#[trigger] a.linear().rows()[i]) is Some ==> {
            &&& i < b.linear().rows().len()
            &&& b.linear().rows()[i] is Some
            &&& b.linear().rows()[i].unwrap().terms() == a.linear().rows()[i].unwrap().terms()
            &&& b.linear().rows()[i].unwrap().bound() == a.linear().rows()[i].unwrap().bound()
        }
}

/// The propagator `after` holds what `CompositeLinearPropagator::add_constraint`
/// stores of the constraint with `terms` and lower bound `bound`, added to
/// `before`: the rows of `before` are kept; unless the lower bound or that
/// of the strengthened constraint (see `strengthened`, over the non-zero
/// terms) is 0, the strengthened constraint stands in the slot that was
/// next free, as a cardinality row when its coefficients are all 1 and as
/// a linear row otherwise.
pub open spec fn constraint_held(
    before: CompositeLinearPropagator,
    after: CompositeLinearPropagator,
    terms: Seq<(Literal, u64)>,
    bound: u64,
) -> bool {
    let strong = strengthened(nonzero_terms(terms), bound);
    &&& rows_kept_for(before, after)
    &&& bound > 0 && strong.1 > 0 && unit_coefficients(strong.0) ==> {
        let i = before.cardinality().next_row_id().spec_index() as int;
        &&& 0 <= i < after.cardinality().rows().len()
        &&& after.cardinality().rows()[i] is Some
        &&& after.cardinality().rows()[i].unwrap().spec_literals().to_multiset() == term_literals(
            strong.0,
        ).to_multiset()
        &&& after.cardinality().rows()[i].unwrap().spec_bound() == strong.1
    }
    &&& bound > 0 && strong.1 > 0 && !unit_coefficients(strong.0) ==> {
        let i = before.linear().next_row_id().spec_index() as int;
        &&& 0 <= i < after.linear().rows().len()
        &&& after.linear().rows()[i] is Some
        &&& after.linear().rows()[i].unwrap().terms().to_multiset() == strong.0.to_multiset()
        &&& after.linear().rows()[i].unwrap().bound() == strong.1
    }
}

/// Keeping the rows twice keeps them.
proof fn lemma_rows_kept_trans(a: CompositeLinearPropagator, b: CompositeLinearPropagator, c: CompositeLinearPropagator)
    requires
        rows_kept_for(a, b),
        rows_kept_for(b, c),
    ensures
        rows_kept_for(a, c),
{
    assert forall|i: int| 0 <= i < a.cardinality().rows().len() && (#[trigger] a.cardinality().rows()[i]) is Some implies {
        &&& i < c.cardinality().rows().len()
        &&& c.cardinality().rows()[i] is Some
        &&& c.cardinality().rows()[i].unwrap().spec_literals().to_multiset()
            == a.cardinality().rows()[i].unwrap().spec_literals().to_multiset()
        &&& c.cardinality().rows()[i].unwrap().spec_bound() == a.cardinality().rows()[i].unwrap().spec_bound()
    } by {
        assert(b.cardinality().rows()[i] is Some);
    }
    assert forall|i: int| 0 <= i < a.linear().rows().len() && (#[trigger] a.linear().rows()[i]) is Some implies {
        &&& i < c.linear().rows().len()
        &&& c.linear().rows()[i] is Some
        &&& c.linear().rows()[i].unwrap().terms() == a.linear().rows()[i].unwrap().terms()
        &&& c.linear().rows()[i].unwrap().bound() == a.linear().rows()[i].unwrap().bound()
    } by {
        assert(b.linear().rows()[i] is Some);
    }
}

/// A held constraint stays held while the rows are kept.
proof fn lemma_constraint_held_kept(
    a: CompositeLinearPropagator,
    b: CompositeLinearPropagator,
    c: CompositeLinearPropagator,
    terms: Seq<(Literal, u64)>,
    bound: u64,
)
    requires
        constraint_held(a, b, terms, bound),
        rows_kept_for(b, c),
    ensures
        constraint_held(a, c, terms, bound),
{
    lemma_rows_kept_trans(a, b, c);
    let strong = strengthened(nonzero_terms(terms), bound);
    if bound > 0 && strong.1 > 0 {
        if unit_coefficients(strong.0) {
            let i = a.cardinality().next_row_id().spec_index() as int;
            assert(b.cardinality().rows()[i] is Some);
        } else {
            let i = a.linear().next_row_id().spec_index() as int;
            assert(b.linear().rows()[i] is Some);
        }
    }
}

/// An explanation given a trail stays one given a longer trail.
proof fn lemma_explains_extension<E>(
    propagator: CompositeLinearPropagator,
    key: CompositeLinearPropagatorExplinKey,
    literal: Literal,
    coefficient: u64,
    trail: Seq<AssertionInfo<E>>,
    longer: Seq<AssertionInfo<E>>,
)
    requires
        explains_with(propagator, key, literal, coefficient, trail),
        trail.len() <= longer.len(),
        longer.take(trail.len() as int) == trail,
    ensures
        explains_with(propagator, key, literal, coefficient, longer),
{
    match key {
        CompositeLinearPropagatorExplinKey::Cardinality(k) => {
            let i = k.spec_row_id().spec_index() as int;
            lemma_count_extension(propagator.cardinality().rows()[i].unwrap().spec_literals(), trail, longer);
        },
        CompositeLinearPropagatorExplinKey::Linear(k) => {
            let i = k.spec_row_id().spec_index() as int;
            lemma_sup_extension(propagator.linear().rows()[i].unwrap().terms(), trail, longer);
        },
    }
}

/// An explanation by the rows of `a` is one by the rows of `b` when `b`
/// keeps them.
proof fn lemma_explains_kept<E>(
    a: CompositeLinearPropagator,
    b: CompositeLinearPropagator,
    key: CompositeLinearPropagatorExplinKey,
    literal: Literal,
    coefficient: u64,
    prefix: Seq<AssertionInfo<E>>,
)
    requires
        explains_with(a, key, literal, coefficient, prefix),
        rows_kept_for(a, b),
    ensures
        explains_with(b, key, literal, coefficient, prefix),
{
    broadcast use vstd::multiset::group_multiset_axioms;

    if let CompositeLinearPropagatorExplinKey::Cardinality(k) = key {
        let i = k.spec_row_id().spec_index() as int;
        let x = a.cardinality().rows()[i].unwrap().spec_literals();
        let y = b.cardinality().rows()[i].unwrap().spec_literals();
        assert(a.cardinality().rows()[i] is Some);
        lemma_count_permutation(x, y, prefix);
        vstd::seq_lib::to_multiset_contains(x, literal);
        vstd::seq_lib::to_multiset_contains(y, literal);
    } else if let CompositeLinearPropagatorExplinKey::Linear(k) = key {
        let i = k.spec_row_id().spec_index() as int;
        assert(a.linear().rows()[i] is Some);
    }
}

/// The queue's explanations survive a longer trail and rows kept.
proof fn lemma_queue_explained<E>(
    queue: ImplicationQueue<CompositeLinearPropagatorExplinKey>,
    a: CompositeLinearPropagator,
    b: CompositeLinearPropagator,
    trail: Seq<AssertionInfo<E>>,
    longer: Seq<AssertionInfo<E>>,
)
    requires
        queue_explained(queue, a, trail),
        rows_kept_for(a, b),
        trail.len() <= longer.len(),
        longer.take(trail.len() as int) == trail,
    ensures
        queue_explained(queue, b, longer),
{
    assert forall|v: usize| #[trigger] queue.propagations().contains_key(v) implies explains_with(
        b,
        queue.propagations()[v].explain_key,
        literal_of(v as nat, queue.propagations()[v].value),
        queue.propagations()[v].normalized_slack.1,
        longer,
    ) by {
        let e = queue.propagations()[v];
        let l = literal_of(v as nat, e.value);
        lemma_explains_extension(a, e.explain_key, l, e.normalized_slack.1, trail, longer);
        lemma_explains_kept(a, b, e.explain_key, l, e.normalized_slack.1, longer);
    }
    assert forall|v: usize| #[trigger] queue.conflict_literals().contains_key(v) implies {
        let e = queue.conflict_literals()[v];
        &&& explains_with(b, e.explain_keys@[0], literal_of(v as nat, false), e.normalized_slacks@[0].1, longer)
        &&& explains_with(b, e.explain_keys@[1], literal_of(v as nat, true), e.normalized_slacks@[1].1, longer)
    } by {
        let e = queue.conflict_literals()[v];
        lemma_explains_extension(a, e.explain_keys@[0], literal_of(v as nat, false), e.normalized_slacks@[0].1, trail, longer);
        lemma_explains_kept(a, b, e.explain_keys@[0], literal_of(v as nat, false), e.normalized_slacks@[0].1, longer);
        lemma_explains_extension(a, e.explain_keys@[1], literal_of(v as nat, true), e.normalized_slacks@[1].1, trail, longer);
        lemma_explains_kept(a, b, e.explain_keys@[1], literal_of(v as nat, true), e.normalized_slacks@[1].1, longer);
    }
}

/// The trail's explanations survive rows kept.
proof fn lemma_trail_kept<O>(
    a: CompositeLinearPropagator,
    b: CompositeLinearPropagator,
    trail: Seq<AssertionInfo<ExplainKey<CompositeLinearPropagatorExplinKey, O>>>,
)
    requires
        trail_explained(a, trail),
        rows_kept_for(a, b),
    ensures
        trail_explained(b, trail),
{
    assert forall|k: int| 0 <= k < trail.len() && (#[trigger] trail[k]).decision_level > 0 implies match trail[k].reason {
        Reason::Implication { explain_key: ExplainKey::Propagator(key) } => explains(
            b,
            key,
            trail[k].predicate.spec_literal(),
            trail.take(k),
        ),
        _ => true,
    } by {
        if let Reason::Implication { explain_key: ExplainKey::Propagator(key) } = trail[k].reason {
            let l = trail[k].predicate.spec_literal();
            let c = choose|c: u64| #[trigger] explains_with(a, key, l, c, trail.take(k));
            lemma_explains_kept(a, b, key, l, c, trail.take(k));
        }
    }
}

/// A trail with its explanations keeps them when extended by an
/// explained implication or by a decision.
proof fn lemma_trail_push<O>(
    propagator: CompositeLinearPropagator,
    trail: Seq<AssertionInfo<ExplainKey<CompositeLinearPropagatorExplinKey, O>>>,
    info: AssertionInfo<ExplainKey<CompositeLinearPropagatorExplinKey, O>>,
)
    requires
        trail_explained(propagator, trail),
        match info.reason {
            Reason::Implication { explain_key: ExplainKey::Propagator(key) } => explains(
                propagator,
                key,
                info.predicate.spec_literal(),
                trail,
            ),
            _ => true,
        },
    ensures
        trail_explained(propagator, trail.push(info)),
{
    let longer = trail.push(info);
    assert forall|k: int| 0 <= k < longer.len() && (#[trigger] longer[k]).decision_level > 0 implies match longer[k].reason {
        Reason::Implication { explain_key: ExplainKey::Propagator(key) } => explains(
            propagator,
            key,
            longer[k].predicate.spec_literal(),
            longer.take(k),
        ),
        _ => true,
    } by {
        if k < trail.len() {
            assert(longer[k] == trail[k]);
            assert(longer.take(k) =~= trail.take(k));
        } else {
            assert(longer.take(k) =~= trail);
        }
    }
}

/// A trail with its explanations keeps them when cut.
proof fn lemma_trail_cut<O>(
    propagator: CompositeLinearPropagator,
    trail: Seq<AssertionInfo<ExplainKey<CompositeLinearPropagatorExplinKey, O>>>,
    m: int,
)
    requires
        trail_explained(propagator, trail),
        0 <= m <= trail.len(),
    ensures
        trail_explained(propagator, trail.subrange(0, m)),
{
    let shorter = trail.subrange(0, m);
    assert forall|k: int| 0 <= k < shorter.len() && (#[trigger] shorter[k]).decision_level > 0 implies match shorter[k].reason {
        Reason::Implication { explain_key: ExplainKey::Propagator(key) } => explains(
            propagator,
            key,
            shorter[k].predicate.spec_literal(),
            shorter.take(k),
        ),
        _ => true,
    } by {
        assert(shorter[k] == trail[k]);
        assert(shorter.take(k) =~= trail.take(k));
    }
}

/// A literal is the literal of its variable and value.
proof fn lemma_literal_of(l: Literal)
    ensures
        literal_of(l.spec_index(), l.spec_value()) == l,
{
    broadcast use Literal::lemma_bits_determine;
    broadcast use Literal::lemma_from_bits_spec;

    let bits = l.spec_bits();
    assert(Literal::pack(l.spec_index(), l.spec_value()) == bits);
    assert(literal_of(l.spec_index(), l.spec_value()).spec_bits() == bits);
}

/// Sound implications of the cardinality propagator imply unassigned
/// literals of its variables.
proof fn lemma_cardinality_events<E>(
    propagator: CardinalityPropagator,
    events: Seq<Implication<CardinalityPropagatorExplainKey>>,
    trail: Seq<AssertionInfo<E>>,
)
    requires
        propagator.wf(),
        forall|m: int| 0 <= m < events.len() ==> sound_in(propagator.rows(), #[trigger] events[m], trail),
    ensures
        forall|m: int|
            0 <= m < events.len() ==> implies_unassigned(
                #[trigger] lift_cardinality(events[m]),
                trail,
                propagator.spec_number_of_variables(),
            ),
{
    assert forall|m: int| 0 <= m < events.len() implies implies_unassigned(
        #[trigger] lift_cardinality(events[m]),
        trail,
        propagator.spec_number_of_variables(),
    ) by {
        assert(sound_in(propagator.rows(), events[m], trail));
        if let Implication::Literal(l, key, _, _) = events[m] {
            let i = key.spec_row_id().spec_index() as int;
            propagator.lemma_row_within(i);
            let literals = propagator.rows()[i].unwrap().spec_literals();
            assert(literals.contains(l));
            let q = choose|q: int| 0 <= q < literals.len() && literals[q] == l;
            assert(literals[q].spec_index() < propagator.spec_number_of_variables());
        }
    }
}

/// Sound implications of the linear propagator imply unassigned literals
/// of its variables.
proof fn lemma_linear_events<E>(
    propagator: LinearPropagator,
    events: Seq<Implication<LinearPropagatorExplainKey>>,
    trail: Seq<AssertionInfo<E>>,
)
    requires
        propagator.wf(),
        forall|m: int| 0 <= m < events.len() ==> linear_sound_in(propagator.rows(), #[trigger] events[m], trail),
    ensures
        forall|m: int|
            0 <= m < events.len() ==> implies_unassigned(
                #[trigger] lift_linear(events[m]),
                trail,
                propagator.spec_number_of_variables(),
            ),
{
    assert forall|m: int| 0 <= m < events.len() implies implies_unassigned(
        #[trigger] lift_linear(events[m]),
        trail,
        propagator.spec_number_of_variables(),
    ) by {
        assert(linear_sound_in(propagator.rows(), events[m], trail));
        if let Implication::Literal(l, key, _, c) = events[m] {
            let i = key.spec_row_id().spec_index() as int;
            propagator.lemma_row_within(i);
            let terms = propagator.rows()[i].unwrap().terms();
            assert(terms.contains((l, c)));
            let q = choose|q: int| 0 <= q < terms.len() && terms[q] == (l, c);
            assert(terms[q].0.spec_index() < propagator.spec_number_of_variables());
        }
    }
}

/// Events of both propagators, each implying an unassigned literal, do so
/// after lifting and concatenation.
proof fn lemma_lifted_events<E>(
    cardinality_events: Seq<Implication<CardinalityPropagatorExplainKey>>,
    linear_events: Seq<Implication<LinearPropagatorExplainKey>>,
    trail: Seq<AssertionInfo<E>>,
    n: nat,
)
    requires
        forall|m: int|
            0 <= m < cardinality_events.len() ==> implies_unassigned(
                #[trigger] lift_cardinality(cardinality_events[m]),
                trail,
                n,
            ),
        forall|m: int|
            0 <= m < linear_events.len() ==> implies_unassigned(#[trigger] lift_linear(linear_events[m]), trail, n),
    ensures
        forall|m: int|
            0 <= m < (lifted_cardinality(cardinality_events) + lifted_linear(linear_events)).len() ==> implies_unassigned(
                #[trigger] (lifted_cardinality(cardinality_events) + lifted_linear(linear_events))[m],
                trail,
                n,
            ),
{
    let all = lifted_cardinality(cardinality_events) + lifted_linear(linear_events);
    let a = lifted_cardinality(cardinality_events);
    assert forall|m: int| 0 <= m < all.len() implies implies_unassigned(#[trigger] all[m], trail, n) by {
        if m < a.len() {
            assert(all[m] == lift_cardinality(cardinality_events[m]));
        } else {
            assert(all[m] == lift_linear(linear_events[m - a.len()]));
        }
    }
}

/// Receiving an implication of an unassigned literal keeps every waiting
/// variable unassigned.
proof fn lemma_receive_keeps<E>(
    before: ImplicationQueue<CompositeLinearPropagatorExplinKey>,
    after: ImplicationQueue<CompositeLinearPropagatorExplinKey>,
    implication: Implication<CompositeLinearPropagatorExplinKey>,
    trail: Seq<AssertionInfo<E>>,
    n: nat,
)
    requires
        waiting_unassigned(before, trail, n),
        implies_unassigned(implication, trail, n),
        match implication {
            Implication::Conflict(_) => after.conflict_literals() == before.conflict_literals()
                && after.propagations() == before.propagations(),
            Implication::Literal(literal, key, slack, coefficient) => received(
                before.conflict_literals(),
                before.propagations(),
                after.conflict_literals(),
                after.propagations(),
                literal,
                key,
                (slack, coefficient),
            ),
        },
    ensures
        waiting_unassigned(after, trail, n),
{
    if let Implication::Literal(literal, key, slack, coefficient) = implication {
        let v = literal.spec_index() as usize;
        assert forall|u: usize| #[trigger] after.propagations().contains_key(u) implies u < n && unassigned(
            trail,
            u as nat,
        ) by {
            if u != v {
                assert(before.propagations().contains_key(u));
            }
        }
        assert forall|u: usize| #[trigger] after.conflict_literals().contains_key(u) implies u < n && unassigned(
            trail,
            u as nat,
        ) by {
            if u != v {
                assert(before.conflict_literals().contains_key(u));
            }
        }
    }
}

/// An implied literal is implied by the constraint behind its key given
/// `trail`, with the implication's coefficient.
pub open spec fn event_explained<E>(
    implication: Implication<CompositeLinearPropagatorExplinKey>,
    propagator: CompositeLinearPropagator,
    trail: Seq<AssertionInfo<E>>,
) -> bool {
    match implication {
        Implication::Conflict(_) => true,
        Implication::Literal(l, key, _, c) => explains_with(propagator, key, l, c, trail),
    }
}

/// Receiving an explained implication keeps the queue's implications
/// explained.
proof fn lemma_receive_explained<E>(
    before: ImplicationQueue<CompositeLinearPropagatorExplinKey>,
    after: ImplicationQueue<CompositeLinearPropagatorExplinKey>,
    implication: Implication<CompositeLinearPropagatorExplinKey>,
    propagator: CompositeLinearPropagator,
    trail: Seq<AssertionInfo<E>>,
)
    requires
        queue_explained(before, propagator, trail),
        event_explained(implication, propagator, trail),
        match implication {
            Implication::Conflict(_) => after.conflict_literals() == before.conflict_literals()
                && after.propagations() == before.propagations(),
            Implication::Literal(literal, key, slack, coefficient) => received(
                before.conflict_literals(),
                before.propagations(),
                after.conflict_literals(),
                after.propagations(),
                literal,
                key,
                (slack, coefficient),
            ),
        },
    ensures
        queue_explained(after, propagator, trail),
{
    if let Implication::Literal(literal, key, slack, coefficient) = implication {
        let v = literal.spec_index() as usize;
        lemma_literal_of(literal);
        assert forall|u: usize| #[trigger] after.propagations().contains_key(u) implies explains_with(
            propagator,
            after.propagations()[u].explain_key,
            literal_of(u as nat, after.propagations()[u].value),
            after.propagations()[u].normalized_slack.1,
            trail,
        ) by {
            if u != v {
                assert(before.propagations().contains_key(u));
                assert(after.propagations()[u] == before.propagations()[u]);
            } else if before.propagations().contains_key(v) && after.propagations()[v] == before.propagations()[v] {
            }
        }
        assert forall|u: usize| #[trigger] after.conflict_literals().contains_key(u) implies {
            let e = after.conflict_literals()[u];
            &&& explains_with(propagator, e.explain_keys@[0], literal_of(u as nat, false), e.normalized_slacks@[0].1, trail)
            &&& explains_with(propagator, e.explain_keys@[1], literal_of(u as nat, true), e.normalized_slacks@[1].1, trail)
        } by {
            if u != v {
                assert(before.conflict_literals().contains_key(u));
                assert(after.conflict_literals()[u] == before.conflict_literals()[u]);
            } else if before.conflict_literals().contains_key(v) {
                let c = before.conflict_literals()[v];
                let e = after.conflict_literals()[v];
                if e != c {
                    if literal.spec_value() {
                        assert(e.explain_keys@[0] == c.explain_keys@[0]);
                        assert(e.normalized_slacks@[0] == c.normalized_slacks@[0]);
                    } else {
                        assert(e.explain_keys@[1] == c.explain_keys@[1]);
                        assert(e.normalized_slacks@[1] == c.normalized_slacks@[1]);
                    }
                }
            } else {
                assert(before.propagations().contains_key(v));
            }
        }
    }
}

/// Sound implications of the cardinality propagator are explained by its
/// rows.
proof fn lemma_cardinality_events_explained<E>(
    propagator: CompositeLinearPropagator,
    events: Seq<Implication<CardinalityPropagatorExplainKey>>,
    trail: Seq<AssertionInfo<E>>,
)
    requires
        forall|m: int| 0 <= m < events.len() ==> sound_in(propagator.cardinality().rows(), #[trigger] events[m], trail),
    ensures
        forall|m: int| 0 <= m < events.len() ==> event_explained(#[trigger] lift_cardinality(events[m]), propagator, trail),
{
    assert forall|m: int| 0 <= m < events.len() implies event_explained(
        #[trigger] lift_cardinality(events[m]),
        propagator,
        trail,
    ) by {
        assert(sound_in(propagator.cardinality().rows(), events[m], trail));
    }
}

/// Sound implications of the linear propagator, which reflects the whole
/// trail, are explained by its rows.
proof fn lemma_linear_events_explained<E>(
    propagator: CompositeLinearPropagator,
    events: Seq<Implication<LinearPropagatorExplainKey>>,
    trail: Seq<AssertionInfo<E>>,
)
    requires
        propagator.linear().reflects(trail),
        propagator.linear().spec_unreflected_order() == trail.len(),
        forall|m: int| 0 <= m < events.len() ==> linear_sound_in(propagator.linear().rows(), #[trigger] events[m], trail),
    ensures
        forall|m: int| 0 <= m < events.len() ==> event_explained(#[trigger] lift_linear(events[m]), propagator, trail),
{
    assert forall|m: int| 0 <= m < events.len() implies event_explained(
        #[trigger] lift_linear(events[m]),
        propagator,
        trail,
    ) by {
        assert(linear_sound_in(propagator.linear().rows(), events[m], trail));
        if let Implication::Literal(l, key, _, c) = events[m] {
            let i = key.spec_row_id().spec_index() as int;
            assert(propagator.linear().rows()[i] is Some);
        }
    }
}

/// Explained events of both propagators stay explained after lifting and
/// concatenation.
proof fn lemma_lifted_explained<E>(
    cardinality_events: Seq<Implication<CardinalityPropagatorExplainKey>>,
    linear_events: Seq<Implication<LinearPropagatorExplainKey>>,
    propagator: CompositeLinearPropagator,
    trail: Seq<AssertionInfo<E>>,
)
    requires
        forall|m: int|
            0 <= m < cardinality_events.len() ==> event_explained(
                #[trigger] lift_cardinality(cardinality_events[m]),
                propagator,
                trail,
            ),
        forall|m: int|
            0 <= m < linear_events.len() ==> event_explained(#[trigger] lift_linear(linear_events[m]), propagator, trail),
    ensures
        forall|m: int|
            0 <= m < (lifted_cardinality(cardinality_events) + lifted_linear(linear_events)).len() ==> event_explained(
                #[trigger] (lifted_cardinality(cardinality_events) + lifted_linear(linear_events))[m],
                propagator,
                trail,
            ),
{
    let all = lifted_cardinality(cardinality_events) + lifted_linear(linear_events);
    let a = lifted_cardinality(cardinality_events);
    assert forall|m: int| 0 <= m < all.len() implies event_explained(#[trigger] all[m], propagator, trail) by {
        if m < a.len() {
            assert(all[m] == lift_cardinality(cardinality_events[m]));
        } else {
            assert(all[m] == lift_linear(linear_events[m - a.len()]));
        }
    }
}

/// A propagator keeps its own rows.
proof fn lemma_rows_kept_refl(propagator: CompositeLinearPropagator)
    ensures
        rows_kept_for(propagator, propagator),
{
}

/// Propagation keeps the rows.
proof fn lemma_propagation_rows_kept<E>(
    a: CompositeLinearPropagator,
    b: CompositeLinearPropagator,
    trail: Seq<AssertionInfo<E>>,
    cardinality_events: Seq<Implication<CardinalityPropagatorExplainKey>>,
    linear_events: Seq<Implication<LinearPropagatorExplainKey>>,
)
    requires
        CardinalityPropagator::propagation_done(a.cardinality(), b.cardinality(), trail, Seq::empty(), cardinality_events),
        LinearPropagator::propagation_done(a.linear(), b.linear(), trail, Seq::empty(), linear_events),
    ensures
        rows_kept_for(a, b),
{
    assert forall|i: int|
        0 <= i < a.cardinality().rows().len() && (#[trigger] a.cardinality().rows()[i]) is Some implies {
        &&& i < b.cardinality().rows().len()
        &&& b.cardinality().rows()[i] is Some
        &&& b.cardinality().rows()[i].unwrap().spec_literals().to_multiset()
            == a.cardinality().rows()[i].unwrap().spec_literals().to_multiset()
        &&& b.cardinality().rows()[i].unwrap().spec_bound() == a.cardinality().rows()[i].unwrap().spec_bound()
    } by {
        assert(b.cardinality().rows()[i] is Some);
    }
    assert forall|i: int| 0 <= i < a.linear().rows().len() && (#[trigger] a.linear().rows()[i]) is Some implies {
        &&& i < b.linear().rows().len()
        &&& b.linear().rows()[i] is Some
        &&& b.linear().rows()[i].unwrap().terms() == a.linear().rows()[i].unwrap().terms()
        &&& b.linear().rows()[i].unwrap().bound() == a.linear().rows()[i].unwrap().bound()
    } by {
        assert(b.linear().rows()[i] is Some);
    }
}

/// Popping an implication keeps the rest explained.
proof fn lemma_queue_explained_sub<E>(
    queue: ImplicationQueue<CompositeLinearPropagatorExplinKey>,
    rest: ImplicationQueue<CompositeLinearPropagatorExplinKey>,
    propagator: CompositeLinearPropagator,
    trail: Seq<AssertionInfo<E>>,
)
    requires
        queue_explained(queue, propagator, trail),
        forall|u: usize| #[trigger]
            rest.propagations().contains_key(u) ==> queue.propagations().contains_key(u)
                && rest.propagations()[u] == queue.propagations()[u],
        forall|u: usize| #[trigger]
            rest.conflict_literals().contains_key(u) ==> queue.conflict_literals().contains_key(u)
                && rest.conflict_literals()[u] == queue.conflict_literals()[u],
    ensures
        queue_explained(rest, propagator, trail),
{
}

/// The queue `after` is `before` once it has received `implication` (see
/// `ImplicationQueue::receive`).
pub open spec fn received_one<K: Copy>(before: ImplicationQueue<K>, after: ImplicationQueue<K>, implication: Implication<K>) -> bool {
    match implication {
        Implication::Conflict(key) => {
            &&& after.conflict_constraints() == before.conflict_constraints().push(key)
            &&& after.conflict_literals() == before.conflict_literals()
            &&& after.propagations() == before.propagations()
        },
        Implication::Literal(literal, key, slack, coefficient) => {
            &&& after.conflict_constraints() == before.conflict_constraints()
            &&& received(
                before.conflict_literals(),
                before.propagations(),
                after.conflict_literals(),
                after.propagations(),
                literal,
                key,
                (slack, coefficient),
            )
        },
    }
}

/// The queues `queues` lead from `before` to `after`, each one the one
/// before it once it has received the next of `events`.
pub open spec fn steps_through<K: Copy>(
    queues: Seq<ImplicationQueue<K>>,
    before: ImplicationQueue<K>,
    after: ImplicationQueue<K>,
    events: Seq<Implication<K>>,
) -> bool {
    &&& queues.len() == events.len() + 1
    &&& queues[0] == before
    &&& queues.last() == after
    &&& forall|i: int| 0 <= i < events.len() ==> received_one(queues[i], queues[i + 1], #[trigger] events[i])
}

/// The queue `after` is `before` once it has received `events`, one after
/// the other.
pub open spec fn received_in_order<K: Copy>(
    before: ImplicationQueue<K>,
    after: ImplicationQueue<K>,
    events: Seq<Implication<K>>,
) -> bool {
    exists|queues: Seq<ImplicationQueue<K>>| #[trigger] steps_through(queues, before, after, events)
}

/// The views of two queues agree.
pub open spec fn same_queue<K: Copy>(a: ImplicationQueue<K>, b: ImplicationQueue<K>) -> bool {
    &&& a.conflict_constraints() == b.conflict_constraints()
    &&& a.conflict_literals() == b.conflict_literals()
    &&& a.propagations() == b.propagations()
}

/// The propagators went from `p0` to `p1` reflecting every assertion of
/// `trail` and reporting `cardinality_events` and `linear_events` (see
/// `CompositeLinearPropagator::propagate`).
pub open spec fn reported<E>(
    p0: CompositeLinearPropagator,
    p1: CompositeLinearPropagator,
    trail: Seq<AssertionInfo<E>>,
    cardinality_events: Seq<Implication<CardinalityPropagatorExplainKey>>,
    linear_events: Seq<Implication<LinearPropagatorExplainKey>>,
) -> bool {
    &&& CardinalityPropagator::propagation_done(p0.cardinality(), p1.cardinality(), trail, Seq::empty(), cardinality_events)
    &&& LinearPropagator::propagation_done(p0.linear(), p1.linear(), trail, Seq::empty(), linear_events)
}

/// One round of propagation over `trail`: the propagators go from `p0` to
/// `p1`, reporting what they find, and the queue goes from `q0` to `q1` by
/// receiving every report, in order.
pub open spec fn propagation_round<E>(
    p0: CompositeLinearPropagator,
    p1: CompositeLinearPropagator,
    trail: Seq<AssertionInfo<E>>,
    q0: ImplicationQueue<CompositeLinearPropagatorExplinKey>,
    q1: ImplicationQueue<CompositeLinearPropagatorExplinKey>,
) -> bool {
    exists|e1: Seq<Implication<CardinalityPropagatorExplainKey>>, e2: Seq<Implication<LinearPropagatorExplainKey>>|
        #[trigger] reported(p0, p1, trail, e1, e2) && received_in_order(
            q0,
            q1,
            lifted_cardinality(e1) + lifted_linear(e2),
        )
}

/// With no conflict waiting in `q`, the least waiting implication was taken
/// out of it, giving `q_next`, and asserted after `trail`, giving
/// `trail_next`.
pub open spec fn popped_into<O>(
    q: ImplicationQueue<CompositeLinearPropagatorExplinKey>,
    q_next: ImplicationQueue<CompositeLinearPropagatorExplinKey>,
    trail: Seq<AssertionInfo<ExplainKey<CompositeLinearPropagatorExplinKey, O>>>,
    trail_next: Seq<AssertionInfo<ExplainKey<CompositeLinearPropagatorExplinKey, O>>>,
) -> bool {
    &&& q.conflict_constraints().len() == 0
    &&& q.conflict_literals().len() == 0
    &&& q_next.conflict_constraints() == q.conflict_constraints()
    &&& q_next.conflict_literals() == q.conflict_literals()
    &&& exists|v: usize|
        #[trigger] is_least_propagation(q.propagations(), v, q.propagations()[v]) && {
            let e = q.propagations()[v];
            &&& q_next.propagations() == q.propagations().remove(v)
            &&& trail_next.len() == trail.len() + 1
            &&& trail_next.take(trail.len() as int) == trail
            &&& trail_next.last().predicate.spec_literal().spec_index() == v
            &&& trail_next.last().predicate.spec_literal().spec_value() == e.value
            &&& trail_next.last().reason == Reason::Implication { explain_key: ExplainKey::<CompositeLinearPropagatorExplinKey, O>::Propagator(e.explain_key) }
        }
}

/// Rounds of propagation, round `k` over `trails[k]` taking the propagators
/// from `propagators[k]` to `propagators[k + 1]` and the queue from
/// `queues[k]` to `receiveds[k]`; between rounds the least waiting
/// implication is asserted; the last round leaves a conflict waiting or
/// nothing to assert.
pub open spec fn propagation_run<O>(
    trails: Seq<Seq<AssertionInfo<ExplainKey<CompositeLinearPropagatorExplinKey, O>>>>,
    propagators: Seq<CompositeLinearPropagator>,
    queues: Seq<ImplicationQueue<CompositeLinearPropagatorExplinKey>>,
    receiveds: Seq<ImplicationQueue<CompositeLinearPropagatorExplinKey>>,
) -> bool {
    &&& trails.len() > 0
    &&& queues.len() == trails.len()
    &&& receiveds.len() == trails.len()
    &&& propagators.len() == trails.len() + 1
    &&& forall|k: int|
        0 <= k < trails.len() ==> propagation_round(
            propagators[k],
            propagators[k + 1],
            #[trigger] trails[k],
            queues[k],
            receiveds[k],
        )
    &&& forall|k: int|
        0 <= k < trails.len() - 1 ==> popped_into(#[trigger] receiveds[k], queues[k + 1], trails[k], trails[k + 1])
    &&& settled(receiveds.last())
}

/// Propagation to a fixed point (see `propagation_run`) leads from
/// assertions `trail0`, propagators `p0` and queue `q0` to `trail1`, `p1`
/// and `q1`.
pub open spec fn propagated_from<O>(
    trail0: Seq<AssertionInfo<ExplainKey<CompositeLinearPropagatorExplinKey, O>>>,
    p0: CompositeLinearPropagator,
    q0: ImplicationQueue<CompositeLinearPropagatorExplinKey>,
    trail1: Seq<AssertionInfo<ExplainKey<CompositeLinearPropagatorExplinKey, O>>>,
    p1: CompositeLinearPropagator,
    q1: ImplicationQueue<CompositeLinearPropagatorExplinKey>,
) -> bool {
    exists|
        trails: Seq<Seq<AssertionInfo<ExplainKey<CompositeLinearPropagatorExplinKey, O>>>>,
        propagators: Seq<CompositeLinearPropagator>,
        queues: Seq<ImplicationQueue<CompositeLinearPropagatorExplinKey>>,
        receiveds: Seq<ImplicationQueue<CompositeLinearPropagatorExplinKey>>,
    |
        #[trigger] propagation_run(trails, propagators, queues, receiveds) && trails[0] == trail0 && propagators[0]
            == p0 && queues[0] == q0 && trails.last() == trail1 && propagators.last() == p1 && same_queue(
            receiveds.last(),
            q1,
        )
}

/// What `CompositeLinearPropagator::add_constraint` does with the
/// constraint with `terms` and lower bound `bound` over `trail`, taking the
/// propagators from `before` to `after` and reporting `events`: nothing
/// when the lower bound or that of the strengthened constraint is 0;
/// otherwise it adds the strengthened constraint to the cardinality
/// propagator when its coefficients are all 1, to the linear one when not.
pub open spec fn added_reporting<E>(
    before: CompositeLinearPropagator,
    after: CompositeLinearPropagator,
    terms: Seq<(Literal, u64)>,
    bound: u64,
    is_learnt: bool,
    trail: Seq<AssertionInfo<E>>,
    events: Seq<Implication<CompositeLinearPropagatorExplinKey>>,
) -> bool {
    let strong = strengthened(nonzero_terms(terms), bound);
    if bound == 0 || strong.1 == 0 {
        &&& after.cardinality() == before.cardinality()
        &&& after.linear() == before.linear()
        &&& events == Seq::<Implication<CompositeLinearPropagatorExplinKey>>::empty()
    } else if unit_coefficients(strong.0) {
        &&& after.linear() == before.linear()
        &&& exists|e: Seq<Implication<CardinalityPropagatorExplainKey>>|
            {
                &&& #[trigger] CardinalityPropagator::constraint_added(
                    before.cardinality(),
                    after.cardinality(),
                    strong.0,
                    strong.1,
                    is_learnt,
                    trail,
                    Seq::empty(),
                    e,
                )
                &&& events == lifted_cardinality(e)
            }
    } else {
        &&& after.cardinality() == before.cardinality()
        &&& exists|e: Seq<Implication<LinearPropagatorExplainKey>>|
            {
                &&& #[trigger] LinearPropagator::constraint_added(
                    before.linear(),
                    after.linear(),
                    strong.0,
                    strong.1,
                    is_learnt,
                    trail,
                    Seq::empty(),
                    e,
                )
                &&& events == lifted_linear(e)
            }
    }
}

/// The constraint was added, taking the propagators from `p0` to `p1` (see
/// `added_reporting`), and the queue went from `q0` to `q1` by receiving
/// what the new row reported, in order.
pub open spec fn added_and_received<E>(
    p0: CompositeLinearPropagator,
    p1: CompositeLinearPropagator,
    q0: ImplicationQueue<CompositeLinearPropagatorExplinKey>,
    q1: ImplicationQueue<CompositeLinearPropagatorExplinKey>,
    terms: Seq<(Literal, u64)>,
    bound: u64,
    is_learnt: bool,
    trail: Seq<AssertionInfo<E>>,
) -> bool {
    exists|events: Seq<Implication<CompositeLinearPropagatorExplinKey>>|
        #[trigger] added_reporting(p0, p1, terms, bound, is_learnt, trail, events) && received_in_order(q0, q1, events)
}

/// The propagators went from `before` to `after` by reducing their learnt
/// rows over `trail` (see `CompositeLinearPropagator::reduce_learnt_constraints`).
pub open spec fn learnt_reduced_in<E>(
    before: CompositeLinearPropagator,
    after: CompositeLinearPropagator,
    trail: Seq<AssertionInfo<E>>,
) -> bool {
    &&& if before.cardinality().spec_reduction_count() < usize::MAX {
        CardinalityPropagator::learnt_reduced(before.cardinality(), after.cardinality(), trail)
    } else {
        after.cardinality() == before.cardinality()
    }
    &&& if before.linear().spec_reduction_count() < usize::MAX {
        LinearPropagator::learnt_reduced(before.linear(), after.linear(), trail)
    } else {
        after.linear() == before.linear()
    }
}

/// Hands every event to the queue, in order.
fn receive_all<E>(
    queue: &mut ImplicationQueue<CompositeLinearPropagatorExplinKey>,
    events: &Vec<Implication<CompositeLinearPropagatorExplinKey>>,
    Ghost(trail): Ghost<Seq<AssertionInfo<E>>>,
    Ghost(n): Ghost<nat>,
    Ghost(propagator): Ghost<CompositeLinearPropagator>,
)
    requires
        old(queue).wf(),
        waiting_unassigned(*old(queue), trail, n),
        queue_explained(*old(queue), propagator, trail),
        n + 2 < usize::MAX / 2,
        forall|m: int| 0 <= m < events@.len() ==> implies_unassigned(#[trigger] events@[m], trail, n),
        forall|m: int| 0 <= m < events@.len() ==> event_explained(#[trigger] events@[m], propagator, trail),
    ensures
        final(queue).wf(),
        waiting_unassigned(*final(queue), trail, n),
        queue_explained(*final(queue), propagator, trail),
        received_in_order(*old(queue), *final(queue), events@),
{
    let mut k: usize = 0;
    let ghost mut queues = seq![*queue];
    while k < events.len()
        invariant
            k <= events@.len(),
            queue.wf(),
            waiting_unassigned(*queue, trail, n),
            queue_explained(*queue, propagator, trail),
            n + 2 < usize::MAX / 2,
            forall|m: int| 0 <= m < events@.len() ==> implies_unassigned(#[trigger] events@[m], trail, n),
            forall|m: int| 0 <= m < events@.len() ==> event_explained(#[trigger] events@[m], propagator, trail),
            steps_through(queues, *old(queue), *queue, events@.take(k as int)),
        decreases events@.len() - k,
    {
        proof {
            lemma_queue_len(*queue, trail, n);
        }
        let ghost before = *queue;
        queue.receive(events[k]);
        proof {
            lemma_receive_keeps(before, *queue, events@[k as int], trail, n);
            lemma_receive_explained(before, *queue, events@[k as int], propagator, trail);
            let done = events@.take(k as int + 1);
            let longer = queues.push(*queue);
            assert forall|i: int| 0 <= i < done.len() implies received_one(longer[i], longer[i + 1], #[trigger] done[i]) by {
                if i < k {
                    assert(done[i] == events@.take(k as int)[i]);
                }
            }
            queues = longer;
        }
        k = k + 1;
    }
    proof {
        assert(events@.take(events@.len() as int) =~= events@);
        assert(steps_through(queues, *old(queue), *queue, events@));
    }
}


/// The implications a new cardinality row finds right away imply
/// unassigned literals of the propagator's variables and are explained by
/// the new row; the other rows are kept.
proof fn lemma_cardinality_added<E: Copy>(
    a: CompositeLinearPropagator,
    b: CompositeLinearPropagator,
    terms: Seq<(Literal, u64)>,
    bound: u64,
    is_learnt: bool,
    state: AssertionStack<E>,
    events: Seq<Implication<CardinalityPropagatorExplainKey>>,
)
    requires
        state.wf(),
        bound > 0,
        a.cardinality().wf(),
        b.linear() == a.linear(),
        CardinalityPropagator::constraint_added(
            a.cardinality(),
            b.cardinality(),
            terms,
            bound,
            is_learnt,
            state.trail(),
            Seq::empty(),
            events,
        ),
    ensures
        forall|m: int|
            0 <= m < events.len() ==> implies_unassigned(
                #[trigger] lift_cardinality(events[m]),
                state.trail(),
                b.cardinality().spec_number_of_variables(),
            ),
        forall|m: int| 0 <= m < events.len() ==> event_explained(#[trigger] lift_cardinality(events[m]), b, state.trail()),
        rows_kept_for(a, b),
{
    let before = a.cardinality();
    let after = b.cardinality();
    let trail = state.trail();
    let id = before.next_row_id();
    let i = id.spec_index() as int;
    let row = after.rows()[i].unwrap();
    let key = CardinalityPropagatorExplainKey::of(id);
    CardinalityPropagatorExplainKey::lemma_of(id);
    lemma_consistent(state);
    lemma_initial_implications_sound(row.spec_literals(), bound as int, key, trail);
    before.lemma_next_row_free();
    after.lemma_row_within(i);
    assert(events =~= crate::cardinality_propagator::initial_implications(row.spec_literals(), bound as int, key, trail));
    assert forall|m: int| 0 <= m < events.len() implies implies_unassigned(
        #[trigger] lift_cardinality(events[m]),
        trail,
        after.spec_number_of_variables(),
    ) && event_explained(lift_cardinality(events[m]), b, trail) by {
        if let Implication::Literal(l, _, _, _) = events[m] {
            let literals = row.spec_literals();
            assert(literals.contains(l));
            let q = choose|q: int| 0 <= q < literals.len() && literals[q] == l;
            assert(literals[q].spec_index() < after.spec_number_of_variables());
        }
    }
    assert forall|j: int|
        0 <= j < a.cardinality().rows().len() && (#[trigger] a.cardinality().rows()[j]) is Some implies {
        &&& j < b.cardinality().rows().len()
        &&& b.cardinality().rows()[j] is Some
        &&& b.cardinality().rows()[j].unwrap().spec_literals().to_multiset()
            == a.cardinality().rows()[j].unwrap().spec_literals().to_multiset()
        &&& b.cardinality().rows()[j].unwrap().spec_bound() == a.cardinality().rows()[j].unwrap().spec_bound()
    } by {
        assert(j != i);
        assert(b.cardinality().rows()[j] == a.cardinality().rows()[j]);
    }
}

/// The implications a new linear row finds right away imply unassigned
/// literals of the propagator's variables and are explained by the new
/// row; the other rows are kept.
proof fn lemma_linear_added<E>(
    a: CompositeLinearPropagator,
    b: CompositeLinearPropagator,
    terms: Seq<(Literal, u64)>,
    bound: u64,
    is_learnt: bool,
    trail: Seq<AssertionInfo<E>>,
    events: Seq<Implication<LinearPropagatorExplainKey>>,
)
    requires
        bound > 0,
        a.linear().wf(),
        b.cardinality() == a.cardinality(),
        LinearPropagator::constraint_added(a.linear(), b.linear(), terms, bound, is_learnt, trail, Seq::empty(), events),
    ensures
        forall|m: int|
            0 <= m < events.len() ==> implies_unassigned(
                #[trigger] lift_linear(events[m]),
                trail,
                b.linear().spec_number_of_variables(),
            ),
        forall|m: int| 0 <= m < events.len() ==> event_explained(#[trigger] lift_linear(events[m]), b, trail),
        rows_kept_for(a, b),
{
    let before = a.linear();
    let after = b.linear();
    let id = before.next_row_id();
    let i = id.spec_index() as int;
    let row = after.rows()[i].unwrap();
    let key = LinearPropagatorExplainKey::of(id);
    LinearPropagatorExplainKey::lemma_of(id);
    before.lemma_next_row_free();
    after.lemma_row_within(i);
    lemma_fresh_confirmed_sound(row, key, trail);
    assert(events =~= row.fresh(trail).confirmed_implications(key, trail));
    assert forall|m: int| 0 <= m < events.len() implies implies_unassigned(
        #[trigger] lift_linear(events[m]),
        trail,
        after.spec_number_of_variables(),
    ) && event_explained(lift_linear(events[m]), b, trail) by {
        if let Implication::Literal(l, _, _, c) = events[m] {
            let terms = row.terms();
            assert(terms.contains((l, c)));
            let q = choose|q: int| 0 <= q < terms.len() && terms[q] == (l, c);
            assert(terms[q].0.spec_index() < after.spec_number_of_variables());
        }
    }
    assert forall|j: int| 0 <= j < a.linear().rows().len() && (#[trigger] a.linear().rows()[j]) is Some implies {
        &&& j < b.linear().rows().len()
        &&& b.linear().rows()[j] is Some
        &&& b.linear().rows()[j].unwrap().terms() == a.linear().rows()[j].unwrap().terms()
        &&& b.linear().rows()[j].unwrap().bound() == a.linear().rows()[j].unwrap().bound()
    } by {
        assert(j != i);
        assert(b.linear().rows()[j] == a.linear().rows()[j]);
    }
}

/// The assertions after `start` are implications of the propagator.
pub open spec fn implied_after<O>(
    trail: Seq<AssertionInfo<ExplainKey<CompositeLinearPropagatorExplinKey, O>>>,
    start: int,
) -> bool {
    forall|k: int| start <= k < trail.len() ==> (#[trigger] trail[k]).reason matches Reason::Implication {
        explain_key: ExplainKey::Propagator(_),
    }
}

/// The queue holds a conflict, or nothing.
pub open spec fn settled<K: Copy>(queue: ImplicationQueue<K>) -> bool {
    ||| queue.conflict_constraints().len() > 0
    ||| queue.conflict_literals().len() > 0
    ||| queue.propagations().len() == 0
}

/// The assertions, a propagator of linear constraints and the implications
/// waiting to be asserted.
pub struct Engine<OuterExplainKeyT> {
    assertion_stack: AssertionStack<ExplainKey<CompositeLinearPropagatorExplinKey, OuterExplainKeyT>>,
    implication_queue: ImplicationQueue<CompositeLinearPropagatorExplinKey>,
    propagator: CompositeLinearPropagator,
}

impl<OuterExplainKeyT: Copy> Engine<OuterExplainKeyT> {
    /// The assertions.
    pub closed spec fn state(&self) -> AssertionStack<ExplainKey<CompositeLinearPropagatorExplinKey, OuterExplainKeyT>> {
        self.assertion_stack
    }

    /// The implications waiting to be asserted.
    pub closed spec fn queue(&self) -> ImplicationQueue<CompositeLinearPropagatorExplinKey> {
        self.implication_queue
    }

    /// The propagator.
    pub closed spec fn propagator(&self) -> CompositeLinearPropagator {
        self.propagator
    }

    /// The parts are well formed and agree: the propagator is over the
    /// variables of the assertions and has reflected every assertion; only
    /// unassigned variables wait in the queue; and every implication, in
    /// the queue or asserted, is implied by the constraint behind its key.
    pub open spec fn wf(&self) -> bool {
        let trail = self.state().trail();
        let n = self.state().spec_number_of_variables();
        &&& self.state().wf()
        &&& self.propagator().wf()
        &&& self.propagator().cardinality().spec_number_of_variables() == n
        &&& self.propagator().cardinality().spec_unreflected_order() == trail.len()
        &&& self.propagator().linear().spec_unreflected_order() == trail.len()
        &&& self.propagator().linear().reflects(trail)
        &&& self.queue().wf()
        &&& waiting_unassigned(self.queue(), trail, n)
        &&& queue_explained(self.queue(), self.propagator(), trail)
        &&& trail_explained(self.propagator(), trail)
        &&& n + 2 < usize::MAX / 2
    }

    /// Propagates to a fixed point: hands the propagator's implications to
    /// the queue and asserts the one of least normalized slack, until a
    /// conflict waits or nothing does.
    #[verifier::rlimit(80)]
    #[verifier::spinoff_prover]
    fn propagate(&mut self)
        requires
            old(self).state().wf(),
            old(self).propagator().wf(),
            old(self).propagator().cardinality().spec_number_of_variables() == old(
                self,
            ).state().spec_number_of_variables(),
            old(self).propagator().cardinality().spec_unreflected_order() <= old(self).state().trail().len(),
            old(self).propagator().linear().reflects(old(self).state().trail()),
            old(self).queue().wf(),
            waiting_unassigned(old(self).queue(), old(self).state().trail(), old(self).state().spec_number_of_variables()),
            queue_explained(old(self).queue(), old(self).propagator(), old(self).state().trail()),
            trail_explained(old(self).propagator(), old(self).state().trail()),
            old(self).state().spec_number_of_variables() + 2 < usize::MAX / 2,
        ensures
            final(self).wf(),
            settled(final(self).queue()),
            final(self).state().spec_number_of_variables() == old(self).state().spec_number_of_variables(),
            final(self).state().decisions() == old(self).state().decisions(),
            old(self).state().trail().len() <= final(self).state().trail().len(),
            final(self).state().trail().take(old(self).state().trail().len() as int) == old(self).state().trail(),
            implied_after(final(self).state().trail(), old(self).state().trail().len() as int),
            rows_kept_for(old(self).propagator(), final(self).propagator()),
            propagated_from(
                old(self).state().trail(),
                old(self).propagator(),
                old(self).queue(),
                final(self).state().trail(),
                final(self).propagator(),
                final(self).queue(),
            ),
    {
        let ghost n = self.assertion_stack.spec_number_of_variables();
        let ghost start = self.assertion_stack.trail();
        proof {
            assert(start.take(start.len() as int) =~= start);
            lemma_rows_kept_refl(self.propagator);
        }
        let ghost mut trails = seq![start];
        let ghost mut propagators = seq![self.propagator];
        let ghost mut queues = seq![self.implication_queue];
        let ghost mut receiveds = Seq::<ImplicationQueue<CompositeLinearPropagatorExplinKey>>::empty();
        loop
            invariant_except_break
                self.assertion_stack.wf(),
                self.propagator.wf(),
                self.propagator.cardinality().spec_number_of_variables() == n,
                self.assertion_stack.spec_number_of_variables() == n,
                self.propagator.cardinality().spec_unreflected_order() <= self.assertion_stack.trail().len(),
                self.propagator.linear().reflects(self.assertion_stack.trail()),
                self.implication_queue.wf(),
                waiting_unassigned(self.implication_queue, self.assertion_stack.trail(), n),
                queue_explained(self.implication_queue, self.propagator, self.assertion_stack.trail()),
                trail_explained(self.propagator, self.assertion_stack.trail()),
                n + 2 < usize::MAX / 2,
                self.assertion_stack.decisions() == old(self).state().decisions(),
                start.len() <= self.assertion_stack.trail().len(),
                self.assertion_stack.trail().take(start.len() as int) == start,
                implied_after(self.assertion_stack.trail(), start.len() as int),
                rows_kept_for(old(self).propagator(), self.propagator),
                trails.len() > 0,
                queues.len() == trails.len(),
                propagators.len() == trails.len(),
                receiveds.len() + 1 == trails.len(),
                trails[0] == start,
                propagators[0] == old(self).propagator(),
                queues[0] == old(self).queue(),
                trails.last() == self.assertion_stack.trail(),
                propagators.last() == self.propagator,
                queues.last() == self.implication_queue,
                forall|k: int|
                    0 <= k < receiveds.len() ==> propagation_round(
                        propagators[k],
                        propagators[k + 1],
                        #[trigger] trails[k],
                        queues[k],
                        receiveds[k],
                    ),
                forall|k: int|
                    0 <= k < receiveds.len() ==> popped_into(
                        #[trigger] receiveds[k],
                        queues[k + 1],
                        trails[k],
                        trails[k + 1],
                    ),
            ensures
                self.wf(),
                settled(self.implication_queue),
                self.assertion_stack.spec_number_of_variables() == n,
                self.assertion_stack.decisions() == old(self).state().decisions(),
                start.len() <= self.assertion_stack.trail().len(),
                self.assertion_stack.trail().take(start.len() as int) == start,
                implied_after(self.assertion_stack.trail(), start.len() as int),
                rows_kept_for(old(self).propagator(), self.propagator),
                propagated_from(
                    start,
                    old(self).propagator(),
                    old(self).queue(),
                    self.assertion_stack.trail(),
                    self.propagator,
                    self.implication_queue,
                ),
            decreases n - self.assertion_stack.trail().len(),
        {
            let ghost trail = self.assertion_stack.trail();
            proof {
                lemma_trail_len(self.assertion_stack);
            }
            let mut events: Vec<Implication<CompositeLinearPropagatorExplinKey>> = Vec::new();
            let ghost before = self.propagator;
            self.propagator.propagate(&self.assertion_stack, &mut events);
            proof {
                let (e1, e2) = choose|
                    e1: Seq<Implication<CardinalityPropagatorExplainKey>>,
                    e2: Seq<Implication<LinearPropagatorExplainKey>>,
                | {
                    &&& CardinalityPropagator::propagation_done(
                        before.cardinality(),
                        self.propagator.cardinality(),
                        trail,
                        Seq::empty(),
                        e1,
                    )
                    &&& LinearPropagator::propagation_done(
                        before.linear(),
                        self.propagator.linear(),
                        trail,
                        Seq::empty(),
                        e2,
                    )
                    &&& events@ == Seq::<Implication<CompositeLinearPropagatorExplinKey>>::empty() + lifted_cardinality(e1)
                        + lifted_linear(e2)
                };
                lemma_cardinality_events(self.propagator.cardinality(), e1, trail);
                lemma_linear_events(self.propagator.linear(), e2, trail);
                lemma_lifted_events(e1, e2, trail, n);
                lemma_cardinality_events_explained(self.propagator, e1, trail);
                lemma_linear_events_explained(self.propagator, e2, trail);
                lemma_lifted_explained(e1, e2, self.propagator, trail);
                assert(events@ =~= lifted_cardinality(e1) + lifted_linear(e2));
                lemma_propagation_rows_kept(before, self.propagator, trail, e1, e2);
                lemma_rows_kept_trans(old(self).propagator(), before, self.propagator);
                assert(trail.take(trail.len() as int) =~= trail);
                lemma_queue_explained(self.implication_queue, before, self.propagator, trail, trail);
                lemma_trail_kept(before, self.propagator, trail);
            }
            let ghost queue0 = self.implication_queue;
            receive_all::<ExplainKey<CompositeLinearPropagatorExplinKey, OuterExplainKeyT>>(
                &mut self.implication_queue,
                &events,
                Ghost(trail),
                Ghost(n),
                Ghost(self.propagator),
            );
            proof {
                let (e1, e2) = choose|
                    e1: Seq<Implication<CardinalityPropagatorExplainKey>>,
                    e2: Seq<Implication<LinearPropagatorExplainKey>>,
                | {
                    &&& CardinalityPropagator::propagation_done(
                        before.cardinality(),
                        self.propagator.cardinality(),
                        trail,
                        Seq::empty(),
                        e1,
                    )
                    &&& LinearPropagator::propagation_done(
                        before.linear(),
                        self.propagator.linear(),
                        trail,
                        Seq::empty(),
                        e2,
                    )
                    &&& events@ == Seq::<Implication<CompositeLinearPropagatorExplinKey>>::empty() + lifted_cardinality(e1)
                        + lifted_linear(e2)
                };
                assert(events@ =~= lifted_cardinality(e1) + lifted_linear(e2));
                assert(reported(before, self.propagator, trail, e1, e2));
                assert(propagation_round(before, self.propagator, trail, queue0, self.implication_queue));
                let k = receiveds.len() as int;
                assert(trails[k] == trail);
                propagators = propagators.push(self.propagator);
                receiveds = receiveds.push(self.implication_queue);
                assert forall|j: int|
                    0 <= j < receiveds.len() implies propagation_round(
                    propagators[j],
                    propagators[j + 1],
                    #[trigger] trails[j],
                    queues[j],
                    receiveds[j],
                ) by {
                    if j < k {
                        assert(propagators[j] == propagators.drop_last()[j]);
                    }
                }
            }
            if self.implication_queue.get_conflict().is_some() {
                proof {
                    assert(propagation_run(trails, propagators, queues, receiveds));
                }
                break;
            }
            let ghost queue = self.implication_queue;
            match self.implication_queue.pop_propagation() {
                Some((predicate, key)) => {
                    let ghost v = predicate.spec_literal().spec_index();
                    let ghost entry = queue.propagations()[v as usize];
                    proof {
                        assert(queue.propagations().contains_key(v as usize));
                        lemma_literal_of(predicate.spec_literal());
                        assert(explains_with(
                            self.propagator,
                            key,
                            predicate.spec_literal(),
                            entry.normalized_slack.1,
                            trail,
                        ));
                    }
                    self.assertion_stack.assert_predicate(
                        predicate,
                        Reason::Implication { explain_key: ExplainKey::Propagator(key) },
                    );
                    proof {
                        let after = self.assertion_stack.trail();
                        lemma_trail_len(self.assertion_stack);
                        assert(after.take(trail.len() as int) =~= trail);
                        assert(trail.take(trail.len() as int) =~= trail);
                        assert(self.propagator.linear().spec_unreflected_order() == trail.len());
                        self.propagator.linear().lemma_reflects_prefix(trail, after);
                        assert(after[trail.len() as int].predicate == predicate);
                        assert forall|u: usize| #[trigger] self.implication_queue.propagations().contains_key(u) implies u
                            < n && unassigned(after, u as nat) by {
                            assert(queue.propagations().contains_key(u));
                            assert(u != v as usize);
                            assert forall|k: int| !assigned_at(after, u as nat, k) by {
                                if 0 <= k < trail.len() {
                                    assert(after[k] == trail[k]);
                                    assert(!assigned_at(trail, u as nat, k));
                                } else if k == trail.len() {
                                    assert(after[k].predicate.spec_literal().spec_index() == v);
                                }
                            }
                        }
                        assert forall|u: usize| #[trigger] self.implication_queue.conflict_literals().contains_key(u) implies u
                            < n && unassigned(after, u as nat) by {
                            assert(queue.conflict_literals().contains_key(u));
                            queue.lemma_disjoint(u);
                            assert(u != v as usize);
                            assert forall|k: int| !assigned_at(after, u as nat, k) by {
                                if 0 <= k < trail.len() {
                                    assert(after[k] == trail[k]);
                                    assert(!assigned_at(trail, u as nat, k));
                                } else if k == trail.len() {
                                    assert(after[k].predicate.spec_literal().spec_index() == v);
                                }
                            }
                        }
                        assert(after.take(start.len() as int) =~= trail.take(start.len() as int));
                        lemma_trail_push(self.propagator, trail, after[trail.len() as int]);
                        assert(after =~= trail.push(after[trail.len() as int]));
                        lemma_queue_explained_sub(queue, self.implication_queue, self.propagator, trail);
                        lemma_rows_kept_refl(self.propagator);
                        lemma_queue_explained(self.implication_queue, self.propagator, self.propagator, trail, after);
                        let k = receiveds.len() - 1;
                        assert(is_least_propagation(queue.propagations(), v as usize, queue.propagations()[v as usize]));
                        assert(after.take(trail.len() as int) =~= trail);
                        assert(popped_into(receiveds[k], self.implication_queue, trail, after));
                        trails = trails.push(after);
                        queues = queues.push(self.implication_queue);
                        assert forall|j: int|
                            0 <= j < receiveds.len() implies popped_into(
                            #[trigger] receiveds[j],
                            queues[j + 1],
                            trails[j],
                            trails[j + 1],
                        ) by {
                            if j < k {
                                assert(queues[j + 1] == queues.drop_last()[j + 1]);
                                assert(trails[j + 1] == trails.drop_last()[j + 1]);
                            }
                        }
                        assert forall|j: int|
                            0 <= j < receiveds.len() implies propagation_round(
                            propagators[j],
                            propagators[j + 1],
                            #[trigger] trails[j],
                            queues[j],
                            receiveds[j],
                        ) by {
                            assert(trails[j] == trails.drop_last()[j]);
                            assert(queues[j] == queues.drop_last()[j]);
                        }
                    }
                },
                None => {
                    proof {
                        assert(propagation_run(trails, propagators, queues, receiveds));
                    }
                    break;
                },
            }
        }
    }
    /// An engine with no variable and no constraint.
    pub fn new() -> (engine: Self)
        ensures
            engine.wf(),
            engine.state().trail().len() == 0,
            engine.state().decisions().len() == 0,
            engine.state().spec_number_of_variables() == 0,
            engine.queue().conflict_constraints().len() == 0,
            engine.queue().conflict_literals().len() == 0,
            engine.queue().propagations().len() == 0,
    {
        Self {
            assertion_stack: AssertionStack::new(),
            implication_queue: ImplicationQueue::new(),
            propagator: CompositeLinearPropagator::new(),
        }
    }

    /// The first violated constraint waiting; else a variable with both
    /// values implied whose sum of normalized slacks is least; else no
    /// conflict.
    pub fn status(&self) -> (status: Status<CompositeLinearPropagatorExplinKey>)
        requires
            self.wf(),
        ensures
            self.queue().conflict_constraints().len() > 0 ==> status == Status::Conflict(
                ConflictStatus::Constraint { explain_key: self.queue().conflict_constraints()[0] },
            ),
            self.queue().conflict_constraints().len() == 0 && self.queue().conflict_literals().len() > 0 ==> (
            status matches Status::Conflict(ConflictStatus::Literals { variable, explain_keys }) && is_least_conflict(
                self.queue().conflict_literals(),
                variable,
                self.queue().conflict_literals()[variable],
            ) && explain_keys == self.queue().conflict_literals()[variable].explain_keys),
            self.queue().conflict_constraints().len() == 0 && self.queue().conflict_literals().len() == 0 ==> status
                is Noconflict,
    {
        match self.implication_queue.get_conflict() {
            Some(ConflictImplication::Constraint { explain_key }) => Status::Conflict(
                ConflictStatus::Constraint { explain_key },
            ),
            Some(ConflictImplication::Literals { variable, explain_keys }) => Status::Conflict(
                ConflictStatus::Literals { variable, explain_keys },
            ),
            None => Status::Noconflict,
        }
    }

    /// Adds a variable whose cached value is `initial_value`.
    pub fn add_variable(&mut self, initial_value: bool)
        requires
            old(self).wf(),
            old(self).state().spec_number_of_variables() + 3 < usize::MAX / 2,
        ensures
            final(self).wf(),
            final(self).state().trail() == old(self).state().trail(),
            final(self).state().decisions() == old(self).state().decisions(),
            final(self).state().phases() == old(self).state().phases().push(initial_value),
            final(self).state().spec_number_of_variables() == old(self).state().spec_number_of_variables() + 1,
            final(self).queue() == old(self).queue(),
            CardinalityPropagator::variable_added(old(self).propagator().cardinality(), final(self).propagator().cardinality()),
            LinearPropagator::variable_added(old(self).propagator().linear(), final(self).propagator().linear()),
    {
        let ghost before = self.propagator;
        let ghost trail = self.assertion_stack.trail();
        self.assertion_stack.add_variable(initial_value);
        self.propagator.add_variable();
        proof {
            lemma_rows_kept_refl(before);
            assert(self.propagator.cardinality().rows() == before.cardinality().rows());
            assert(self.propagator.linear().rows() == before.linear().rows());
            assert(rows_kept_for(before, self.propagator));
            assert(trail.take(trail.len() as int) =~= trail);
            lemma_queue_explained(self.implication_queue, before, self.propagator, trail, trail);
            lemma_trail_kept(before, self.propagator, trail);
        }
    }

    /// Adds `constraint` to the propagator (see
    /// `CompositeLinearPropagator::add_constraint`), queues what it implies
    /// right away and propagates to a fixed point.
    pub fn add_constraint<C: Constraint>(&mut self, constraint: &C, is_learnt: bool)
        requires
            old(self).wf(),
            old(self).queue().conflict_constraints().len() == 0,
            old(self).queue().conflict_literals().len() == 0,
            old(self).queue().propagations().len() == 0,
            literals_in_range(constraint.spec_terms(), old(self).state().spec_number_of_variables()),
            sum_coefficients(constraint.spec_terms()) <= u64::MAX,
            constraint.spec_lower_bound() <= usize::MAX,
        ensures
            final(self).wf(),
            settled(final(self).queue()),
            final(self).state().spec_number_of_variables() == old(self).state().spec_number_of_variables(),
            final(self).state().decisions() == old(self).state().decisions(),
            old(self).state().trail().len() <= final(self).state().trail().len(),
            final(self).state().trail().take(old(self).state().trail().len() as int) == old(self).state().trail(),
            implied_after(final(self).state().trail(), old(self).state().trail().len() as int),
            constraint_held(
                old(self).propagator(),
                final(self).propagator(),
                constraint.spec_terms(),
                constraint.spec_lower_bound(),
            ),
            exists|
                p: CompositeLinearPropagator,
                q: ImplicationQueue<CompositeLinearPropagatorExplinKey>,
            |
                #[trigger] added_and_received(
                    old(self).propagator(),
                    p,
                    old(self).queue(),
                    q,
                    constraint.spec_terms(),
                    constraint.spec_lower_bound(),
                    is_learnt,
                    old(self).state().trail(),
                ) && propagated_from(
                    old(self).state().trail(),
                    p,
                    q,
                    final(self).state().trail(),
                    final(self).propagator(),
                    final(self).queue(),
                ),
    {
        let ghost trail = self.assertion_stack.trail();
        let ghost n = self.assertion_stack.spec_number_of_variables();
        let ghost before = self.propagator;
        let mut events: Vec<Implication<CompositeLinearPropagatorExplinKey>> = Vec::new();
        self.propagator.add_constraint(constraint, is_learnt, &self.assertion_stack, &mut events);
        proof {
            let strong = strengthened(nonzero_terms(constraint.spec_terms()), constraint.spec_lower_bound());
            if constraint.spec_lower_bound() == 0 || strong.1 == 0 {
                assert(events@.len() == 0);
                assert(events@ =~= Seq::<Implication<CompositeLinearPropagatorExplinKey>>::empty());
                lemma_rows_kept_refl(before);
            } else if unit_coefficients(strong.0) {
                let e = choose|e: Seq<Implication<CardinalityPropagatorExplainKey>>|
                    {
                        &&& CardinalityPropagator::constraint_added(
                            before.cardinality(),
                            self.propagator.cardinality(),
                            strong.0,
                            strong.1,
                            is_learnt,
                            trail,
                            Seq::empty(),
                            e,
                        )
                        &&& events@ == Seq::<Implication<CompositeLinearPropagatorExplinKey>>::empty()
                            + lifted_cardinality(e)
                    };
                lemma_cardinality_added(before, self.propagator, strong.0, strong.1, is_learnt, self.assertion_stack, e);
                lemma_lifted_events(e, Seq::empty(), trail, n);
                lemma_lifted_explained(e, Seq::empty(), self.propagator, trail);
                assert(events@ =~= lifted_cardinality(e) + lifted_linear(Seq::empty()));
                assert(events@ =~= lifted_cardinality(e));
                assert(self.propagator.cardinality().rows()[before.cardinality().next_row_id().spec_index() as int] is Some);
            } else {
                let e = choose|e: Seq<Implication<LinearPropagatorExplainKey>>|
                    {
                        &&& LinearPropagator::constraint_added(
                            before.linear(),
                            self.propagator.linear(),
                            strong.0,
                            strong.1,
                            is_learnt,
                            trail,
                            Seq::empty(),
                            e,
                        )
                        &&& events@ == Seq::<Implication<CompositeLinearPropagatorExplinKey>>::empty() + lifted_linear(e)
                    };
                lemma_linear_added(before, self.propagator, strong.0, strong.1, is_learnt, trail, e);
                lemma_lifted_events(Seq::empty(), e, trail, n);
                lemma_lifted_explained(Seq::empty(), e, self.propagator, trail);
                assert(events@ =~= lifted_cardinality(Seq::empty()) + lifted_linear(e));
                assert(events@ =~= lifted_linear(e));
                assert(self.propagator.linear().rows()[before.linear().next_row_id().spec_index() as int] is Some);
            }
            assert(trail.take(trail.len() as int) =~= trail);
            lemma_queue_explained(self.implication_queue, before, self.propagator, trail, trail);
            lemma_trail_kept(before, self.propagator, trail);
            assert(constraint_held(before, self.propagator, constraint.spec_terms(), constraint.spec_lower_bound()));
            assert(added_reporting(
                before,
                self.propagator,
                constraint.spec_terms(),
                constraint.spec_lower_bound(),
                is_learnt,
                trail,
                events@,
            ));
        }
        let ghost added = self.propagator;
        let ghost queue0 = self.implication_queue;
        receive_all::<ExplainKey<CompositeLinearPropagatorExplinKey, OuterExplainKeyT>>(
            &mut self.implication_queue,
            &events,
            Ghost(trail),
            Ghost(n),
            Ghost(self.propagator),
        );
        proof {
            assert(added_and_received(
                before,
                added,
                queue0,
                self.implication_queue,
                constraint.spec_terms(),
                constraint.spec_lower_bound(),
                is_learnt,
                trail,
            ));
        }
        let ghost queue1 = self.implication_queue;
        self.propagate();
        proof {
            assert(propagated_from(
                trail,
                added,
                queue1,
                self.assertion_stack.trail(),
                self.propagator,
                self.implication_queue,
            ));
            lemma_constraint_held_kept(before, added, self.propagator, constraint.spec_terms(), constraint.spec_lower_bound());
        }
    }

    /// Asserts `predicate` as a decision and propagates to a fixed point.
    pub fn decision(&mut self, predicate: Predicate)
        requires
            old(self).wf(),
            old(self).queue().conflict_constraints().len() == 0,
            old(self).queue().conflict_literals().len() == 0,
            old(self).queue().propagations().len() == 0,
            predicate.spec_literal().spec_index() < old(self).state().spec_number_of_variables(),
            unassigned(old(self).state().trail(), predicate.spec_literal().spec_index()),
        ensures
            final(self).wf(),
            settled(final(self).queue()),
            final(self).state().spec_number_of_variables() == old(self).state().spec_number_of_variables(),
            final(self).state().decisions() == old(self).state().decisions().push(
                old(self).state().trail().len() as usize,
            ),
            old(self).state().trail().len() < final(self).state().trail().len(),
            final(self).state().trail().take(old(self).state().trail().len() as int + 1) == old(
                self,
            ).state().trail().push(
                AssertionInfo {
                    predicate,
                    reason: Reason::Decision,
                    decision_level: (old(self).state().decisions().len() + 1) as usize,
                },
            ),
            implied_after(final(self).state().trail(), old(self).state().trail().len() as int + 1),
            propagated_from(
                old(self).state().trail().push(
                    AssertionInfo {
                        predicate,
                        reason: Reason::Decision,
                        decision_level: (old(self).state().decisions().len() + 1) as usize,
                    },
                ),
                old(self).propagator(),
                old(self).queue(),
                final(self).state().trail(),
                final(self).propagator(),
                final(self).queue(),
            ),
    {
        let ghost trail = self.assertion_stack.trail();
        let ghost n = self.assertion_stack.spec_number_of_variables();
        proof {
            lemma_trail_len(self.assertion_stack);
            self.implication_queue.lemma_finite();
            self.implication_queue.propagations().dom().lemma_len0_is_empty();
            self.implication_queue.conflict_literals().dom().lemma_len0_is_empty();
        }
        self.assertion_stack.assert_predicate(predicate, Reason::Decision);
        proof {
            let after = self.assertion_stack.trail();
            assert(after.take(trail.len() as int) =~= trail);
            assert(trail.take(trail.len() as int) =~= trail);
            self.propagator.linear().lemma_reflects_prefix(trail, after);
            lemma_trail_push(self.propagator, trail, after[trail.len() as int]);
            assert(after =~= trail.push(after[trail.len() as int]));
            assert forall|u: usize| #[trigger] self.implication_queue.propagations().contains_key(u) implies false by {
                assert(self.implication_queue.propagations().dom().contains(u));
            }
            assert forall|u: usize| #[trigger] self.implication_queue.conflict_literals().contains_key(u) implies false by {
                assert(self.implication_queue.conflict_literals().dom().contains(u));
            }
        }
        self.propagate();
    }

    /// Marks the propagator's constraints among `involved_constraints` as
    /// taking part in a conflict now. (The variables' activities, floating
    /// point numbers, are not kept here.)
    pub fn update_activity(
        &mut self,
        involved_constraints: &[ExplainKey<CompositeLinearPropagatorExplinKey, OuterExplainKeyT>],
    )
        requires
            old(self).wf(),
            forall|k: int|
                0 <= k < involved_constraints@.len() ==> match #[trigger] involved_constraints@[k] {
                    ExplainKey::Propagator(CompositeLinearPropagatorExplinKey::Cardinality(key)) => key.spec_row_id().spec_index()
                        < old(self).propagator().cardinality().rows().len() && old(self).propagator().cardinality().rows()[key.spec_row_id().spec_index() as int] is Some,
                    ExplainKey::Propagator(CompositeLinearPropagatorExplinKey::Linear(key)) => key.spec_row_id().spec_index()
                        < old(self).propagator().linear().rows().len() && old(self).propagator().linear().rows()[key.spec_row_id().spec_index() as int] is Some,
                    ExplainKey::Outer(_) => true,
                },
        ensures
            final(self).wf(),
            final(self).state() == old(self).state(),
            final(self).queue() == old(self).queue(),
            exists|keys: Seq<CompositeLinearPropagatorExplinKey>|
                {
                    &&& #[trigger] propagator_keys(involved_constraints@) == keys
                    &&& CardinalityPropagator::involvement_received(
                        old(self).propagator().cardinality(),
                        final(self).propagator().cardinality(),
                        crate::composite_linear_propagator::cardinality_keys(keys),
                    )
                    &&& LinearPropagator::involvement_received(
                        old(self).propagator().linear(),
                        final(self).propagator().linear(),
                        crate::composite_linear_propagator::linear_keys(keys),
                    )
                },
    {
        let mut keys: Vec<CompositeLinearPropagatorExplinKey> = Vec::new();
        let mut k: usize = 0;
        while k < involved_constraints.len()
            invariant
                k <= involved_constraints@.len(),
                keys@ == propagator_keys(involved_constraints@.take(k as int)),
            decreases involved_constraints@.len() - k,
        {
            proof {
                assert(involved_constraints@.take(k as int + 1).drop_last() =~= involved_constraints@.take(k as int));
            }
            match involved_constraints[k] {
                ExplainKey::Propagator(key) => keys.push(key),
                ExplainKey::Outer(_) => {},
            }
            k = k + 1;
        }
        proof {
            assert(involved_constraints@.take(involved_constraints@.len() as int) =~= involved_constraints@);
            lemma_propagator_keys(involved_constraints@);
        }
        let ghost before = self.propagator;
        self.propagator.receive_involved_constraints(keys.as_slice());
        proof {
            let trail = self.assertion_stack.trail();
            assert forall|i: int|
                0 <= i < before.cardinality().rows().len() && (#[trigger] before.cardinality().rows()[i]) is Some implies {
                &&& i < self.propagator.cardinality().rows().len()
                &&& self.propagator.cardinality().rows()[i] is Some
                &&& self.propagator.cardinality().rows()[i].unwrap().spec_literals().to_multiset()
                    == before.cardinality().rows()[i].unwrap().spec_literals().to_multiset()
                &&& self.propagator.cardinality().rows()[i].unwrap().spec_bound()
                    == before.cardinality().rows()[i].unwrap().spec_bound()
            } by {
                assert(self.propagator.cardinality().rows()[i] is Some);
            }
            assert forall|i: int|
                0 <= i < before.linear().rows().len() && (#[trigger] before.linear().rows()[i]) is Some implies {
                &&& i < self.propagator.linear().rows().len()
                &&& self.propagator.linear().rows()[i] is Some
                &&& self.propagator.linear().rows()[i].unwrap().terms() == before.linear().rows()[i].unwrap().terms()
                &&& self.propagator.linear().rows()[i].unwrap().bound() == before.linear().rows()[i].unwrap().bound()
            } by {
                assert(self.propagator.linear().rows()[i] is Some);
            }
            assert(trail.take(trail.len() as int) =~= trail);
            lemma_queue_explained(self.implication_queue, before, self.propagator, trail, trail);
            lemma_trail_kept(before, self.propagator, trail);
            assert(self.propagator.linear().reflects(trail)) by {
                assert forall|i: int|
                    0 <= i < self.propagator.linear().rows().len() && (#[trigger] self.propagator.linear().rows()[i]) is Some implies {
                    let row = self.propagator.linear().rows()[i].unwrap();
                    &&& row.sup() == crate::linear_propagator::sup_before(
                        row.terms(),
                        trail,
                        self.propagator.linear().spec_unreflected_order() as int,
                    )
                    &&& row.assigned_after_max(trail, self.propagator.linear().spec_unreflected_order() as int)
                } by {
                    assert(before.linear().rows()[i] is Some);
                }
            }
        }
    }

    /// Whether a row stands behind `explain_key`.
    pub fn holds_row(&self, explain_key: CompositeLinearPropagatorExplinKey) -> (holds: bool)
        ensures
            holds == match explain_key {
                CompositeLinearPropagatorExplinKey::Cardinality(k) => k.spec_row_id().spec_index()
                    < self.propagator().cardinality().rows().len() && self.propagator().cardinality().rows()[k.spec_row_id().spec_index() as int] is Some,
                CompositeLinearPropagatorExplinKey::Linear(k) => k.spec_row_id().spec_index()
                    < self.propagator().linear().rows().len() && self.propagator().linear().rows()[k.spec_row_id().spec_index() as int] is Some,
            },
    {
        self.propagator.holds_row(explain_key)
    }

    /// The row behind `explain_key`.
    pub fn explain(&self, explain_key: CompositeLinearPropagatorExplinKey) -> (row: CompositeRow<'_>)
        requires
            match explain_key {
                CompositeLinearPropagatorExplinKey::Cardinality(k) => k.spec_row_id().spec_index()
                    < self.propagator().cardinality().rows().len() && self.propagator().cardinality().rows()[k.spec_row_id().spec_index() as int] is Some,
                CompositeLinearPropagatorExplinKey::Linear(k) => k.spec_row_id().spec_index()
                    < self.propagator().linear().rows().len() && self.propagator().linear().rows()[k.spec_row_id().spec_index() as int] is Some,
            },
        ensures
            match (explain_key, row) {
                (CompositeLinearPropagatorExplinKey::Cardinality(k), CompositeRow::Cardinality(r)) => Some(*r)
                    == self.propagator().cardinality().rows()[k.spec_row_id().spec_index() as int],
                (CompositeLinearPropagatorExplinKey::Linear(k), CompositeRow::Linear(r)) => Some(*r)
                    == self.propagator().linear().rows()[k.spec_row_id().spec_index() as int],
                _ => false,
            },
    {
        self.propagator.explain(explain_key)
    }

    /// Empties the queue and backjumps the propagator and the assertions to
    /// `backjump_level`; at level 0 the propagators then reduce their learnt
    /// rows (see `learnt_reduced_in`).
    pub fn backjump(&mut self, backjump_level: usize)
        requires
            old(self).wf(),
            backjump_level <= old(self).state().decisions().len(),
        ensures
            final(self).wf(),
            final(self).queue().conflict_constraints().len() == 0,
            final(self).queue().conflict_literals().len() == 0,
            final(self).queue().propagations().len() == 0,
            final(self).state().spec_number_of_variables() == old(self).state().spec_number_of_variables(),
            backjump_level < old(self).state().decisions().len() ==> final(self).state().trail() == old(
                self,
            ).state().trail().subrange(0, old(self).state().decisions()[backjump_level as int] as int)
                && final(self).state().decisions() == old(self).state().decisions().subrange(0, backjump_level as int),
            backjump_level == old(self).state().decisions().len() ==> final(self).state().trail() == old(
                self,
            ).state().trail() && final(self).state().decisions() == old(self).state().decisions(),
            backjump_level > 0 ==> CardinalityPropagator::backjumped(
                old(self).propagator().cardinality(),
                final(self).propagator().cardinality(),
                backjump_level,
                old(self).state(),
            ) && LinearPropagator::backjumped(
                old(self).propagator().linear(),
                final(self).propagator().linear(),
                backjump_level,
                old(self).state(),
            ),
            backjump_level == 0 ==> exists|p: CompositeLinearPropagator|
                #[trigger] learnt_reduced_in(p, final(self).propagator(), final(self).state().trail())
                    && CardinalityPropagator::backjumped(
                    old(self).propagator().cardinality(),
                    p.cardinality(),
                    backjump_level,
                    old(self).state(),
                ) && LinearPropagator::backjumped(
                    old(self).propagator().linear(),
                    p.linear(),
                    backjump_level,
                    old(self).state(),
                ),
    {
        let ghost trail = self.assertion_stack.trail();
        let ghost before = self.propagator;
        proof {
            self.assertion_stack.lemma_decisions_within();
        }
        self.implication_queue.clear();
        self.propagator.backjump(backjump_level, &self.assertion_stack);
        self.assertion_stack.backjump(backjump_level);
        proof {
            let after = self.assertion_stack.trail();
            let order = self.propagator.linear().spec_unreflected_order() as int;
            if backjump_level < old(self).state().decisions().len() {
                assert(old(self).state().decisions()[backjump_level as int] < trail.len());
            }
            assert(after.len() == order);
            assert(trail.take(order) =~= after.take(order));
            self.propagator.linear().lemma_reflects_prefix(trail, after);
            lemma_trail_cut(before, trail, order);
            assert(after =~= trail.subrange(0, order));
            assert forall|i: int|
                0 <= i < before.linear().rows().len() && (#[trigger] before.linear().rows()[i]) is Some implies {
                &&& i < self.propagator.linear().rows().len()
                &&& self.propagator.linear().rows()[i] is Some
                &&& self.propagator.linear().rows()[i].unwrap().terms() == before.linear().rows()[i].unwrap().terms()
                &&& self.propagator.linear().rows()[i].unwrap().bound() == before.linear().rows()[i].unwrap().bound()
            } by {
                assert(self.propagator.linear().rows()[i] is Some);
            }
            lemma_trail_kept(before, self.propagator, after);
            self.implication_queue.lemma_finite();
            self.implication_queue.propagations().dom().lemma_len0_is_empty();
            self.implication_queue.conflict_literals().dom().lemma_len0_is_empty();
            assert forall|u: usize| #[trigger] self.implication_queue.propagations().contains_key(u) implies false by {
                assert(self.implication_queue.propagations().dom().contains(u));
            }
            assert forall|u: usize| #[trigger] self.implication_queue.conflict_literals().contains_key(u) implies false by {
                assert(self.implication_queue.conflict_literals().dom().contains(u));
            }
        }
        if backjump_level == 0 {
            let ghost reduced_from = self.propagator;
            proof {
                self.assertion_stack.lemma_trail_bound();
            }
            self.propagator.reduce_learnt_constraints(&self.assertion_stack);
            proof {
                let trail0 = self.assertion_stack.trail();
                if reduced_from.cardinality().spec_reduction_count() < usize::MAX {
                    CardinalityPropagator::lemma_reduced_keeps(
                        reduced_from.cardinality(),
                        self.propagator.cardinality(),
                        trail0,
                    );
                }
                if reduced_from.linear().spec_reduction_count() < usize::MAX {
                    LinearPropagator::lemma_reduced_keeps(
                        reduced_from.linear(),
                        self.propagator.linear(),
                        trail0,
                        trail0,
                    );
                }
                assert forall|u: usize| #[trigger] self.implication_queue.propagations().contains_key(u) implies false by {
                    assert(self.implication_queue.propagations().dom().contains(u));
                }
                assert forall|u: usize| #[trigger] self.implication_queue.conflict_literals().contains_key(u) implies false by {
                    assert(self.implication_queue.conflict_literals().dom().contains(u));
                }
                assert(trail_explained(self.propagator, trail0));
                assert(learnt_reduced_in(reduced_from, self.propagator, trail0));
            }
        }
    }

    /// Every implied assertion above decision level 0 is implied by the
    /// constraint behind its key given the assertions before it. (At level
    /// 0 the constraint may since have been removed as satisfied, see
    /// `backjump`.)
    pub proof fn lemma_assertions_explained(&self, k: int)
        requires
            self.wf(),
            0 <= k < self.state().trail().len(),
            self.state().trail()[k].decision_level > 0,
        ensures
            match self.state().trail()[k].reason {
                Reason::Implication { explain_key: ExplainKey::Propagator(key) } => explains(
                    self.propagator(),
                    key,
                    self.state().trail()[k].predicate.spec_literal(),
                    self.state().trail().take(k),
                ),
                _ => true,
            },
    {
        assert(trail_explained(self.propagator(), self.state().trail()));
    }

    /// The assertions.
    pub fn assertion_stack(&self) -> (stack: &AssertionStack<
        ExplainKey<CompositeLinearPropagatorExplinKey, OuterExplainKeyT>,
    >)
        ensures
            *stack == self.state(),
    {
        &self.assertion_stack
    }

    /// The number of variables.
    pub fn number_of_variables(&self) -> (count: usize)
        ensures
            count == self.state().spec_number_of_variables(),
    {
        self.assertion_stack.number_of_variables()
    }

    /// The number of assertions.
    pub fn number_of_assertions(&self) -> (count: usize)
        ensures
            count == self.state().trail().len(),
    {
        self.assertion_stack.number_of_assertions()
    }

    /// The current decision level.
    pub fn decision_level(&self) -> (level: usize)
        ensures
            level == self.state().decisions().len(),
    {
        self.assertion_stack.decision_level()
    }

    /// The predicate asserted at `order`.
    pub fn assertion(&self, order: usize) -> (predicate: Predicate)
        requires
            order < self.state().trail().len(),
        ensures
            predicate == self.state().trail()[order as int].predicate,
    {
        self.assertion_stack.assertion(order)
    }
}

/// The propagator's keys among `keys`, in order.
pub open spec fn propagator_keys<O>(keys: Seq<ExplainKey<CompositeLinearPropagatorExplinKey, O>>) -> Seq<
    CompositeLinearPropagatorExplinKey,
>
    decreases keys.len(),
{
    if keys.len() == 0 {
        Seq::empty()
    } else {
        match keys.last() {
            ExplainKey::Propagator(k) => propagator_keys(keys.drop_last()).push(k),
            ExplainKey::Outer(_) => propagator_keys(keys.drop_last()),
        }
    }
}

/// Each of the propagator's keys among `keys` is one of them.
proof fn lemma_propagator_keys<O>(keys: Seq<ExplainKey<CompositeLinearPropagatorExplinKey, O>>)
    ensures
        forall|j: int|
            0 <= j < propagator_keys(keys).len() ==> exists|k: int|
                0 <= k < keys.len() && keys[k] == ExplainKey::<CompositeLinearPropagatorExplinKey, O>::Propagator(
                    #[trigger] propagator_keys(keys)[j],
                ),
    decreases keys.len(),
{
    if keys.len() > 0 {
        lemma_propagator_keys(keys.drop_last());
        let rest = propagator_keys(keys.drop_last());
        assert forall|j: int| 0 <= j < propagator_keys(keys).len() implies exists|k: int|
            0 <= k < keys.len() && keys[k] == ExplainKey::<CompositeLinearPropagatorExplinKey, O>::Propagator(
                #[trigger] propagator_keys(keys)[j],
            ) by {
            if j < rest.len() {
                assert(propagator_keys(keys)[j] == rest[j]);
                let k = choose|k: int|
                    0 <= k < keys.drop_last().len() && keys.drop_last()[k] == ExplainKey::<
                        CompositeLinearPropagatorExplinKey,
                        O,
                    >::Propagator(#[trigger] rest[j]);
                assert(keys[k] == keys.drop_last()[k]);
            } else {
                assert(keys[keys.len() - 1] == keys.last());
            }
        }
    }
}

} // verus!
