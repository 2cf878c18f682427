//! Resolution of two constraints on a variable that one implies true and
//! the other false: a multiple of each is added so that the variable
//! cancels, after weakening one of them when their slacks are too large.
use vstd::prelude::*;

use crate::assertion_state::{assigned_at, AssertionInfo, AssertionStack};
use crate::constraint::{
    false_before, first_coefficient, gcd, lemma_gcd_bound, literals_in_range, spec_gcd,
    sum_coefficients, sum_where, Constraint,
};
use crate::literal::Literal;
use crate::random_constraint::{
    lemma_sum_below_agree, add_fits, added, assigned_map, is_enumeration, lemma_added_value, lemma_assigned_value, lemma_map_value,
    lemma_strengthen_map_sound, map_value, strengthened_map, sum_below_entries, RandomConstraint,
};
use crate::compressed_constraint::{holds_under, lhs_under};
use crate::round::{
    down_total_of, distinct_variables, down_total, initial_terms, lemma_weaken_sound, lemma_weakened_shape, value_under, weakened,
    Round,
};

verus! {

/// The terms with 128-bit coefficients.
pub open spec fn widened(terms: Seq<(Literal, u64)>) -> Seq<(Literal, u128)> {
    terms.map_values(|t: (Literal, u64)| (t.0, t.1 as u128))
}

/// The terms with each coefficient multiplied by `k`.
pub open spec fn scaled(terms: Seq<(Literal, u128)>, k: u128) -> Seq<(Literal, u128)> {
    terms.map_values(|t: (Literal, u128)| (t.0, (t.1 * k) as u128))
}

/// The literal of the first term on variable `v`, if any.
pub open spec fn first_of_variable(terms: Seq<(Literal, u64)>, v: nat) -> Option<Literal>
    decreases terms.len(),
{
    if terms.len() == 0 {
        None
    } else if terms[0].0.spec_index() == v {
        Some(terms[0].0)
    } else {
        first_of_variable(terms.drop_first(), v)
    }
}

/// The order at which variable `v` was assigned, or `usize::MAX`.
pub open spec fn order_of_variable<E>(trail: Seq<AssertionInfo<E>>, v: nat) -> int {
    if exists|k: int| assigned_at(trail, v, k) {
        choose|k: int| assigned_at(trail, v, k)
    } else {
        usize::MAX as int
    }
}

/// How far the greatest value the left-hand side can take before `order`
/// exceeds the lower bound.
pub open spec fn slack_before<E>(terms: Seq<(Literal, u64)>, lower_bound: u64, trail: Seq<AssertionInfo<E>>, order: int) -> int {
    sum_where(terms, |l: Literal| !false_before(trail, l, order)) - lower_bound
}

/// The literals rounded up when weakening: `target` and those false before
/// `order`.
pub open spec fn core_flags<E>(terms: Seq<(Literal, u128)>, target: Literal, trail: Seq<AssertionInfo<E>>, order: int) -> Seq<bool> {
    terms.map_values(|t: (Literal, u128)| t.0 == target || false_before(trail, t.0, order))
}

/// The two constraints whose sum is the resolvent, before it is
/// strengthened: when the slacks divided by the target's coefficients sum
/// to less than 1, the constraints themselves scaled to cancel the target;
/// otherwise the one with the larger such ratio is first divided by its
/// target coefficient (see `weakened`, the target and the literals false
/// before `order` rounding up) and scaled by the other's.
pub open spec fn resolution_parts<E>(
    t0: Seq<(Literal, u64)>,
    lb0: u64,
    t1: Seq<(Literal, u64)>,
    lb1: u64,
    target: Literal,
    trail: Seq<AssertionInfo<E>>,
    order: int,
) -> (Seq<(Literal, u128)>, int, Seq<(Literal, u128)>, int) {
    let c0 = first_coefficient(t0, target).unwrap() as int;
    let c1 = first_coefficient(t1, target.negated()).unwrap() as int;
    let s0 = slack_before(t0, lb0, trail, order);
    let s1 = slack_before(t1, lb1, trail, order);
    if s0 * c1 + s1 * c0 < c0 * c1 {
        let g = spec_gcd(c0 as nat, c1 as nat) as int;
        (scaled(widened(t0), (c1 / g) as u128), lb0 * (c1 / g), scaled(widened(t1), (c0 / g) as u128), lb1 * (c0 / g))
    } else if s0 * c1 > s1 * c0 {
        let (w, l) = weakened(widened(t0), lb0 as u128, c0 as u128, core_flags(widened(t0), target, trail, order));
        (scaled(w, c1 as u128), l * c1, widened(t1), lb1 as int)
    } else {
        let (w, l) = weakened(
            widened(t1),
            lb1 as u128,
            c1 as u128,
            core_flags(widened(t1), target.negated(), trail, order),
        );
        (widened(t0), lb0 as int, scaled(w, c0 as u128), l * c0)
    }
}

/// The sum of the two parts: its terms and lower bound.
pub open spec fn resolution_sum<E>(
    t0: Seq<(Literal, u64)>,
    lb0: u64,
    t1: Seq<(Literal, u64)>,
    lb1: u64,
    target: Literal,
    trail: Seq<AssertionInfo<E>>,
    order: int,
) -> (Map<usize, (bool, u128)>, int) {
    let (a, la, b, lb) = resolution_parts(t0, lb0, t1, lb1, target, trail, order);
    let (m, d) = added(assigned_map(a), b);
    (m, la + lb - d)
}

/// The inputs on which the sum of the resolution stays within its integer
/// types and the weakening keeps a non-negative right-hand side.
pub open spec fn resolution_sum_fits<E>(
    t0: Seq<(Literal, u64)>,
    lb0: u64,
    t1: Seq<(Literal, u64)>,
    lb1: u64,
    target: Literal,
    trail: Seq<AssertionInfo<E>>,
    order: int,
) -> bool {
    let c0 = first_coefficient(t0, target).unwrap() as int;
    let c1 = first_coefficient(t1, target.negated()).unwrap() as int;
    let s0 = slack_before(t0, lb0, trail, order);
    let s1 = slack_before(t1, lb1, trail, order);
    let (a, la, b, lb) = resolution_parts(t0, lb0, t1, lb1, target, trail, order);
    let (m, d) = added(assigned_map(a), b);
    &&& i128::MIN <= s0 * c1 <= i128::MAX
    &&& i128::MIN <= s1 * c0 <= i128::MAX
    &&& i128::MIN <= s0 * c1 + s1 * c0 <= i128::MAX
    &&& c0 * c1 <= i128::MAX
    &&& (s0 * c1 + s1 * c0 >= c0 * c1 && s0 * c1 > s1 * c0 ==> down_total(
        initial_terms(widened(t0), c0 as u128, core_flags(widened(t0), target, trail, order)),
    ) <= lb0)
    &&& (s0 * c1 + s1 * c0 >= c0 * c1 && s0 * c1 <= s1 * c0 ==> down_total(
        initial_terms(widened(t1), c1 as u128, core_flags(widened(t1), target.negated(), trail, order)),
    ) <= lb1)
    &&& add_fits(assigned_map(a), b)
    &&& la + lb <= u128::MAX
    &&& la + lb >= d
}

/// The inputs on which resolution stays within its integer types, the
/// weakening keeps a non-negative right-hand side and the strengthening of
/// the sum does too.
pub open spec fn resolution_fits<E>(
    t0: Seq<(Literal, u64)>,
    lb0: u64,
    t1: Seq<(Literal, u64)>,
    lb1: u64,
    target: Literal,
    trail: Seq<AssertionInfo<E>>,
    order: int,
) -> bool {
    let (m, lower_bound) = resolution_sum(t0, lb0, t1, lb1, target, trail, order);
    &&& resolution_sum_fits(t0, lb0, t1, lb1, target, trail, order)
    &&& forall|entries: Seq<(usize, (bool, u128))>| #[trigger] is_enumeration(m, entries) ==> sum_below_entries(
        entries,
        lower_bound as u128,
    ) <= u128::MAX
}

/// Widening keeps the value.
proof fn lemma_widened_value(terms: Seq<(Literal, u64)>, assignment: spec_fn(nat) -> bool)
    ensures
        value_under(widened(terms), assignment) == lhs_under(terms, assignment),
    decreases terms.len(),
{
    if terms.len() > 0 {
        assert(widened(terms).drop_last() =~= widened(terms.drop_last()));
        lemma_widened_value(terms.drop_last(), assignment);
    }
}

/// Scaling by `k` scales the value by `k`.
proof fn lemma_scaled_value(terms: Seq<(Literal, u128)>, k: u128, assignment: spec_fn(nat) -> bool)
    requires
        forall|j: int| 0 <= j < terms.len() ==> (#[trigger] terms[j]).1 * k <= u128::MAX,
    ensures
        value_under(scaled(terms, k), assignment) == k * value_under(terms, assignment),
        distinct_variables(terms) ==> distinct_variables(scaled(terms, k)),
    decreases terms.len(),
{
    if terms.len() > 0 {
        let rest = terms.drop_last();
        assert(scaled(terms, k).drop_last() =~= scaled(rest, k));
        assert forall|j: int| 0 <= j < rest.len() implies (#[trigger] rest[j]).1 * k <= u128::MAX by {
            assert(rest[j] == terms[j]);
        }
        lemma_scaled_value(rest, k, assignment);
        assert(terms[terms.len() - 1].1 * k <= u128::MAX);
        let x = value_under(rest, assignment);
        let c = terms.last().1 as int;
        let y = if holds_under(terms.last().0, assignment) {
            c
        } else {
            0
        };
        assert(k * (x + y) == k * x + k * y) by (nonlinear_arith);
        assert(k * y == if holds_under(terms.last().0, assignment) {
            c * k
        } else {
            0
        }) by (nonlinear_arith)
            requires
                y == c || y == 0,
                y == c <==> holds_under(terms.last().0, assignment) || c == 0,
        ;
    }
}

/// Multiplying both sides of a satisfied inequality by a non-negative
/// number keeps it satisfied.
proof fn lemma_scale_inequality(v: int, l: int, k: int)
    requires
        v >= l,
        k >= 0,
    ensures
        k * v >= l * k,
{
    assert(k * v >= l * k) by (nonlinear_arith)
        requires
            v >= l,
            k >= 0,
    ;
}

/// Resolution is sound: an assignment that satisfies both constraints
/// satisfies the strengthened resolvent (see `resolve`), whichever
/// enumeration of the sum the strengthening visits.
pub proof fn lemma_resolve_sound<E>(
    t0: Seq<(Literal, u64)>,
    lb0: u64,
    t1: Seq<(Literal, u64)>,
    lb1: u64,
    target: Literal,
    trail: Seq<AssertionInfo<E>>,
    order: int,
    assignment: spec_fn(nat) -> bool,
    entries: Seq<(usize, (bool, u128))>,
)
    requires
        first_coefficient(t0, target) is Some,
        first_coefficient(t1, target.negated()) is Some,
        first_coefficient(t0, target).unwrap() > 0 || first_coefficient(t1, target.negated()).unwrap() > 0,
        slack_before(t0, lb0, trail, order) < first_coefficient(t0, target).unwrap(),
        slack_before(t1, lb1, trail, order) < first_coefficient(t1, target.negated()).unwrap(),
        resolution_sum_fits(t0, lb0, t1, lb1, target, trail, order),
        distinct_variables(widened(t0)),
        distinct_variables(widened(t1)),
        lhs_under(t0, assignment) >= lb0,
        lhs_under(t1, assignment) >= lb1,
        is_enumeration(resolution_sum(t0, lb0, t1, lb1, target, trail, order).0, entries),
    ensures
        ({
            let (m, lower_bound) = resolution_sum(t0, lb0, t1, lb1, target, trail, order);
            map_value(strengthened_map(m, entries, lower_bound as u128).0, assignment) >= strengthened_map(
                m,
                entries,
                lower_bound as u128,
            ).1
        }),
{
    let c0 = first_coefficient(t0, target).unwrap() as int;
    let c1 = first_coefficient(t1, target.negated()).unwrap() as int;
    let s0 = slack_before(t0, lb0, trail, order);
    let s1 = slack_before(t1, lb1, trail, order);
    let (a, la, b, lbb) = resolution_parts(t0, lb0, t1, lb1, target, trail, order);
    let (m, lower_bound) = resolution_sum(t0, lb0, t1, lb1, target, trail, order);
    lemma_widened_value(t0, assignment);
    lemma_widened_value(t1, assignment);
    assert forall|j: int| 0 <= j < widened(t0).len() implies (#[trigger] widened(t0)[j]).1 <= u64::MAX by {}
    assert forall|j: int| 0 <= j < widened(t1).len() implies (#[trigger] widened(t1)[j]).1 <= u64::MAX by {}
    if s0 * c1 + s1 * c0 < c0 * c1 {
        let g = spec_gcd(c0 as nat, c1 as nat) as int;
        lemma_gcd_positive(c0 as nat, c1 as nat);
        let k1 = c1 / g;
        let k0 = c0 / g;
        assert(0 <= k1 <= c1 && 0 <= k0 <= c0) by (nonlinear_arith)
            requires
                g >= 1,
                c0 >= 0,
                c1 >= 0,
                k1 == c1 / g,
                k0 == c0 / g,
        ;
        assert forall|j: int| 0 <= j < widened(t0).len() implies (#[trigger] widened(t0)[j]).1 * (k1 as u128) <= u128::MAX by {
            lemma_scaled_bound(widened(t0)[j].1 as int, k1);
        }
        assert forall|j: int| 0 <= j < widened(t1).len() implies (#[trigger] widened(t1)[j]).1 * (k0 as u128) <= u128::MAX by {
            lemma_scaled_bound(widened(t1)[j].1 as int, k0);
        }
        lemma_scaled_value(widened(t0), k1 as u128, assignment);
        lemma_scaled_value(widened(t1), k0 as u128, assignment);
        lemma_scale_inequality(lhs_under(t0, assignment), lb0 as int, k1);
        lemma_scale_inequality(lhs_under(t1, assignment), lb1 as int, k0);
    } else if s0 * c1 > s1 * c0 {
        assert(c0 > 0) by (nonlinear_arith)
            requires
                s0 * c1 > s1 * c0,
                s0 * c1 + s1 * c0 >= c0 * c1,
                s0 < c0,
                c0 >= 0,
                c1 >= 0,
        ;
        let core = core_flags(widened(t0), target, trail, order);
        let (w, l) = weakened(widened(t0), lb0 as u128, c0 as u128, core);
        lemma_weaken_sound(widened(t0), lb0 as u128, c0 as u128, core, assignment);
        lemma_weakened_shape(widened(t0), lb0 as u128, c0 as u128, core);
        assert forall|j: int| 0 <= j < w.len() implies (#[trigger] w[j]).1 * (c1 as u128) <= u128::MAX by {
            lemma_scaled_bound(w[j].1 as int, c1);
        }
        lemma_scaled_value(w, c1 as u128, assignment);
        lemma_scale_inequality(value_under(w, assignment), l as int, c1);
    } else {
        assert(c1 > 0) by (nonlinear_arith)
            requires
                s0 * c1 <= s1 * c0,
                s0 * c1 + s1 * c0 >= c0 * c1,
                s1 < c1,
                s0 < c0,
                c0 >= 0,
                c1 >= 0,
                c0 > 0 || c1 > 0,
        ;
        let core = core_flags(widened(t1), target.negated(), trail, order);
        let (w, l) = weakened(widened(t1), lb1 as u128, c1 as u128, core);
        lemma_weaken_sound(widened(t1), lb1 as u128, c1 as u128, core, assignment);
        lemma_weakened_shape(widened(t1), lb1 as u128, c1 as u128, core);
        assert forall|j: int| 0 <= j < w.len() implies (#[trigger] w[j]).1 * (c0 as u128) <= u128::MAX by {
            lemma_scaled_bound(w[j].1 as int, c0);
        }
        lemma_scaled_value(w, c0 as u128, assignment);
        lemma_scale_inequality(value_under(w, assignment), l as int, c0);
    }
    assert(value_under(a, assignment) >= la);
    assert(value_under(b, assignment) >= lbb);
    assert(distinct_variables(a));
    let ea = lemma_assigned_value(a, assignment);
    let e2 = lemma_added_value(assigned_map(a), ea, b, assignment);
    lemma_map_value(m, e2, assignment);
    lemma_strengthen_map_sound(m, entries, lower_bound as u128, assignment);
}

/// Resolves constraints on a variable.
#[derive(Clone, Copy, Debug)]
pub struct Resolve {
    tighten: Round,
}

impl Resolve {
    /// A resolver.
    pub fn new() -> (resolve: Self) {
        Self { tighten: Round::new() }
    }

    /// The resolvent of `constraint0`, which has a term on
    /// `target_variable`, and `constraint1`, which has the opposite literal,
    /// with the slacks taken before the variable was assigned (see
    /// `resolution_parts`), strengthened (see `strengthened_map`; the result
    /// does not depend on the order in which the entries are visited).
    pub fn resolve<C0: Constraint, C1: Constraint, E: Copy>(
        &self,
        constraint0: &C0,
        constraint1: &C1,
        target_variable: usize,
        state: &AssertionStack<E>,
    ) -> (output: Option<RandomConstraint>)
        requires
            state.wf(),
            literals_in_range(constraint0.spec_terms(), state.spec_number_of_variables()),
            literals_in_range(constraint1.spec_terms(), state.spec_number_of_variables()),
            sum_coefficients(constraint0.spec_terms()) <= u64::MAX,
            sum_coefficients(constraint1.spec_terms()) <= u64::MAX,
            constraint0.spec_terms().len() + constraint1.spec_terms().len() + 4 < usize::MAX,
            first_of_variable(constraint0.spec_terms(), target_variable as nat) is Some,
            ({
                let target = first_of_variable(constraint0.spec_terms(), target_variable as nat).unwrap();
                let order = order_of_variable(state.trail(), target_variable as nat);
                &&& first_coefficient(constraint1.spec_terms(), target.negated()) is Some
                &&& (first_coefficient(constraint0.spec_terms(), target).unwrap() > 0
                    || first_coefficient(constraint1.spec_terms(), target.negated()).unwrap() > 0)
                &&& slack_before(constraint0.spec_terms(), constraint0.spec_lower_bound(), state.trail(), order)
                    < first_coefficient(constraint0.spec_terms(), target).unwrap()
                &&& slack_before(constraint1.spec_terms(), constraint1.spec_lower_bound(), state.trail(), order)
                    < first_coefficient(constraint1.spec_terms(), target.negated()).unwrap()
            }),
        ensures
            ({
                let target = first_of_variable(constraint0.spec_terms(), target_variable as nat).unwrap();
                let order = order_of_variable(state.trail(), target_variable as nat);
                resolution_fits(
                    constraint0.spec_terms(),
                    constraint0.spec_lower_bound(),
                    constraint1.spec_terms(),
                    constraint1.spec_lower_bound(),
                    target,
                    state.trail(),
                    order,
                ) ==> output is Some
            }),
            output is Some ==> ({
                let target = first_of_variable(constraint0.spec_terms(), target_variable as nat).unwrap();
                let order = order_of_variable(state.trail(), target_variable as nat);
                resolution_fits(
                    constraint0.spec_terms(),
                    constraint0.spec_lower_bound(),
                    constraint1.spec_terms(),
                    constraint1.spec_lower_bound(),
                    target,
                    state.trail(),
                    order,
                )
            }),
            output matches Some(o) ==> o.wf(),
            output matches Some(o) ==> ({
                let target = first_of_variable(constraint0.spec_terms(), target_variable as nat).unwrap();
                let order = order_of_variable(state.trail(), target_variable as nat);
                let (m, lower_bound) = resolution_sum(
                    constraint0.spec_terms(),
                    constraint0.spec_lower_bound(),
                    constraint1.spec_terms(),
                    constraint1.spec_lower_bound(),
                    target,
                    state.trail(),
                    order,
                );
                exists|entries: Seq<(usize, (bool, u128))>|
                    #[trigger] is_enumeration(m, entries) && (o.terms_map(), o.spec_lower_bound())
                        == strengthened_map(m, entries, lower_bound as u128)
            }),
    {
        let terms0 = constraint0.iter_terms();
        let terms1 = constraint1.iter_terms();
        let lower_bound0 = constraint0.lower_bound();
        let lower_bound1 = constraint1.lower_bound();
        // The target literal.
        let mut k: usize = 0;
        proof {
            assert(terms0@.subrange(0, terms0@.len() as int) =~= terms0@);
        }
        while k < terms0.len() && terms0[k].0.index() != target_variable
            invariant
                k <= terms0@.len(),
                first_of_variable(terms0@, target_variable as nat) == first_of_variable(
                    terms0@.subrange(k as int, terms0@.len() as int),
                    target_variable as nat,
                ),
            decreases terms0@.len() - k,
        {
            proof {
                let rest = terms0@.subrange(k as int, terms0@.len() as int);
                assert(rest.drop_first() =~= terms0@.subrange(k as int + 1, terms0@.len() as int));
            }
            k = k + 1;
        }
        proof {
            if k == terms0@.len() {
                assert(terms0@.subrange(k as int, terms0@.len() as int).len() == 0);
            }
        }
        let target_literal = terms0[k].0;
        let ghost trail = state.trail();
        proof {
            assert(terms0@.subrange(k as int, terms0@.len() as int)[0] == terms0@[k as int]);
            assert(target_literal.spec_index() == target_variable);
            assert(target_variable < state.spec_number_of_variables()) by {
                assert(terms0@[k as int].0.spec_index() < state.spec_number_of_variables());
            }
        }
        let target_order = match state.literal_state(target_literal).order() {
            Some(order) => order,
            None => usize::MAX,
        };
        proof {
            if exists|o: int| assigned_at(trail, target_variable as nat, o) {
                let o = choose|o: int| assigned_at(trail, target_variable as nat, o);
                state.lemma_assigned_once(target_variable as nat, o);
            }
            assert(target_order == order_of_variable(trail, target_variable as nat));
        }
        proof {
            lemma_first_coefficient_some(terms0@, k as int);
        }
        let coefficient0 = constraint0.get_coefficient(target_literal).unwrap();
        let coefficient1 = constraint1.get_coefficient(target_literal.negation()).unwrap();
        let sup0 = constraint0.sup_literal_terms_before(target_order, state);
        let sup1 = constraint1.sup_literal_terms_before(target_order, state);
        let slack0 = sup0 as i128 - lower_bound0 as i128;
        let slack1 = sup1 as i128 - lower_bound1 as i128;
        let ghost parts = resolution_parts(
            terms0@,
            lower_bound0,
            terms1@,
            lower_bound1,
            target_literal,
            trail,
            target_order as int,
        );
        let c0 = coefficient0 as i128;
        let c1 = coefficient1 as i128;
        let product01 = match slack0.checked_mul(c1) {
            Some(p) => p,
            None => {
                return None;
            },
        };
        let product10 = match slack1.checked_mul(c0) {
            Some(p) => p,
            None => {
                return None;
            },
        };
        let slacks = match product01.checked_add(product10) {
            Some(p) => p,
            None => {
                return None;
            },
        };
        let coefficients = match c0.checked_mul(c1) {
            Some(p) => p,
            None => {
                return None;
            },
        };
        let mut output = RandomConstraint::new();
        if slacks < coefficients {
            proof {
                lemma_gcd_bound(coefficient0 as nat, coefficient1 as nat);
            }
            let g = gcd(coefficient0 as u128, coefficient1 as u128);
            proof {
                lemma_gcd_positive(coefficient0 as nat, coefficient1 as nat);
            }
            let k1 = coefficient1 as u128 / g;
            let k0 = coefficient0 as u128 / g;
            let part0 = scale(&terms0, k1);
            let part1 = scale(&terms1, k0);
            proof {
                lemma_scaled_bound(lower_bound0 as int, k1 as int);
                lemma_scaled_bound(lower_bound1 as int, k0 as int);
            }
            proof {
                assert(part0@ == parts.0 && part1@ == parts.2);
                assert(lower_bound0 * k1 == parts.1 && lower_bound1 * k0 == parts.3);
            }
            output.assign(part0.as_slice(), lower_bound0 as u128 * k1);
            if !output.try_add_assign(part1.as_slice(), lower_bound1 as u128 * k0) {
                return None;
            }
        } else if product01 > product10 {
            proof {
                assert(c0 > 0) by (nonlinear_arith)
                    requires
                        slack0 * c1 > slack1 * c0,
                        slack0 * c1 + slack1 * c0 >= c0 * c1,
                        slack0 < c0,
                        c0 >= 0,
                        c1 >= 0,
                {
                }
            }
            let wide0 = widen(&terms0);
            let is_core = core_of(&wide0, target_literal, target_order, state);
            match down_total_of(wide0.as_slice(), coefficient0 as u128, is_core.as_slice()) {
                Some(total) => {
                    if total > lower_bound0 as u128 {
                        return None;
                    }
                },
                None => {
                    return None;
                },
            }
            let (weakened_terms, weakened_lower_bound) = self.tighten.weaken(
                wide0.as_slice(),
                lower_bound0 as u128,
                coefficient0 as u128,
                is_core.as_slice(),
            );
            let part0 = scale_wide(&weakened_terms, coefficient1 as u128, weakened_lower_bound);
            let part1 = widen(&terms1);
            proof {
                lemma_scaled_bound(weakened_lower_bound as int, coefficient1 as int);
            }
            proof {
                assert(part0@ == parts.0 && part1@ == parts.2);
                assert(weakened_lower_bound * coefficient1 == parts.1 && lower_bound1 == parts.3);
            }
            output.assign(part0.as_slice(), weakened_lower_bound * coefficient1 as u128);
            if !output.try_add_assign(part1.as_slice(), lower_bound1 as u128) {
                return None;
            }
        } else {
            proof {
                assert(c1 > 0) by (nonlinear_arith)
                    requires
                        slack0 * c1 <= slack1 * c0,
                        slack0 * c1 + slack1 * c0 >= c0 * c1,
                        slack1 < c1,
                        slack0 < c0,
                        c0 >= 0,
                        c1 >= 0,
                        c0 > 0 || c1 > 0,
                {
                }
            }
            let wide1 = widen(&terms1);
            let is_core = core_of(&wide1, target_literal.negation(), target_order, state);
            match down_total_of(wide1.as_slice(), coefficient1 as u128, is_core.as_slice()) {
                Some(total) => {
                    if total > lower_bound1 as u128 {
                        return None;
                    }
                },
                None => {
                    return None;
                },
            }
            let (weakened_terms, weakened_lower_bound) = self.tighten.weaken(
                wide1.as_slice(),
                lower_bound1 as u128,
                coefficient1 as u128,
                is_core.as_slice(),
            );
            let part0 = widen(&terms0);
            let part1 = scale_wide(&weakened_terms, coefficient0 as u128, weakened_lower_bound);
            proof {
                lemma_scaled_bound(weakened_lower_bound as int, coefficient0 as int);
            }
            proof {
                assert(part0@ == parts.0 && part1@ == parts.2);
                assert(lower_bound0 == parts.1 && weakened_lower_bound * coefficient0 == parts.3);
            }
            output.assign(part0.as_slice(), lower_bound0 as u128);
            if !output.try_add_assign(part1.as_slice(), weakened_lower_bound * coefficient0 as u128) {
                return None;
            }
        }
        let ghost before = output;
        proof {
            before.lemma_entries();
            let (m, lower_bound) = resolution_sum(
                terms0@,
                lower_bound0,
                terms1@,
                lower_bound1,
                target_literal,
                trail,
                target_order as int,
            );
            assert(before.terms_map() == m);
            assert(before.spec_lower_bound() == lower_bound);
            assert(is_enumeration(before.terms_map(), before.entries()));
        }
        if !output.strengthen_fits() {
            return None;
        }
        proof {
            let (m, lower_bound) = resolution_sum(
                terms0@,
                lower_bound0,
                terms1@,
                lower_bound1,
                target_literal,
                trail,
                target_order as int,
            );
            assert forall|entries: Seq<(usize, (bool, u128))>| #[trigger] is_enumeration(m, entries) implies sum_below_entries(
                entries,
                lower_bound as u128,
            ) <= u128::MAX by {
                lemma_sum_below_agree(m, before.entries(), entries, lower_bound as u128);
            }
        }
        output.strengthen2();
        proof {
            assert(is_enumeration(before.terms_map(), before.entries()));
        }
        Some(output)
    }
}

impl Default for Resolve {
    fn default() -> (resolve: Self) {
        Self::new()
    }
}

/// A product of two 64-bit numbers fits in 128 bits.
proof fn lemma_scaled_bound(a: int, b: int)
    requires
        0 <= a <= u64::MAX,
        0 <= b <= u64::MAX,
    ensures
        a * b <= u128::MAX,
{
    assert(a * b <= u64::MAX * u64::MAX) by (nonlinear_arith)
        requires
            0 <= a <= u64::MAX,
            0 <= b <= u64::MAX,
    ;
}

/// The greatest common divisor of two positive numbers is positive and
/// divides neither to zero.
proof fn lemma_gcd_positive(a: nat, b: nat)
    requires
        a > 0 || b > 0,
    ensures
        spec_gcd(a, b) > 0,
    decreases b,
{
    if b > 0 {
        lemma_gcd_positive(b, a % b);
    }
}

/// The terms widened to 128 bits and multiplied by `k`.
fn scale(terms: &Vec<(Literal, u64)>, k: u128) -> (result: Vec<(Literal, u128)>)
    requires
        k <= u64::MAX,
    ensures
        result@ == scaled(widened(terms@), k),
{
    let mut result: Vec<(Literal, u128)> = Vec::new();
    let mut j: usize = 0;
    while j < terms.len()
        invariant
            j <= terms@.len(),
            k <= u64::MAX,
            result@ == scaled(widened(terms@.take(j as int)), k),
        decreases terms@.len() - j,
    {
        let (literal, coefficient) = terms[j];
        proof {
            lemma_scaled_bound(coefficient as int, k as int);
        }
        result.push((literal, coefficient as u128 * k));
        j = j + 1;
        proof {
            assert(result@ =~= scaled(widened(terms@.take(j as int)), k));
        }
    }
    proof {
        assert(terms@.take(terms@.len() as int) =~= terms@);
    }
    result
}

/// The terms widened to 128 bits.
fn widen(terms: &Vec<(Literal, u64)>) -> (result: Vec<(Literal, u128)>)
    ensures
        result@ == widened(terms@),
{
    let mut result: Vec<(Literal, u128)> = Vec::new();
    let mut j: usize = 0;
    while j < terms.len()
        invariant
            j <= terms@.len(),
            result@ == widened(terms@.take(j as int)),
        decreases terms@.len() - j,
    {
        let (literal, coefficient) = terms[j];
        result.push((literal, coefficient as u128));
        j = j + 1;
        proof {
            assert(result@ =~= widened(terms@.take(j as int)));
        }
    }
    proof {
        assert(terms@.take(terms@.len() as int) =~= terms@);
    }
    result
}

/// A literal of some term has a first coefficient.
proof fn lemma_first_coefficient_some(terms: Seq<(Literal, u64)>, k: int)
    requires
        0 <= k < terms.len(),
    ensures
        first_coefficient(terms, terms[k].0) is Some,
    decreases k,
{
    if k > 0 && terms[0].0 != terms[k].0 {
        assert(terms.drop_first()[k - 1] == terms[k]);
        lemma_first_coefficient_some(terms.drop_first(), k - 1);
    }
}

/// The terms multiplied by `k`, each coefficient being at most `bound`.
fn scale_wide(terms: &Vec<(Literal, u128)>, k: u128, bound: u128) -> (result: Vec<(Literal, u128)>)
    requires
        k <= u64::MAX,
        bound <= u64::MAX,
        forall|j: int| 0 <= j < terms@.len() ==> (#[trigger] terms@[j]).1 <= bound,
    ensures
        result@ == scaled(terms@, k),
{
    let mut result: Vec<(Literal, u128)> = Vec::new();
    let mut j: usize = 0;
    while j < terms.len()
        invariant
            j <= terms@.len(),
            k <= u64::MAX,
            bound <= u64::MAX,
            forall|i: int| 0 <= i < terms@.len() ==> (#[trigger] terms@[i]).1 <= bound,
            result@ == scaled(terms@.take(j as int), k),
        decreases terms@.len() - j,
    {
        let (literal, coefficient) = terms[j];
        proof {
            assert(terms@[j as int].1 <= bound);
            lemma_scaled_bound(coefficient as int, k as int);
        }
        result.push((literal, coefficient * k));
        j = j + 1;
        proof {
            assert(result@ =~= scaled(terms@.take(j as int), k));
        }
    }
    proof {
        assert(terms@.take(terms@.len() as int) =~= terms@);
    }
    result
}

/// Whether each term's literal is `target` or false before `order`.
fn core_of<E: Copy>(terms: &Vec<(Literal, u128)>, target: Literal, order: usize, state: &AssertionStack<E>) -> (flags: Vec<bool>)
    requires
        state.wf(),
        forall|j: int| 0 <= j < terms@.len() ==> (#[trigger] terms@[j]).0.spec_index() < state.spec_number_of_variables(),
    ensures
        flags@ == core_flags(terms@, target, state.trail(), order as int),
{
    let mut flags: Vec<bool> = Vec::new();
    let mut j: usize = 0;
    while j < terms.len()
        invariant
            j <= terms@.len(),
            state.wf(),
            forall|i: int| 0 <= i < terms@.len() ==> (#[trigger] terms@[i]).0.spec_index() < state.spec_number_of_variables(),
            flags@ == core_flags(terms@.take(j as int), target, state.trail(), order as int),
        decreases terms@.len() - j,
    {
        let literal = terms[j].0;
        proof {
            assert(terms@[j as int].0 == literal);
        }
        let flag = literal == target || state.literal_state(literal).is_false_before(order);
        flags.push(flag);
        j = j + 1;
        proof {
            assert(flags@ =~= core_flags(terms@.take(j as int), target, state.trail(), order as int));
        }
    }
    proof {
        assert(terms@.take(terms@.len() as int) =~= terms@);
    }
    flags
}

} // verus!
