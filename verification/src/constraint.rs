//! Pseudo-Boolean constraints `sum of coefficient * literal >= lower bound`
//! over literals, with non-negative coefficients.
use vstd::prelude::*;

use crate::assertion_state::{asserted_before, assigned_at, AssertionInfo, AssertionStack, NULL_ORDER};
use crate::compressed_constraint::{divides_all, drop_fixed_terms, keep_where, lhs_under, strengthen_terms, strengthened_view};
use crate::literal::Literal;

verus! {

/// The greatest common divisor, by Euclid's recursion; `gcd(a, 0) == a`.
pub open spec fn spec_gcd(a: nat, b: nat) -> nat
    decreases b,
{
    if b == 0 {
        a
    } else {
        spec_gcd(b, a % b)
    }
}

/// The greatest common divisor of `a` and `b`.
///
/// Trusted: `num::Integer::gcd` for `u128` (Stein's algorithm), which
/// returns the greatest common divisor of its arguments, the other argument
/// when one is `0`.
#[verifier::external_body]
pub fn gcd(a: u128, b: u128) -> (g: u128)
    ensures
        g == spec_gcd(a as nat, b as nat),
{
    num::Integer::gcd(&a, &b)
}

/// The greatest common divisor is at most the greater argument.
pub proof fn lemma_gcd_bound(a: nat, b: nat)
    ensures
        spec_gcd(a, b) <= if a >= b {
            a
        } else {
            b
        },
    decreases b,
{
    if b > 0 {
        lemma_gcd_bound(b, a % b);
    }
}

/// `a / b` rounded up.
pub open spec fn spec_div_ceil(a: nat, b: nat) -> nat {
    if a % b == 0 {
        a / b
    } else {
        a / b + 1
    }
}

/// `a / b` rounded up.
pub fn div_ceil(a: u64, b: u64) -> (q: u64)
    requires
        b > 0,
    ensures
        q == spec_div_ceil(a as nat, b as nat),
{
    if a % b == 0 {
        a / b
    } else {
        assert(a / b < u64::MAX) by (nonlinear_arith)
            requires
                b > 1,
                a <= u64::MAX,
        ;
        a / b + 1
    }
}

/// Each coefficient multiplied by `value`.
pub open spec fn multiplied(terms: Seq<(Literal, u64)>, value: u64) -> Seq<(Literal, u64)> {
    terms.map_values(|t: (Literal, u64)| (t.0, (t.1 * value) as u64))
}

/// The sum of the coefficients of `terms`.
pub open spec fn sum_coefficients(terms: Seq<(Literal, u64)>) -> int
    decreases terms.len(),
{
    if terms.len() == 0 {
        0
    } else {
        sum_coefficients(terms.drop_last()) + terms.last().1
    }
}

/// The sum of the coefficients of the terms whose literal satisfies `p`.
pub open spec fn sum_where(terms: Seq<(Literal, u64)>, p: spec_fn(Literal) -> bool) -> int
    decreases terms.len(),
{
    if terms.len() == 0 {
        0
    } else {
        sum_where(terms.drop_last(), p) + if p(terms.last().0) {
            terms.last().1 as int
        } else {
            0
        }
    }
}

/// The greatest coefficient of the terms whose literal satisfies `p`, or 0.
pub open spec fn max_where(terms: Seq<(Literal, u64)>, p: spec_fn(Literal) -> bool) -> int
    decreases terms.len(),
{
    if terms.len() == 0 {
        0
    } else {
        let rest = max_where(terms.drop_last(), p);
        if p(terms.last().0) && terms.last().1 > rest {
            terms.last().1 as int
        } else {
            rest
        }
    }
}

/// The coefficient of the first term of `literal`, if any.
pub open spec fn first_coefficient(terms: Seq<(Literal, u64)>, literal: Literal) -> Option<u64>
    decreases terms.len(),
{
    if terms.len() == 0 {
        None
    } else if terms[0].0 == literal {
        Some(terms[0].1)
    } else {
        first_coefficient(terms.drop_first(), literal)
    }
}

/// Every literal of `terms` is over one of `n` variables.
pub open spec fn literals_in_range(terms: Seq<(Literal, u64)>, n: nat) -> bool {
    forall|k: int| 0 <= k < terms.len() ==> (#[trigger] terms[k]).0.spec_index() < n
}

/// Whether `l` is false before `order` in `trail`.
pub open spec fn false_before<E>(trail: Seq<AssertionInfo<E>>, l: Literal, order: int) -> bool {
    asserted_before(trail, l.negated(), order)
}

/// Whether the variable of `l` is assigned before `order` in `trail`.
pub open spec fn assigned_before<E>(trail: Seq<AssertionInfo<E>>, l: Literal, order: int) -> bool {
    exists|k: int| assigned_at(trail, l.spec_index(), k) && k < order
}

/// Whether the variable of `l` was assigned at decision level 0.
pub open spec fn fixed_at_root<E>(trail: Seq<AssertionInfo<E>>, l: Literal) -> bool {
    exists|k: int| assigned_at(trail, l.spec_index(), k) && trail[k].decision_level == 0
}

/// Partial sums of a prefix extend by the next term.
pub proof fn lemma_sum_where_step(terms: Seq<(Literal, u64)>, p: spec_fn(Literal) -> bool, k: int)
    requires
        0 <= k < terms.len(),
    ensures
        sum_where(terms.subrange(0, k + 1), p) == sum_where(terms.subrange(0, k), p) + if p(
            terms[k].0,
        ) {
            terms[k].1 as int
        } else {
            0
        },
        max_where(terms.subrange(0, k + 1), p) == if p(terms[k].0) && terms[k].1 > max_where(
            terms.subrange(0, k),
            p,
        ) {
            terms[k].1 as int
        } else {
            max_where(terms.subrange(0, k), p)
        },
        sum_coefficients(terms.subrange(0, k + 1)) == sum_coefficients(terms.subrange(0, k))
            + terms[k].1,
{
    assert(terms.subrange(0, k + 1).drop_last() =~= terms.subrange(0, k));
}

/// A partial sum is between 0 and the sum of all coefficients.
pub proof fn lemma_sum_where_bounds(terms: Seq<(Literal, u64)>, p: spec_fn(Literal) -> bool)
    ensures
        0 <= sum_where(terms, p) <= sum_coefficients(terms),
        0 <= max_where(terms, p),
        forall|k: int| 0 <= k < terms.len() && p(terms[k].0) ==> terms[k].1 <= max_where(terms, p),
        max_where(terms, p) == 0 || exists|k: int|
            0 <= k < terms.len() && p(terms[k].0) && terms[k].1 == max_where(terms, p),
    decreases terms.len(),
{
    if terms.len() > 0 {
        lemma_sum_where_bounds(terms.drop_last(), p);
        let rest = terms.drop_last();
        assert forall|k: int| 0 <= k < terms.len() && p(terms[k].0) implies terms[k].1 <= max_where(
            terms,
            p,
        ) by {
            if k < terms.len() - 1 {
                assert(terms[k] == rest[k]);
            }
        }
        if max_where(terms, p) != 0 && max_where(terms, p) == max_where(rest, p) {
            let k = choose|k: int|
                0 <= k < rest.len() && p(rest[k].0) && rest[k].1 == max_where(rest, p);
            assert(terms[k] == rest[k]);
        }
    }
}

/// A constraint `sum of coefficient * literal >= lower bound`.
pub trait Constraint {
    /// The terms, in order.
    spec fn spec_terms(&self) -> Seq<(Literal, u64)>;

    /// The lower bound.
    spec fn spec_lower_bound(&self) -> u64;

    /// The terms, in order.
    fn iter_terms(&self) -> (terms: Vec<(Literal, u64)>)
        ensures
            terms@ == self.spec_terms(),
    ;

    /// The lower bound.
    fn lower_bound(&self) -> (lower_bound: u64)
        ensures
            lower_bound == self.spec_lower_bound(),
    ;

    /// The coefficient of the first term of `literal`, if any.
    fn get_coefficient(&self, literal: Literal) -> (coefficient: Option<u64>)
        ensures
            coefficient == first_coefficient(self.spec_terms(), literal),
    {
        let terms = self.iter_terms();
        let mut k: usize = 0;
        proof {
            assert(terms@.subrange(0, terms@.len() as int) =~= terms@);
        }
        while k < terms.len()
            invariant
                terms@ == self.spec_terms(),
                k <= terms@.len(),
                first_coefficient(terms@, literal) == first_coefficient(
                    terms@.subrange(k as int, terms@.len() as int),
                    literal,
                ),
            decreases terms@.len() - k,
        {
            let ghost rest = terms@.subrange(k as int, terms@.len() as int);
            if terms[k].0 == literal {
                return Some(terms[k].1);
            }
            proof {
                assert(rest.drop_first() =~= terms@.subrange(k as int + 1, terms@.len() as int));
            }
            k = k + 1;
        }
        None
    }

    /// The sum of the coefficients of the literals that are not false before
    /// `order`: the greatest value the left-hand side can still take.
    fn sup_literal_terms_before<E: Copy>(&self, order: usize, state: &AssertionStack<E>) -> (sup: u64)
        requires
            state.wf(),
            literals_in_range(self.spec_terms(), state.spec_number_of_variables()),
            sum_coefficients(self.spec_terms()) <= u64::MAX,
        ensures
            sup == sum_where(
                self.spec_terms(),
                |l: Literal| !false_before(state.trail(), l, order as int),
            ),
    {
        let terms = self.iter_terms();
        let ghost p = |l: Literal| !false_before(state.trail(), l, order as int);
        let mut sup: u64 = 0;
        let mut k: usize = 0;
        while k < terms.len()
            invariant
                terms@ == self.spec_terms(),
                state.wf(),
                literals_in_range(terms@, state.spec_number_of_variables()),
                sum_coefficients(terms@) <= u64::MAX,
                k <= terms@.len(),
                sup == sum_where(terms@.subrange(0, k as int), p),
                p == (|l: Literal| !false_before(state.trail(), l, order as int)),
            decreases terms@.len() - k,
        {
            let (literal, coefficient) = terms[k];
            proof {
                lemma_sum_where_step(terms@, p, k as int);
                lemma_sum_where_bounds(terms@.subrange(0, k as int + 1), p);
                lemma_sum_prefix(terms@, k as int + 1);
            }
            if !state.literal_state(literal).is_false_before(order) {
                sup = sup + coefficient;
            }
            k = k + 1;
        }
        proof {
            assert(terms@.subrange(0, terms@.len() as int) =~= terms@);
        }
        sup
    }

    /// The sum of the coefficients of the literals that are true before
    /// `order`: the least value the left-hand side can still take.
    fn inf_literal_terms_before<E: Copy>(&self, order: usize, state: &AssertionStack<E>) -> (inf: u64)
        requires
            state.wf(),
            literals_in_range(self.spec_terms(), state.spec_number_of_variables()),
            sum_coefficients(self.spec_terms()) <= u64::MAX,
        ensures
            inf == sum_where(
                self.spec_terms(),
                |l: Literal| asserted_before(state.trail(), l, order as int),
            ),
    {
        let terms = self.iter_terms();
        let ghost p = |l: Literal| asserted_before(state.trail(), l, order as int);
        let mut inf: u64 = 0;
        let mut k: usize = 0;
        while k < terms.len()
            invariant
                terms@ == self.spec_terms(),
                state.wf(),
                literals_in_range(terms@, state.spec_number_of_variables()),
                sum_coefficients(terms@) <= u64::MAX,
                k <= terms@.len(),
                inf == sum_where(terms@.subrange(0, k as int), p),
                p == (|l: Literal| asserted_before(state.trail(), l, order as int)),
            decreases terms@.len() - k,
        {
            let (literal, coefficient) = terms[k];
            proof {
                lemma_sum_where_step(terms@, p, k as int);
                lemma_sum_where_bounds(terms@.subrange(0, k as int + 1), p);
                lemma_sum_prefix(terms@, k as int + 1);
            }
            if state.literal_state(literal).is_true_before(order) {
                inf = inf + coefficient;
            }
            k = k + 1;
        }
        proof {
            assert(terms@.subrange(0, terms@.len() as int) =~= terms@);
        }
        inf
    }

    /// The greatest coefficient of a literal unassigned before `order`, or 0.
    fn max_unassigned_coefficient_before<E: Copy>(&self, order: usize, state: &AssertionStack<E>) -> (max: u64)
        requires
            state.wf(),
            literals_in_range(self.spec_terms(), state.spec_number_of_variables()),
        ensures
            max == max_where(
                self.spec_terms(),
                |l: Literal| !assigned_before(state.trail(), l, order as int),
            ),
    {
        let terms = self.iter_terms();
        let ghost p = |l: Literal| !assigned_before(state.trail(), l, order as int);
        let mut max: u64 = 0;
        let mut k: usize = 0;
        while k < terms.len()
            invariant
                terms@ == self.spec_terms(),
                state.wf(),
                literals_in_range(terms@, state.spec_number_of_variables()),
                k <= terms@.len(),
                max == max_where(terms@.subrange(0, k as int), p),
                p == (|l: Literal| !assigned_before(state.trail(), l, order as int)),
            decreases terms@.len() - k,
        {
            let (literal, coefficient) = terms[k];
            proof {
                lemma_sum_where_step(terms@, p, k as int);
            }
            if !state.literal_state(literal).is_assigned_before(order) && coefficient > max {
                max = coefficient;
            }
            k = k + 1;
        }
        proof {
            assert(terms@.subrange(0, terms@.len() as int) =~= terms@);
        }
        max
    }

    /// `sup_literal_terms_before` over every assertion.
    fn sup_literal_terms<E: Copy>(&self, state: &AssertionStack<E>) -> (sup: u64)
        requires
            state.wf(),
            literals_in_range(self.spec_terms(), state.spec_number_of_variables()),
            sum_coefficients(self.spec_terms()) <= u64::MAX,
        ensures
            sup == sum_where(
                self.spec_terms(),
                |l: Literal| !false_before(state.trail(), l, NULL_ORDER as int),
            ),
    {
        self.sup_literal_terms_before(NULL_ORDER, state)
    }

    /// `inf_literal_terms_before` over every assertion.
    fn inf_literal_terms<E: Copy>(&self, state: &AssertionStack<E>) -> (inf: u64)
        requires
            state.wf(),
            literals_in_range(self.spec_terms(), state.spec_number_of_variables()),
            sum_coefficients(self.spec_terms()) <= u64::MAX,
        ensures
            inf == sum_where(
                self.spec_terms(),
                |l: Literal| asserted_before(state.trail(), l, NULL_ORDER as int),
            ),
    {
        self.inf_literal_terms_before(NULL_ORDER, state)
    }

    /// `max_unassigned_coefficient_before` over every assertion.
    fn max_unassigned_coefficient<E: Copy>(&self, state: &AssertionStack<E>) -> (max: u64)
        requires
            state.wf(),
            literals_in_range(self.spec_terms(), state.spec_number_of_variables()),
        ensures
            max == max_where(
                self.spec_terms(),
                |l: Literal| !assigned_before(state.trail(), l, NULL_ORDER as int),
            ),
    {
        self.max_unassigned_coefficient_before(NULL_ORDER, state)
    }

    /// The constraint with every coefficient and the lower bound multiplied
    /// by `value`.
    fn mul(&self, value: u64) -> (product: ConstraintView)
        requires
            forall|k: int|
                0 <= k < self.spec_terms().len() ==> (#[trigger] self.spec_terms()[k]).1 * value <= u64::MAX,
            self.spec_lower_bound() * value <= u64::MAX,
        ensures
            product.view_terms() == multiplied(self.spec_terms(), value),
            product.view_lower_bound() == self.spec_lower_bound() * value,
    {
        let terms = self.iter_terms();
        let ghost all = terms@;
        let mut products: Vec<(Literal, u64)> = Vec::new();
        let mut k: usize = 0;
        while k < terms.len()
            invariant
                terms@ == all,
                all == self.spec_terms(),
                forall|j: int| 0 <= j < all.len() ==> (#[trigger] all[j]).1 * value <= u64::MAX,
                k <= all.len(),
                products@ == multiplied(all.subrange(0, k as int), value),
            decreases all.len() - k,
        {
            let (literal, coefficient) = terms[k];
            assert(all[k as int].1 * value <= u64::MAX);
            products.push((literal, coefficient * value));
            k = k + 1;
            proof {
                assert(products@ =~= multiplied(all.subrange(0, k as int), value));
            }
        }
        proof {
            assert(all.subrange(0, all.len() as int) =~= all);
        }
        ConstraintView::new(products, self.lower_bound() * value)
    }

    /// The constraint without the terms whose variable was assigned at
    /// decision level 0, the coefficients of those that are true taken off
    /// the lower bound.
    fn into_drop_fixed_variables<E: Copy>(self, state: &AssertionStack<E>) -> (dropped: ConstraintView)
        where Self: Sized,
        requires
            state.wf(),
            literals_in_range(self.spec_terms(), state.spec_number_of_variables()),
            sum_coefficients(self.spec_terms()) <= u64::MAX,
            sum_where(
                self.spec_terms(),
                |l: Literal| fixed_at_root(state.trail(), l) && asserted_before(state.trail(), l, NULL_ORDER as int),
            ) <= self.spec_lower_bound(),
        ensures
            dropped.view_terms() == keep_where(
                self.spec_terms(),
                |t: (Literal, u64)| !fixed_at_root(state.trail(), t.0),
            ),
            dropped.view_lower_bound() == self.spec_lower_bound() - sum_where(
                self.spec_terms(),
                |l: Literal| fixed_at_root(state.trail(), l) && asserted_before(state.trail(), l, NULL_ORDER as int),
            ),
    {
        let terms = self.iter_terms();
        let (kept, lower_bound) = drop_fixed_terms(&terms, self.lower_bound(), state);
        ConstraintView::new(kept, lower_bound)
    }

    /// The constraint strengthened as `strengthened_view` says: coefficients
    /// capped at the lower bound, then reduced to a cardinality constraint
    /// or divided by their common divisor.
    fn into_strengthen<E: Copy>(self, state: &AssertionStack<E>) -> (strengthened: ConstraintView)
        where Self: Sized,
        requires
            sum_coefficients(self.spec_terms()) <= u64::MAX,
        ensures
            (strengthened.view_terms(), strengthened.view_lower_bound()) == strengthened_view(
                self.spec_terms(),
                self.spec_lower_bound(),
            ),
            forall|assignment: spec_fn(nat) -> bool|
                #![trigger lhs_under(strengthened.view_terms(), assignment)]
                (lhs_under(strengthened.view_terms(), assignment) >= strengthened.view_lower_bound()) <==> (
                lhs_under(self.spec_terms(), assignment) >= self.spec_lower_bound()),
            strengthened.view_lower_bound() > 0 ==> forall|k: int|
                0 <= k < strengthened.view_terms().len() ==> (#[trigger] strengthened.view_terms()[k]).1
                    <= strengthened.view_lower_bound(),
            forall|d: nat|
                #![trigger divides_all(strengthened.view_terms(), d)]
                d > 1 && strengthened.view_lower_bound() > 1 && (exists|k: int|
                    0 <= k < strengthened.view_terms().len() && (#[trigger] strengthened.view_terms()[k]).1 > 0)
                    ==> !divides_all(strengthened.view_terms(), d),
    {
        self.strengthen(state)
    }

    /// `into_strengthen` on a borrowed constraint.
    fn strengthen<E: Copy>(&self, _state: &AssertionStack<E>) -> (strengthened: ConstraintView)
        requires
            sum_coefficients(self.spec_terms()) <= u64::MAX,
        ensures
            (strengthened.view_terms(), strengthened.view_lower_bound()) == strengthened_view(
                self.spec_terms(),
                self.spec_lower_bound(),
            ),
            forall|assignment: spec_fn(nat) -> bool|
                #![trigger lhs_under(strengthened.view_terms(), assignment)]
                (lhs_under(strengthened.view_terms(), assignment) >= strengthened.view_lower_bound()) <==> (
                lhs_under(self.spec_terms(), assignment) >= self.spec_lower_bound()),
            strengthened.view_lower_bound() > 0 ==> forall|k: int|
                0 <= k < strengthened.view_terms().len() ==> (#[trigger] strengthened.view_terms()[k]).1
                    <= strengthened.view_lower_bound(),
            forall|d: nat|
                #![trigger divides_all(strengthened.view_terms(), d)]
                d > 1 && strengthened.view_lower_bound() > 1 && (exists|k: int|
                    0 <= k < strengthened.view_terms().len() && (#[trigger] strengthened.view_terms()[k]).1 > 0)
                    ==> !divides_all(strengthened.view_terms(), d),
    {
        let terms = self.iter_terms();
        let (kept, lower_bound) = strengthen_terms(&terms, self.lower_bound());
        ConstraintView::new(kept, lower_bound)
    }
}

/// A sum over a predicate that is the disjoint union of two others is the
/// sum of their sums; the greatest coefficient is the greater of theirs.
pub proof fn lemma_where_split(
    terms: Seq<(Literal, u64)>,
    p: spec_fn(Literal) -> bool,
    q: spec_fn(Literal) -> bool,
    r: spec_fn(Literal) -> bool,
)
    requires
        forall|l: Literal| #[trigger] p(l) == (q(l) || r(l)),
    ensures
        (forall|l: Literal| !(#[trigger] q(l) && r(l))) ==> sum_where(terms, p) == sum_where(terms, q)
            + sum_where(terms, r),
        max_where(terms, p) == if max_where(terms, q) >= max_where(terms, r) {
            max_where(terms, q)
        } else {
            max_where(terms, r)
        },
    decreases terms.len(),
{
    if terms.len() > 0 {
        lemma_where_split(terms.drop_last(), p, q, r);
        lemma_sum_where_bounds(terms.drop_last(), q);
        lemma_sum_where_bounds(terms.drop_last(), r);
    }
}

/// Sums and greatest coefficients over equivalent predicates are equal.
pub proof fn lemma_where_ext(terms: Seq<(Literal, u64)>, p: spec_fn(Literal) -> bool, q: spec_fn(Literal) -> bool)
    requires
        forall|l: Literal| #[trigger] p(l) == q(l),
    ensures
        sum_where(terms, p) == sum_where(terms, q),
        max_where(terms, p) == max_where(terms, q),
    decreases terms.len(),
{
    if terms.len() > 0 {
        lemma_where_ext(terms.drop_last(), p, q);
    }
}

/// Over a predicate that implies another, the greatest coefficient is at most
/// the sum.
pub proof fn lemma_max_le_sum(terms: Seq<(Literal, u64)>, p: spec_fn(Literal) -> bool, q: spec_fn(Literal) -> bool)
    requires
        forall|l: Literal| #[trigger] p(l) ==> q(l),
    ensures
        max_where(terms, p) <= sum_where(terms, q),
    decreases terms.len(),
{
    if terms.len() > 0 {
        lemma_max_le_sum(terms.drop_last(), p, q);
        lemma_sum_where_bounds(terms.drop_last(), q);
    }
}

/// The sum of the coefficients of a prefix is at most the sum of all.
pub proof fn lemma_sum_prefix(terms: Seq<(Literal, u64)>, k: int)
    requires
        0 <= k <= terms.len(),
    ensures
        0 <= sum_coefficients(terms.subrange(0, k)) <= sum_coefficients(terms),
    decreases terms.len() - k,
{
    if k < terms.len() {
        lemma_sum_prefix(terms, k + 1);
        assert(terms.subrange(0, k + 1).drop_last() =~= terms.subrange(0, k));
    } else {
        assert(terms.subrange(0, k) =~= terms);
    }
    lemma_sum_nonneg(terms.subrange(0, k));
}

/// Sums of coefficients are non-negative.
pub proof fn lemma_sum_nonneg(terms: Seq<(Literal, u64)>)
    ensures
        sum_coefficients(terms) >= 0,
    decreases terms.len(),
{
    if terms.len() > 0 {
        lemma_sum_nonneg(terms.drop_last());
    }
}

/// A copy of `terms`.
pub fn copy_terms(terms: &[(Literal, u64)]) -> (copy: Vec<(Literal, u64)>)
    ensures
        copy@ == terms@,
{
    let mut copy: Vec<(Literal, u64)> = Vec::new();
    let mut k: usize = 0;
    while k < terms.len()
        invariant
            k <= terms@.len(),
            copy@ == terms@.subrange(0, k as int),
        decreases terms@.len() - k,
    {
        copy.push(terms[k]);
        k = k + 1;
        proof {
            assert(copy@ =~= terms@.subrange(0, k as int));
        }
    }
    proof {
        assert(terms@.subrange(0, terms@.len() as int) =~= terms@);
    }
    copy
}

/// A constraint given by its terms and lower bound.
#[derive(Clone, Debug)]
pub struct ConstraintView {
    literal_terms: Vec<(Literal, u64)>,
    lower_bound: u64,
}

impl ConstraintView {
    /// The terms.
    pub closed spec fn view_terms(&self) -> Seq<(Literal, u64)> {
        self.literal_terms@
    }

    /// The lower bound.
    pub closed spec fn view_lower_bound(&self) -> u64 {
        self.lower_bound
    }

    /// The constraint with `literal_terms` and `lower_bound`.
    pub fn new(literal_terms: Vec<(Literal, u64)>, lower_bound: u64) -> (constraint: Self)
        ensures
            constraint.view_terms() == literal_terms@,
            constraint.view_lower_bound() == lower_bound,
    {
        Self { literal_terms, lower_bound }
    }
}

impl Constraint for ConstraintView {
    open spec fn spec_terms(&self) -> Seq<(Literal, u64)> {
        self.view_terms()
    }

    open spec fn spec_lower_bound(&self) -> u64 {
        self.view_lower_bound()
    }

    fn iter_terms(&self) -> (terms: Vec<(Literal, u64)>) {
        copy_terms(&self.literal_terms)
    }

    fn lower_bound(&self) -> (lower_bound: u64) {
        self.lower_bound
    }
}

} // verus!
