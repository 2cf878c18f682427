//! Scaling a learnt constraint down so that its coefficients sum to at most
//! `2^52`.
use vstd::prelude::*;

use crate::assertion_state::AssertionStack;
use crate::compressed_constraint::{
    holds_under, lemma_strengthen_sound, lhs_under, nonzero_terms, strengthened, CompressedConstraint,
};
use crate::constraint::{lemma_sum_prefix, false_before, literals_in_range, sum_coefficients, sum_where, Constraint};
use crate::literal::Literal;
use crate::random_constraint::RandomConstraint;
use crate::round::{
    ceil_div, ceil_div_u128, down_total, down_total_of, initial_terms, lemma_weaken_sound, value_under, weakened, Round,
};

verus! {

/// The greatest total of coefficients that a rescaled constraint has.
pub const RESCALE_LIMIT: u128 = 0x10_0000_0000_0000;

/// The sum of the coefficients.
pub open spec fn sum_coefficients_wide(terms: Seq<(Literal, u128)>) -> int
    decreases terms.len(),
{
    if terms.len() == 0 {
        0
    } else {
        sum_coefficients_wide(terms.drop_last()) + terms.last().1
    }
}

/// Every coefficient fits in 64 bits.
pub open spec fn fits_narrow(terms: Seq<(Literal, u128)>) -> bool {
    forall|k: int| 0 <= k < terms.len() ==> (#[trigger] terms[k]).1 <= u64::MAX
}

/// The terms with 64-bit coefficients.
pub open spec fn narrowed(terms: Seq<(Literal, u128)>) -> Seq<(Literal, u64)> {
    terms.map_values(|t: (Literal, u128)| (t.0, t.1 as u64))
}

/// Whether each term's literal is false before `order`: the literals whose
/// coefficients are rounded up.
pub open spec fn false_flags<E>(
    terms: Seq<(Literal, u128)>,
    trail: Seq<crate::assertion_state::AssertionInfo<E>>,
    order: int,
) -> Seq<bool> {
    terms.map_values(|t: (Literal, u128)| false_before(trail, t.0, order))
}

/// The divisor of a constraint whose `n` coefficients sum to `sum`.
pub open spec fn rescale_divisor(sum: int, n: int) -> int {
    ceil_div(sum, RESCALE_LIMIT - n)
}

/// The divided constraint, before it is narrowed, when the coefficients sum
/// to more than the limit.
pub open spec fn rescale_weakened<E>(
    terms: Seq<(Literal, u128)>,
    lower_bound: u128,
    trail: Seq<crate::assertion_state::AssertionInfo<E>>,
    order: int,
) -> (Seq<(Literal, u128)>, u128) {
    weakened(
        terms,
        lower_bound,
        rescale_divisor(sum_coefficients_wide(terms), terms.len() as int) as u128,
        false_flags(terms, trail, order),
    )
}

/// The rescaled constraint: the constraint itself, narrowed, when its
/// coefficients sum to at most the limit; otherwise the constraint divided
/// (see `weakened`) by the sum over the limit less the number of terms,
/// rounded up, the literals false before `order` rounding up, narrowed and
/// strengthened.
pub open spec fn rescaled<E>(
    terms: Seq<(Literal, u128)>,
    lower_bound: u128,
    trail: Seq<crate::assertion_state::AssertionInfo<E>>,
    order: int,
) -> (Seq<(Literal, u64)>, u64) {
    if sum_coefficients_wide(terms) <= RESCALE_LIMIT {
        (nonzero_terms(narrowed(terms)), lower_bound as u64)
    } else {
        let (w, l) = rescale_weakened(terms, lower_bound, trail, order);
        strengthened(nonzero_terms(narrowed(w)), l as u64)
    }
}

/// The inputs on which rescaling stays within its integer types.
pub open spec fn rescale_fits<E>(
    terms: Seq<(Literal, u128)>,
    lower_bound: u128,
    trail: Seq<crate::assertion_state::AssertionInfo<E>>,
    order: int,
) -> bool {
    &&& sum_coefficients_wide(terms) <= u128::MAX
    &&& sum_coefficients_wide(terms) <= RESCALE_LIMIT ==> lower_bound <= u64::MAX
    &&& sum_coefficients_wide(terms) > RESCALE_LIMIT ==> {
        let d = rescale_divisor(sum_coefficients_wide(terms), terms.len() as int);
        let (w, l) = rescale_weakened(terms, lower_bound, trail, order);
        &&& terms.len() < RESCALE_LIMIT
        &&& down_total(initial_terms(terms, d as u128, false_flags(terms, trail, order))) <= lower_bound
        &&& fits_narrow(w)
        &&& l <= u64::MAX
        &&& sum_coefficients(nonzero_terms(narrowed(w))) <= u64::MAX
    }
}

/// Whether every coefficient fits in 64 bits.
fn all_narrow(terms: &Vec<(Literal, u128)>) -> (narrow: bool)
    ensures
        narrow == fits_narrow(terms@),
{
    let mut k: usize = 0;
    while k < terms.len()
        invariant
            k <= terms@.len(),
            forall|j: int| 0 <= j < k ==> (#[trigger] terms@[j]).1 <= u64::MAX,
        decreases terms@.len() - k,
    {
        if terms[k].1 > u64::MAX as u128 {
            return false;
        }
        k = k + 1;
    }
    true
}

/// Whether the coefficients sum to at most `u64::MAX`.
pub(crate) fn coefficients_fit(terms: &Vec<(Literal, u64)>) -> (fit: bool)
    ensures
        fit == (sum_coefficients(terms@) <= u64::MAX),
{
    let mut sum: u64 = 0;
    let mut k: usize = 0;
    while k < terms.len()
        invariant
            k <= terms@.len(),
            sum == sum_coefficients(terms@.subrange(0, k as int)),
        decreases terms@.len() - k,
    {
        proof {
            assert(terms@.subrange(0, k as int + 1).drop_last() =~= terms@.subrange(0, k as int));
        }
        match sum.checked_add(terms[k].1) {
            Some(t) => {
                sum = t;
            },
            None => {
                proof {
                    lemma_sum_prefix(terms@, k as int + 1);
                }
                return false;
            },
        }
        k = k + 1;
    }
    proof {
        assert(terms@.subrange(0, terms@.len() as int) =~= terms@);
    }
    true
}

/// Narrows the coefficients to 64 bits.
fn narrow(terms: &Vec<(Literal, u128)>) -> (narrow_terms: Vec<(Literal, u64)>)
    requires
        fits_narrow(terms@),
    ensures
        narrow_terms@ == narrowed(terms@),
{
    let mut narrow_terms: Vec<(Literal, u64)> = Vec::new();
    let mut k: usize = 0;
    while k < terms.len()
        invariant
            k <= terms@.len(),
            fits_narrow(terms@),
            narrow_terms@ == narrowed(terms@.take(k as int)),
        decreases terms@.len() - k,
    {
        let (literal, coefficient) = terms[k];
        assert(terms@[k as int].1 <= u64::MAX);
        narrow_terms.push((literal, coefficient as u64));
        k = k + 1;
        proof {
            assert(narrow_terms@ =~= narrowed(terms@.take(k as int)));
        }
    }
    proof {
        assert(terms@.take(terms@.len() as int) =~= terms@);
    }
    narrow_terms
}

/// Narrowing coefficients that fit keeps the value.
proof fn lemma_narrowed_value(terms: Seq<(Literal, u128)>, assignment: spec_fn(nat) -> bool)
    requires
        fits_narrow(terms),
    ensures
        lhs_under(narrowed(terms), assignment) == value_under(terms, assignment),
    decreases terms.len(),
{
    if terms.len() > 0 {
        let rest = terms.drop_last();
        assert(narrowed(terms).drop_last() =~= narrowed(rest));
        assert forall|k: int| 0 <= k < rest.len() implies (#[trigger] rest[k]).1 <= u64::MAX by {
            assert(rest[k] == terms[k]);
        }
        assert(terms[terms.len() - 1].1 <= u64::MAX);
        lemma_narrowed_value(rest, assignment);
    }
}

/// Dropping the zero terms keeps the value.
pub(crate) proof fn lemma_nonzero_value(terms: Seq<(Literal, u64)>, p: spec_fn(Literal) -> bool)
    ensures
        sum_where(nonzero_terms(terms), p) == sum_where(terms, p),
    decreases terms.len(),
{
    if terms.len() > 0 {
        lemma_nonzero_value(terms.drop_last(), p);
        if terms.last().1 != 0 {
            assert(nonzero_terms(terms).drop_last() =~= nonzero_terms(terms.drop_last()));
        }
    }
}

/// Rescaling is sound: an assignment that satisfies a constraint satisfies
/// its rescaling (see `rescale`).
pub proof fn lemma_rescale_sound<E>(
    terms: Seq<(Literal, u128)>,
    lower_bound: u128,
    trail: Seq<crate::assertion_state::AssertionInfo<E>>,
    order: int,
    assignment: spec_fn(nat) -> bool,
)
    requires
        rescale_fits(terms, lower_bound, trail, order),
        value_under(terms, assignment) >= lower_bound,
    ensures
        lhs_under(rescaled(terms, lower_bound, trail, order).0, assignment) >= rescaled(
            terms,
            lower_bound,
            trail,
            order,
        ).1,
{
    let p = |l: Literal| holds_under(l, assignment);
    let sum = sum_coefficients_wide(terms);
    if sum <= RESCALE_LIMIT {
        assert forall|j: int| 0 <= j < terms.len() implies (#[trigger] terms[j]).1 <= u64::MAX by {
            lemma_term_below_sum(terms, j);
        }
        lemma_narrowed_value(terms, assignment);
        lemma_nonzero_value(narrowed(terms), p);
    } else {
        let n = terms.len() as int;
        let d = rescale_divisor(sum, n);
        assert(0 < d <= sum) by (nonlinear_arith)
            requires
                d == ceil_div(sum, RESCALE_LIMIT - n),
                sum > RESCALE_LIMIT,
                RESCALE_LIMIT - n > 0,
        ;
        let core = false_flags(terms, trail, order);
        let (w, l) = rescale_weakened(terms, lower_bound, trail, order);
        lemma_weaken_sound(terms, lower_bound, d as u128, core, assignment);
        lemma_narrowed_value(w, assignment);
        lemma_nonzero_value(narrowed(w), p);
        lemma_strengthen_sound(nonzero_terms(narrowed(w)), l as u64, assignment);
    }
}

/// Scales learnt constraints down.
#[derive(Clone, Copy, Debug)]
pub struct Rescale {
    round: Round,
}

impl Rescale {
    /// A rescaler.
    pub fn new() -> (rescale: Self) {
        Self { round: Round::new() }
    }

    /// `constraint` with 64-bit coefficients that sum to at most `2^52`
    /// (see `rescaled`), the literals false before `conflict_order` being
    /// the ones rounded up.
    pub fn rescale<E: Copy>(
        &self,
        constraint: &RandomConstraint,
        conflict_order: usize,
        state: &AssertionStack<E>,
    ) -> (output: Option<CompressedConstraint>)
        requires
            constraint.wf(),
            state.wf(),
            literals_in_range(narrowed(constraint.spec_terms()), state.spec_number_of_variables()),
        ensures
            rescale_fits(
                constraint.spec_terms(),
                constraint.spec_lower_bound(),
                state.trail(),
                conflict_order as int,
            ) ==> output is Some,
            output is Some ==> rescale_fits(
                constraint.spec_terms(),
                constraint.spec_lower_bound(),
                state.trail(),
                conflict_order as int,
            ),
            output matches Some(o) ==> (o.spec_terms(), o.spec_lower_bound()) == rescaled(
                constraint.spec_terms(),
                constraint.spec_lower_bound(),
                state.trail(),
                conflict_order as int,
            ),
    {
        let terms = constraint.iter_terms();
        let lower_bound = constraint.lower_bound();
        let mut sum: u128 = 0;
        let mut k: usize = 0;
        proof {
            lemma_sum_wide_prefix(terms@, 0);
        }
        while k < terms.len()
            invariant
                k <= terms@.len(),
                terms@ == constraint.spec_terms(),
                sum == sum_coefficients_wide(terms@.take(k as int)),
            decreases terms@.len() - k,
        {
            proof {
                assert(terms@.take(k as int + 1).drop_last() =~= terms@.take(k as int));
                lemma_sum_wide_prefix(terms@, k as int + 1);
            }
            match sum.checked_add(terms[k].1) {
                Some(t) => {
                    sum = t;
                },
                None => {
                    proof {
                        lemma_sum_wide_prefix(terms@, k as int + 1);
                    }
                    return None;
                },
            }
            k = k + 1;
        }
        proof {
            assert(terms@.take(terms@.len() as int) =~= terms@);
        }
        if sum <= RESCALE_LIMIT {
            if lower_bound > u64::MAX as u128 {
                return None;
            }
            proof {
                assert forall|j: int| 0 <= j < terms@.len() implies (#[trigger] terms@[j]).1 <= u64::MAX by {
                    lemma_term_below_sum(terms@, j);
                }
            }
            let narrow_terms = narrow(&terms);
            return Some(CompressedConstraint::new(narrow_terms, lower_bound as u64));
        }
        if terms.len() as u128 >= RESCALE_LIMIT {
            return None;
        }
        let n = terms.len() as u128;
        let divisor = ceil_div_u128(sum, RESCALE_LIMIT - n);
        proof {
            assert(divisor > 0) by (nonlinear_arith)
                requires
                    divisor == ceil_div(sum as int, RESCALE_LIMIT - n),
                    sum > RESCALE_LIMIT,
                    RESCALE_LIMIT - n > 0,
            {
            }
        }
        let mut is_core: Vec<bool> = Vec::new();
        let mut k: usize = 0;
        while k < terms.len()
            invariant
                k <= terms@.len(),
                state.wf(),
                terms@ == constraint.spec_terms(),
                literals_in_range(narrowed(terms@), state.spec_number_of_variables()),
                is_core@ == false_flags(terms@.take(k as int), state.trail(), conflict_order as int),
            decreases terms@.len() - k,
        {
            let literal = terms[k].0;
            proof {
                assert(narrowed(terms@)[k as int].0 == literal);
            }
            let flag = state.literal_state(literal).is_false_before(conflict_order);
            is_core.push(flag);
            k = k + 1;
            proof {
                assert(is_core@ =~= false_flags(terms@.take(k as int), state.trail(), conflict_order as int));
            }
        }
        proof {
            assert(terms@.take(terms@.len() as int) =~= terms@);
        }
        match down_total_of(terms.as_slice(), divisor, is_core.as_slice()) {
            Some(total) => {
                if total > lower_bound {
                    return None;
                }
            },
            None => {
                return None;
            },
        }
        let (weakened_terms, weakened_lower_bound) = self.round.weaken(
            terms.as_slice(),
            lower_bound,
            divisor,
            is_core.as_slice(),
        );
        if !all_narrow(&weakened_terms) || weakened_lower_bound > u64::MAX as u128 {
            return None;
        }
        let narrow_terms = narrow(&weakened_terms);
        let mut output = CompressedConstraint::new(narrow_terms, weakened_lower_bound as u64);
        if !coefficients_fit(&output.iter_terms()) {
            return None;
        }
        proof {
            crate::compressed_constraint::lemma_sum_below_bounds(output.spec_terms(), output.spec_lower_bound(), 0);
        }
        output.strengthen2(state);
        Some(output)
    }
}

impl Default for Rescale {
    fn default() -> (rescale: Self) {
        Self::new()
    }
}

/// A prefix sums no more than the whole.
proof fn lemma_sum_wide_prefix(terms: Seq<(Literal, u128)>, k: int)
    requires
        0 <= k <= terms.len(),
    ensures
        0 <= sum_coefficients_wide(terms.take(k)) <= sum_coefficients_wide(terms),
    decreases terms.len(),
{
    if k == terms.len() {
        assert(terms.take(k) =~= terms);
        if k > 0 {
            lemma_sum_wide_prefix(terms.drop_last(), k - 1);
            assert(terms.drop_last().take(k - 1) =~= terms.drop_last());
        }
    } else {
        assert(terms.drop_last().take(k) =~= terms.take(k));
        lemma_sum_wide_prefix(terms.drop_last(), k);
    }
}

/// Each coefficient is at most the sum.
proof fn lemma_term_below_sum(terms: Seq<(Literal, u128)>, j: int)
    requires
        0 <= j < terms.len(),
    ensures
        terms[j].1 <= sum_coefficients_wide(terms),
    decreases terms.len(),
{
    lemma_sum_wide_prefix(terms.drop_last(), terms.len() - 1);
    if j < terms.len() - 1 {
        lemma_term_below_sum(terms.drop_last(), j);
    }
}

} // verus!
