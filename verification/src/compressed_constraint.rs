use vstd::prelude::*;

use crate::assertion_state::{asserted_before, AssertionInfo, AssertionStack, NULL_ORDER};
use crate::constraint::{
    copy_terms, div_ceil, fixed_at_root, gcd, lemma_gcd_bound, lemma_sum_nonneg, lemma_sum_prefix,
    lemma_sum_where_bounds, lemma_sum_where_step, lemma_where_ext, literals_in_range, multiplied, spec_div_ceil, spec_gcd,
    sum_coefficients, sum_where, Constraint,
};
use crate::literal::Literal;

verus! {

/// The terms of `terms` that satisfy `p`, in order.
pub open spec fn keep_where(
    terms: Seq<(Literal, u64)>,
    p: spec_fn((Literal, u64)) -> bool,
) -> Seq<(Literal, u64)>
    decreases terms.len(),
{
    if terms.len() == 0 {
        Seq::empty()
    } else if p(terms.last()) {
        keep_where(terms.drop_last(), p).push(terms.last())
    } else {
        keep_where(terms.drop_last(), p)
    }
}

/// The terms with a non-zero coefficient.
pub open spec fn nonzero_terms(terms: Seq<(Literal, u64)>) -> Seq<(Literal, u64)> {
    keep_where(terms, |t: (Literal, u64)| t.1 != 0)
}

/// Each coefficient capped at `bound`.
pub open spec fn saturated(terms: Seq<(Literal, u64)>, bound: u64) -> Seq<(Literal, u64)> {
    terms.map_values(|t: (Literal, u64)| (t.0, if t.1 > bound { bound } else { t.1 }))
}

/// Each coefficient divided by `divisor`.
pub open spec fn divided(terms: Seq<(Literal, u64)>, divisor: u64) -> Seq<(Literal, u64)> {
    terms.map_values(|t: (Literal, u64)| (t.0, (t.1 / divisor) as u64))
}

/// The sum of the coefficients below `bound`.
pub open spec fn sum_below(terms: Seq<(Literal, u64)>, bound: u64) -> int
    decreases terms.len(),
{
    if terms.len() == 0 {
        0
    } else {
        sum_below(terms.drop_last(), bound) + if terms.last().1 < bound {
            terms.last().1 as int
        } else {
            0
        }
    }
}

/// The coefficients below a bound sum to no more than all of them, and to
/// no less than those of a prefix.
pub proof fn lemma_sum_below_bounds(terms: Seq<(Literal, u64)>, bound: u64, k: int)
    requires
        0 <= k <= terms.len(),
    ensures
        0 <= sum_below(terms.subrange(0, k), bound) <= sum_below(terms, bound) <= sum_coefficients(terms),
    decreases terms.len(),
{
    if terms.len() > 0 {
        if k == terms.len() {
            assert(terms.subrange(0, k) =~= terms);
            lemma_sum_below_bounds(terms.drop_last(), bound, k - 1);
            assert(terms.drop_last().subrange(0, k - 1) =~= terms.drop_last());
        } else {
            lemma_sum_below_bounds(terms.drop_last(), bound, k);
            assert(terms.drop_last().subrange(0, k) =~= terms.subrange(0, k));
        }
    } else {
        assert(terms.subrange(0, k) =~= terms);
    }
}


/// The greatest common divisor of the coefficients, accumulated from the
/// first term on and no longer updated once it is 1; 0 for no term or zero
/// coefficients only.
pub open spec fn gcd_of(terms: Seq<(Literal, u64)>) -> nat
    decreases terms.len(),
{
    if terms.len() == 0 {
        0
    } else {
        let g = gcd_of(terms.drop_last());
        if g != 1 {
            spec_gcd(g, terms.last().1 as nat)
        } else {
            g
        }
    }
}

/// The terms and lower bound that strengthening gives a constraint: the
/// coefficients are capped at the lower bound; then, when the uncapped
/// coefficients cannot reach the lower bound, only the capped terms remain,
/// with lower bound 1; otherwise, when the coefficients have a common divisor
/// above 1, everything is divided by it, the lower bound rounding up.
pub open spec fn strengthened(terms: Seq<(Literal, u64)>, lower_bound: u64) -> (
    Seq<(Literal, u64)>,
    u64,
) {
    let sat = saturated(terms, lower_bound);
    let g = gcd_of(sat);
    if g == 0 {
        (sat, lower_bound)
    } else if sum_below(terms, lower_bound) < lower_bound {
        (keep_where(sat, |t: (Literal, u64)| t.1 >= lower_bound), 1)
    } else if g > 1 {
        (divided(sat, g as u64), spec_div_ceil(lower_bound as nat, g) as u64)
    } else {
        (sat, lower_bound)
    }
}

/// The literal `l` is true when each variable `v` has value `assignment(v)`.
pub open spec fn holds_under(l: Literal, assignment: spec_fn(nat) -> bool) -> bool {
    assignment(l.spec_index()) == l.spec_value()
}

/// The value of the left-hand side under `assignment`.
pub open spec fn lhs_under(terms: Seq<(Literal, u64)>, assignment: spec_fn(nat) -> bool) -> int {
    sum_where(terms, |l: Literal| holds_under(l, assignment))
}

/// Capping the coefficients at `bound` keeps a value of at least `bound`, or
/// the value itself when it is smaller.
proof fn lemma_saturated_value(terms: Seq<(Literal, u64)>, bound: u64, p: spec_fn(Literal) -> bool)
    ensures
        sum_where(saturated(terms, bound), p) >= if sum_where(terms, p) < bound {
            sum_where(terms, p)
        } else {
            bound as int
        },
        sum_where(saturated(terms, bound), p) >= 0,
    decreases terms.len(),
{
    if terms.len() > 0 {
        assert(saturated(terms, bound).drop_last() =~= saturated(terms.drop_last(), bound));
        lemma_saturated_value(terms.drop_last(), bound, p);
        lemma_sum_where_bounds(terms.drop_last(), p);
    }
}

/// The sum over the terms splits between those kept by `q` and those kept by
/// its negation `nq`.
proof fn lemma_keep_split(
    terms: Seq<(Literal, u64)>,
    q: spec_fn((Literal, u64)) -> bool,
    nq: spec_fn((Literal, u64)) -> bool,
    p: spec_fn(Literal) -> bool,
)
    requires
        forall|t: (Literal, u64)| #[trigger] nq(t) == !q(t),
    ensures
        sum_where(terms, p) == sum_where(keep_where(terms, q), p) + sum_where(keep_where(terms, nq), p),
    decreases terms.len(),
{
    if terms.len() > 0 {
        lemma_keep_split(terms.drop_last(), q, nq, p);
        if q(terms.last()) {
            assert(keep_where(terms, q).drop_last() =~= keep_where(terms.drop_last(), q));
        } else {
            assert(keep_where(terms, nq).drop_last() =~= keep_where(terms.drop_last(), nq));
        }
    }
}

/// The accumulated divisor fits in 64 bits.
proof fn lemma_gcd_of_bound(terms: Seq<(Literal, u64)>)
    ensures
        gcd_of(terms) <= u64::MAX,
    decreases terms.len(),
{
    if terms.len() > 0 {
        lemma_gcd_of_bound(terms.drop_last());
        lemma_gcd_bound(gcd_of(terms.drop_last()), terms.last().1 as nat);
    }
}

/// The capped terms below the bound sum to at most the coefficients below it.
proof fn lemma_unsaturated_value(terms: Seq<(Literal, u64)>, bound: u64, p: spec_fn(Literal) -> bool)
    ensures
        0 <= sum_where(keep_where(saturated(terms, bound), |t: (Literal, u64)| !(t.1 >= bound)), p)
            <= sum_below(terms, bound),
    decreases terms.len(),
{
    if terms.len() > 0 {
        let below = |t: (Literal, u64)| !(t.1 >= bound);
        assert(saturated(terms, bound).drop_last() =~= saturated(terms.drop_last(), bound));
        lemma_unsaturated_value(terms.drop_last(), bound, p);
        let sat = saturated(terms, bound);
        if below(sat.last()) {
            assert(keep_where(sat, below).drop_last() =~= keep_where(sat.drop_last(), below));
        }
    }
}

/// Dividing coefficients that `g` divides divides the value by `g`.
proof fn lemma_divided_value(terms: Seq<(Literal, u64)>, g: u64, p: spec_fn(Literal) -> bool)
    requires
        g > 0,
        forall|k: int| 0 <= k < terms.len() ==> (#[trigger] terms[k]).1 % g == 0,
    ensures
        sum_where(divided(terms, g), p) * g == sum_where(terms, p),
    decreases terms.len(),
{
    if terms.len() > 0 {
        assert(divided(terms, g).drop_last() =~= divided(terms.drop_last(), g));
        lemma_divided_value(terms.drop_last(), g, p);
        let c = terms.last().1;
        assert(c % g == 0);
        assert((c / g) as int * g == c) by {
            vstd::arithmetic::div_mod::lemma_fundamental_div_mod(c as int, g as int);
        }
        let x = sum_where(divided(terms.drop_last(), g), p);
        let y = if p(terms.last().0) {
            (c / g) as int
        } else {
            0
        };
        assert((x + y) * g == x * g + y * g) by (nonlinear_arith);
    }
}

/// The greatest common divisor divides both arguments.
pub(crate) proof fn lemma_gcd_divides(a: nat, b: nat)
    requires
        spec_gcd(a, b) > 0,
    ensures
        a % spec_gcd(a, b) == 0,
        b % spec_gcd(a, b) == 0,
    decreases b,
{
    if b == 0 {
        assert(a % a == 0) by {
            vstd::arithmetic::div_mod::lemma_mod_multiples_basic(1, a as int);
        }
        assert(0nat % a == 0);
    } else {
        let r = a % b;
        lemma_gcd_divides(b, r);
        let d = spec_gcd(a, b);
        assert(d == spec_gcd(b, r));
        let kb = b / d;
        let kr = r / d;
        vstd::arithmetic::div_mod::lemma_fundamental_div_mod(b as int, d as int);
        vstd::arithmetic::div_mod::lemma_fundamental_div_mod(r as int, d as int);
        vstd::arithmetic::div_mod::lemma_fundamental_div_mod(a as int, b as int);
        let q = a / b;
        assert(a == (q * kb + kr) * d) by (nonlinear_arith)
            requires
                b == d * kb,
                r == d * kr,
                a == b * q + r,
        ;
        vstd::arithmetic::div_mod::lemma_mod_multiples_basic((q * kb + kr) as int, d as int);
    }
}

/// When the accumulated divisor ends above 1, it divides every coefficient.
proof fn lemma_gcd_of_divides(terms: Seq<(Literal, u64)>)
    requires
        gcd_of(terms) > 1,
    ensures
        forall|k: int| 0 <= k < terms.len() ==> (#[trigger] terms[k]).1 as nat % gcd_of(terms) == 0,
    decreases terms.len(),
{
    let g = gcd_of(terms);
    let rest = terms.drop_last();
    let g0 = gcd_of(rest);
    assert(g0 != 1);
    let c = terms.last().1 as nat;
    assert(g == spec_gcd(g0, c));
    lemma_gcd_divides(g0, c);
    if g0 > 1 {
        lemma_gcd_of_divides(rest);
    }
    assert forall|k: int| 0 <= k < terms.len() implies (#[trigger] terms[k]).1 as nat % g == 0 by {
        if k < terms.len() - 1 {
            assert(terms[k] == rest[k]);
            if g0 == 0 {
                lemma_gcd_of_zero(rest, k);
            } else {
                let m = terms[k].1 as nat / g0;
                let n = g0 / g;
                vstd::arithmetic::div_mod::lemma_fundamental_div_mod(terms[k].1 as int, g0 as int);
                vstd::arithmetic::div_mod::lemma_fundamental_div_mod(g0 as int, g as int);
                assert(terms[k].1 == (m * n) * g) by (nonlinear_arith)
                    requires
                        terms[k].1 == g0 * m,
                        g0 == g * n,
                ;
                vstd::arithmetic::div_mod::lemma_mod_multiples_basic((m * n) as int, g as int);
            }
        }
    }
}

/// An accumulated divisor of 0 means every coefficient is 0.
proof fn lemma_gcd_of_zero(terms: Seq<(Literal, u64)>, k: int)
    requires
        gcd_of(terms) == 0,
        0 <= k < terms.len(),
    ensures
        terms[k].1 == 0,
    decreases terms.len(),
{
    let rest = terms.drop_last();
    let g0 = gcd_of(rest);
    if g0 > 0 {
        lemma_gcd_positive(g0, terms.last().1 as nat);
    }
    if g0 == 0 && terms.last().1 > 0 {
        assert(spec_gcd(0, terms.last().1 as nat) == spec_gcd(terms.last().1 as nat, 0));
    }
    if k < terms.len() - 1 {
        assert(terms[k] == rest[k]);
        lemma_gcd_of_zero(rest, k);
    }
}

/// The greatest common divisor of a positive number and another is positive.
pub(crate) proof fn lemma_gcd_positive(a: nat, b: nat)
    requires
        a > 0,
    ensures
        spec_gcd(a, b) > 0,
    decreases b,
{
    if b > 0 {
        lemma_gcd_positive(b, a % b);
    }
}

/// Strengthening is sound: every assignment that satisfies a constraint
/// satisfies its strengthening.
pub proof fn lemma_strengthen_sound(terms: Seq<(Literal, u64)>, lower_bound: u64, assignment: spec_fn(nat) -> bool)
    requires
        lhs_under(terms, assignment) >= lower_bound,
    ensures
        lhs_under(strengthened(terms, lower_bound).0, assignment) >= strengthened(terms, lower_bound).1,
{
    let p = |l: Literal| holds_under(l, assignment);
    let sat = saturated(terms, lower_bound);
    let g = gcd_of(sat);
    lemma_saturated_value(terms, lower_bound, p);
    if g == 0 {
    } else if sum_below(terms, lower_bound) < lower_bound {
        let q = |t: (Literal, u64)| t.1 >= lower_bound;
        let nq = |t: (Literal, u64)| !(t.1 >= lower_bound);
        lemma_keep_split(sat, q, nq, p);
        lemma_unsaturated_value(terms, lower_bound, p);
    } else if g > 1 {
        lemma_gcd_of_bound(sat);
        lemma_gcd_of_divides(sat);
        lemma_divided_value(sat, g as u64, p);
        let x = sum_where(divided(sat, g as u64), p);
        let l = lower_bound as int;
        let gi = g as int;
        assert(x >= spec_div_ceil(lower_bound as nat, g)) by (nonlinear_arith)
            requires
                x * gi >= l,
                gi > 1,
                l >= 0,
                spec_div_ceil(lower_bound as nat, g) == if l % gi == 0 {
                    l / gi
                } else {
                    l / gi + 1
                },
        {
            vstd::arithmetic::div_mod::lemma_fundamental_div_mod(l, gi);
        }
    } else {
    }
}

/// Capping the coefficients does not raise the value.
proof fn lemma_saturated_at_most(terms: Seq<(Literal, u64)>, bound: u64, p: spec_fn(Literal) -> bool)
    ensures
        sum_where(saturated(terms, bound), p) <= sum_where(terms, p),
    decreases terms.len(),
{
    if terms.len() > 0 {
        assert(saturated(terms, bound).drop_last() =~= saturated(terms.drop_last(), bound));
        lemma_saturated_at_most(terms.drop_last(), bound, p);
    }
}

/// Terms whose coefficients all equal `c` are worth `c` once any of them
/// counts.
proof fn lemma_uniform_value(terms: Seq<(Literal, u64)>, c: u64, p: spec_fn(Literal) -> bool)
    requires
        forall|k: int| 0 <= k < terms.len() ==> (#[trigger] terms[k]).1 == c,
        sum_where(terms, p) >= 1,
    ensures
        sum_where(terms, p) >= c,
    decreases terms.len(),
{
    let rest = terms.drop_last();
    assert(terms[terms.len() - 1] == terms.last());
    lemma_sum_where_bounds(rest, p);
    if !p(terms.last().0) || sum_where(rest, p) >= 1 {
        if sum_where(rest, p) >= 1 {
            assert forall|k: int| 0 <= k < rest.len() implies (#[trigger] rest[k]).1 == c by {
                assert(rest[k] == terms[k]);
            }
            lemma_uniform_value(rest, c, p);
        }
    }
}

/// The capped coefficients kept at the bound equal it.
proof fn lemma_kept_at_bound(terms: Seq<(Literal, u64)>, bound: u64, q: spec_fn((Literal, u64)) -> bool)
    requires
        forall|t: (Literal, u64)| #[trigger] q(t) == (t.1 >= bound),
    ensures
        forall|k: int|
            0 <= k < keep_where(saturated(terms, bound), q).len() ==> (#[trigger] keep_where(
                saturated(terms, bound),
                q,
            )[k]).1 == bound,
    decreases terms.len(),
{
    if terms.len() > 0 {
        let sat = saturated(terms, bound);
        assert(sat.drop_last() =~= saturated(terms.drop_last(), bound));
        lemma_kept_at_bound(terms.drop_last(), bound, q);
        let kept = keep_where(sat, q);
        let before = keep_where(sat.drop_last(), q);
        assert forall|k: int| 0 <= k < kept.len() implies (#[trigger] kept[k]).1 == bound by {
            if q(sat.last()) {
                assert(kept == before.push(sat.last()));
                if k < before.len() {
                    assert(kept[k] == before[k]);
                } else {
                    assert(sat[sat.len() - 1] == sat.last());
                }
            } else {
                assert(kept == before);
            }
        }
    }
}

/// `d` divides every coefficient of `terms`.
pub open spec fn divides_all(terms: Seq<(Literal, u64)>, d: nat) -> bool {
    forall|k: int| 0 <= k < terms.len() ==> (#[trigger] terms[k]).1 as nat % d == 0
}

/// A common divisor of two numbers divides their greatest common divisor.
proof fn lemma_divides_gcd(a: nat, b: nat, d: nat)
    requires
        d > 0,
        a % d == 0,
        b % d == 0,
    ensures
        spec_gcd(a, b) % d == 0,
    decreases b,
{
    if b > 0 {
        let r = a % b;
        vstd::arithmetic::div_mod::lemma_fundamental_div_mod(a as int, b as int);
        vstd::arithmetic::div_mod::lemma_fundamental_div_mod(a as int, d as int);
        vstd::arithmetic::div_mod::lemma_fundamental_div_mod(b as int, d as int);
        let q = a / b;
        let ka = a / d;
        let kb = b / d;
        assert(r == (ka - q * kb) * d) by (nonlinear_arith)
            requires
                a == b * q + r,
                a == d * ka,
                b == d * kb,
        ;
        assert(ka - q * kb >= 0) by (nonlinear_arith)
            requires
                r == (ka - q * kb) * d,
                r >= 0,
                d > 0,
        ;
        vstd::arithmetic::div_mod::lemma_mod_multiples_basic(ka - q * kb, d as int);
        lemma_divides_gcd(b, r, d);
    }
}

/// A common divisor of the coefficients divides their accumulated divisor.
proof fn lemma_divides_gcd_of(terms: Seq<(Literal, u64)>, d: nat)
    requires
        d > 0,
        divides_all(terms, d),
    ensures
        gcd_of(terms) % d == 0,
    decreases terms.len(),
{
    if terms.len() > 0 {
        let rest = terms.drop_last();
        assert(divides_all(rest, d)) by {
            assert forall|k: int| 0 <= k < rest.len() implies (#[trigger] rest[k]).1 as nat % d == 0 by {
                assert(rest[k] == terms[k]);
            }
        }
        lemma_divides_gcd_of(rest, d);
        assert(terms[terms.len() - 1] == terms.last());
        assert(terms.last().1 as nat % d == 0);
        if gcd_of(rest) != 1 {
            lemma_divides_gcd(gcd_of(rest), terms.last().1 as nat, d);
            assert(gcd_of(terms) == spec_gcd(gcd_of(rest), terms.last().1 as nat));
        } else {
            assert(gcd_of(terms) == gcd_of(rest));
        }
    } else {
        vstd::arithmetic::div_mod::lemma_small_mod(0, d);
    }
}

/// Strengthening caps every coefficient at the given lower bound and does
/// not raise a positive lower bound.
pub proof fn lemma_strengthened_saturated(terms: Seq<(Literal, u64)>, lower_bound: u64)
    ensures
        forall|k: int|
            0 <= k < strengthened(terms, lower_bound).0.len() ==> (#[trigger] strengthened(terms, lower_bound).0[k]).1
                <= lower_bound,
        lower_bound > 0 ==> strengthened(terms, lower_bound).1 <= lower_bound,
{
    let sat = saturated(terms, lower_bound);
    let g = gcd_of(sat);
    lemma_strengthened_shape(terms, lower_bound, 0);
    assert forall|k: int| 0 <= k < sat.len() implies (#[trigger] sat[k]).1 <= lower_bound by {}
    let result = strengthened(terms, lower_bound).0;
    if g == 0 {
    } else if sum_below(terms, lower_bound) < lower_bound {
        let q = |t: (Literal, u64)| t.1 >= lower_bound;
        lemma_kept_at_bound(terms, lower_bound, q);
    } else if g > 1 {
        lemma_gcd_of_bound(sat);
        assert forall|k: int| 0 <= k < result.len() implies (#[trigger] result[k]).1 <= lower_bound by {
            assert(result[k].1 == (sat[k].1 / (g as u64)) as u64);
            let c = sat[k].1;
            let gg = g as u64;
            assert(c / gg <= c) by (nonlinear_arith)
                requires
                    gg > 1,
            ;
        }
    }
}

/// Strengthening leaves no common divisor: when the strengthened lower bound
/// is above 1 and some coefficient is not zero, no number above 1 divides
/// every coefficient.
pub proof fn lemma_strengthened_reduced(terms: Seq<(Literal, u64)>, lower_bound: u64, d: nat)
    requires
        d > 1,
        strengthened(terms, lower_bound).1 > 1,
        exists|k: int|
            0 <= k < strengthened(terms, lower_bound).0.len() && (#[trigger] strengthened(terms, lower_bound).0[k]).1
                > 0,
    ensures
        !divides_all(strengthened(terms, lower_bound).0, d),
{
    let sat = saturated(terms, lower_bound);
    let g = gcd_of(sat);
    let result = strengthened(terms, lower_bound).0;
    if divides_all(result, d) {
        if g == 0 {
            let k = choose|k: int| 0 <= k < result.len() && (#[trigger] result[k]).1 > 0;
            lemma_gcd_of_zero(sat, k);
        } else if sum_below(terms, lower_bound) < lower_bound {
        } else if g > 1 {
            lemma_gcd_of_bound(sat);
            lemma_gcd_of_divides(sat);
            let dg = d * g;
            assert(dg > g) by (nonlinear_arith)
                requires
                    d > 1,
                    g > 1,
                    dg == d * g,
            ;
            assert(divides_all(sat, dg)) by {
                assert forall|k: int| 0 <= k < sat.len() implies (#[trigger] sat[k]).1 as nat % dg == 0 by {
                    let c = sat[k].1 as nat;
                    assert(c % g == 0);
                    assert(result[k].1 == (c / g) as u64);
                    assert((c / g) % d == 0);
                    vstd::arithmetic::div_mod::lemma_fundamental_div_mod(c as int, g as int);
                    vstd::arithmetic::div_mod::lemma_fundamental_div_mod((c / g) as int, d as int);
                    let m = (c / g) / d;
                    assert(c == m * dg) by (nonlinear_arith)
                        requires
                            c == g * (c / g),
                            (c / g) == d * m,
                            dg == d * g,
                    ;
                    vstd::arithmetic::div_mod::lemma_mod_multiples_basic(m as int, dg as int);
                }
            }
            lemma_divides_gcd_of(sat, dg);
            vstd::arithmetic::div_mod::lemma_small_mod(g, dg);
        } else {
            lemma_divides_gcd_of(sat, d);
            vstd::arithmetic::div_mod::lemma_small_mod(1, d);
        }
    }
}

/// Strengthening is complete: every assignment that satisfies the
/// strengthened constraint satisfies the constraint it came from.
pub proof fn lemma_strengthen_complete(terms: Seq<(Literal, u64)>, lower_bound: u64, assignment: spec_fn(nat) -> bool)
    requires
        lhs_under(strengthened(terms, lower_bound).0, assignment) >= strengthened(terms, lower_bound).1,
    ensures
        lhs_under(terms, assignment) >= lower_bound,
{
    let p = |l: Literal| holds_under(l, assignment);
    let sat = saturated(terms, lower_bound);
    let g = gcd_of(sat);
    lemma_saturated_at_most(terms, lower_bound, p);
    lemma_sum_where_bounds(terms, p);
    if g == 0 {
    } else if sum_below(terms, lower_bound) < lower_bound {
        let q = |t: (Literal, u64)| t.1 >= lower_bound;
        let nq = |t: (Literal, u64)| !(t.1 >= lower_bound);
        lemma_keep_split(sat, q, nq, p);
        lemma_sum_where_bounds(keep_where(sat, nq), p);
        lemma_kept_at_bound(terms, lower_bound, q);
        lemma_uniform_value(keep_where(sat, q), lower_bound, p);
    } else if g > 1 {
        lemma_gcd_of_bound(sat);
        lemma_gcd_of_divides(sat);
        lemma_divided_value(sat, g as u64, p);
        let x = sum_where(divided(sat, g as u64), p);
        let l = lower_bound as int;
        let gi = g as int;
        assert(spec_div_ceil(lower_bound as nat, g) <= lower_bound) by {
            vstd::arithmetic::div_mod::lemma_fundamental_div_mod(l, gi);
            vstd::arithmetic::div_mod::lemma_mod_pos_bound(l, gi);
            assert(l / gi <= l) by (nonlinear_arith)
                requires
                    gi > 1,
                    l >= 0,
            ;
            if l > 0 {
                assert(l / gi < l) by (nonlinear_arith)
                    requires
                        gi > 1,
                        l > 0,
                ;
            }
        }
        assert(x == lhs_under(divided(sat, g as u64), assignment));
        assert(x >= spec_div_ceil(lower_bound as nat, g));
        assert(x * gi >= l) by (nonlinear_arith)
            requires
                x >= spec_div_ceil(lower_bound as nat, g),
                gi > 1,
                l >= 0,
                spec_div_ceil(lower_bound as nat, g) == if l % gi == 0 {
                    l / gi
                } else {
                    l / gi + 1
                },
        {
            vstd::arithmetic::div_mod::lemma_fundamental_div_mod(l, gi);
            vstd::arithmetic::div_mod::lemma_mod_pos_bound(l, gi);
        }
    } else {
    }
}

/// Strengthening keeps the solutions: an assignment satisfies the
/// strengthened constraint exactly when it satisfies the given one.
pub proof fn lemma_strengthen_equivalent(terms: Seq<(Literal, u64)>, lower_bound: u64, assignment: spec_fn(nat) -> bool)
    ensures
        (lhs_under(strengthened(terms, lower_bound).0, assignment) >= strengthened(terms, lower_bound).1) <==> (
        lhs_under(terms, assignment) >= lower_bound),
{
    if lhs_under(terms, assignment) >= lower_bound {
        lemma_strengthen_sound(terms, lower_bound, assignment);
    }
    if lhs_under(strengthened(terms, lower_bound).0, assignment) >= strengthened(terms, lower_bound).1 {
        lemma_strengthen_complete(terms, lower_bound, assignment);
    }
}

/// Pointwise smaller coefficients on the same literals sum to less.
proof fn lemma_dominated_sum(a: Seq<(Literal, u64)>, b: Seq<(Literal, u64)>)
    requires
        a.len() == b.len(),
        forall|k: int| 0 <= k < a.len() ==> (#[trigger] a[k]).1 <= b[k].1,
    ensures
        sum_coefficients(a) <= sum_coefficients(b),
    decreases a.len(),
{
    if a.len() > 0 {
        lemma_dominated_sum(a.drop_last(), b.drop_last());
    }
}

/// Keeping some terms keeps their literals and sums to less.
pub proof fn lemma_keep_where_shape(terms: Seq<(Literal, u64)>, q: spec_fn((Literal, u64)) -> bool, n: nat)
    ensures
        sum_coefficients(keep_where(terms, q)) <= sum_coefficients(terms),
        literals_in_range(terms, n) ==> literals_in_range(keep_where(terms, q), n),
    decreases terms.len(),
{
    if terms.len() > 0 {
        lemma_keep_where_shape(terms.drop_last(), q, n);
        lemma_sum_nonneg(keep_where(terms.drop_last(), q));
        if q(terms.last()) {
            assert(keep_where(terms, q).drop_last() =~= keep_where(terms.drop_last(), q));
        }
        if literals_in_range(terms, n) {
            assert(literals_in_range(terms.drop_last(), n)) by {
                assert forall|k: int| 0 <= k < terms.drop_last().len() implies (#[trigger] terms.drop_last()[k]).0.spec_index() < n by {
                    assert(terms.drop_last()[k] == terms[k]);
                }
            }
            let kept = keep_where(terms, q);
            if q(terms.last()) {
                assert forall|k: int| 0 <= k < kept.len() implies (#[trigger] kept[k]).0.spec_index() < n by {
                    if k < kept.len() - 1 {
                        assert(kept[k] == keep_where(terms.drop_last(), q)[k]);
                    } else {
                        assert(terms[terms.len() - 1] == terms.last());
                    }
                }
            }
        }
    }
}

/// Strengthening keeps the literals, does not raise the sum of the
/// coefficients, and does not raise a positive lower bound.
pub proof fn lemma_strengthened_shape(terms: Seq<(Literal, u64)>, lower_bound: u64, n: nat)
    ensures
        sum_coefficients(strengthened(terms, lower_bound).0) <= sum_coefficients(terms),
        literals_in_range(terms, n) ==> literals_in_range(strengthened(terms, lower_bound).0, n),
        lower_bound > 0 ==> strengthened(terms, lower_bound).1 <= lower_bound,
{
    let sat = saturated(terms, lower_bound);
    let g = gcd_of(sat);
    lemma_dominated_sum(sat, terms);
    lemma_keep_where_shape(sat, |t: (Literal, u64)| t.1 >= lower_bound, n);
    if literals_in_range(terms, n) {
        assert(literals_in_range(sat, n)) by {
            assert forall|k: int| 0 <= k < sat.len() implies (#[trigger] sat[k]).0.spec_index() < n by {
                assert(sat[k].0 == terms[k].0);
            }
        }
    }
    if g > 1 {
        lemma_gcd_of_bound(sat);
        let d = divided(sat, g as u64);
        assert forall|k: int| 0 <= k < d.len() implies (#[trigger] d[k]).1 <= sat[k].1 by {
            let c = sat[k].1;
            let gg = g as u64;
            assert(gg > 1);
            assert(c / gg <= c) by (nonlinear_arith)
                requires
                    gg > 1,
            ;
        }
        lemma_dominated_sum(d, sat);
        if literals_in_range(terms, n) {
            assert forall|k: int| 0 <= k < d.len() implies (#[trigger] d[k]).0.spec_index() < n by {
                assert(d[k].0 == sat[k].0);
                assert(sat[k].0 == terms[k].0);
            }
        }
        if lower_bound > 0 {
            assert(spec_div_ceil(lower_bound as nat, g) <= lower_bound) by {
                let l = lower_bound as nat;
                vstd::arithmetic::div_mod::lemma_fundamental_div_mod(l as int, g as int);
                assert(l / g < l) by (nonlinear_arith)
                    requires
                        g > 1,
                        l > 0,
                ;
            }
        }
    }
}

/// The sum of the coefficients of the literals of `terms` that are true and
/// were assigned at decision level 0.
pub(crate) fn fixed_true_sum<E: Copy>(terms: &Vec<(Literal, u64)>, state: &AssertionStack<E>) -> (sum: u64)
    requires
        state.wf(),
        literals_in_range(terms@, state.spec_number_of_variables()),
        sum_coefficients(terms@) <= u64::MAX,
    ensures
        sum == sum_where(
            terms@,
            |l: Literal| fixed_at_root(state.trail(), l) && asserted_before(state.trail(), l, NULL_ORDER as int),
        ),
{
    let ghost all = terms@;
    let ghost p = |l: Literal| fixed_at_root(state.trail(), l) && asserted_before(state.trail(), l, NULL_ORDER as int);
    let mut sum: u64 = 0;
    let mut j: usize = 0;
    while j < terms.len()
        invariant
            terms@ == all,
            state.wf(),
            literals_in_range(all, state.spec_number_of_variables()),
            sum_coefficients(all) <= u64::MAX,
            j <= terms.len(),
            sum == sum_where(all.subrange(0, j as int), p),
            p == (|l: Literal| fixed_at_root(state.trail(), l) && asserted_before(state.trail(), l, NULL_ORDER as int)),
        decreases terms.len() - j,
    {
        let (literal, coefficient) = terms[j];
        proof {
            lemma_sum_where_step(all, p, j as int);
            lemma_sum_where_bounds(all.subrange(0, j as int + 1), p);
            lemma_sum_prefix(all, j as int + 1);
            assert(all.subrange(0, j as int + 1).drop_last() =~= all.subrange(0, j as int));
        }
        let literal_state = state.literal_state(literal);
        let level = literal_state.decision_level();
        let at_root = match level {
            Some(d) => d == 0,
            None => false,
        };
        proof {
            if at_root {
                assert(fixed_at_root(state.trail(), literal));
            } else {
                assert(!fixed_at_root(state.trail(), literal)) by {
                    if fixed_at_root(state.trail(), literal) {
                        let k = choose|k: int|
                            crate::assertion_state::assigned_at(state.trail(), literal.spec_index(), k)
                                && state.trail()[k].decision_level == 0;
                        state.lemma_assigned_once(literal.spec_index(), k);
                    }
                }
            }
        }
        if at_root && literal_state.is_true() {
            sum = sum + coefficient;
        }
        j = j + 1;
    }
    proof {
        assert(all.subrange(0, terms.len() as int) =~= all);
    }
    sum
}

/// The terms of `terms` whose variable was not assigned at decision level
/// 0, and `lower_bound` less the coefficients of the dropped ones that are
/// true.
pub(crate) fn drop_fixed_terms<E: Copy>(terms: &Vec<(Literal, u64)>, lower_bound: u64, state: &AssertionStack<E>) -> (dropped: (
    Vec<(Literal, u64)>,
    u64,
))
    requires
        state.wf(),
        literals_in_range(terms@, state.spec_number_of_variables()),
        sum_coefficients(terms@) <= u64::MAX,
        sum_where(
            terms@,
            |l: Literal| fixed_at_root(state.trail(), l) && asserted_before(state.trail(), l, NULL_ORDER as int),
        ) <= lower_bound,
    ensures
        dropped.0@ == keep_where(terms@, |t: (Literal, u64)| !fixed_at_root(state.trail(), t.0)),
        dropped.1 == lower_bound - sum_where(
            terms@,
            |l: Literal| fixed_at_root(state.trail(), l) && asserted_before(state.trail(), l, NULL_ORDER as int),
        ),
{
    let ghost all = terms@;
    let ghost p = |l: Literal| fixed_at_root(state.trail(), l) && asserted_before(state.trail(), l, NULL_ORDER as int);
    let ghost q = |t: (Literal, u64)| !fixed_at_root(state.trail(), t.0);
    let mut kept: Vec<(Literal, u64)> = Vec::new();
    let mut sum_of_droppeds: u64 = 0;
    let mut j: usize = 0;
    while j < terms.len()
        invariant
            terms@ == all,
            state.wf(),
            literals_in_range(all, state.spec_number_of_variables()),
            sum_coefficients(all) <= u64::MAX,
            j <= terms.len(),
            kept@ == keep_where(all.subrange(0, j as int), q),
            sum_of_droppeds == sum_where(all.subrange(0, j as int), p),
            p == (|l: Literal| fixed_at_root(state.trail(), l) && asserted_before(state.trail(), l, NULL_ORDER as int)),
            q == (|t: (Literal, u64)| !fixed_at_root(state.trail(), t.0)),
        decreases terms.len() - j,
    {
        let (literal, coefficient) = terms[j];
        proof {
            lemma_sum_where_step(all, p, j as int);
            lemma_sum_where_bounds(all.subrange(0, j as int + 1), p);
            lemma_sum_prefix(all, j as int + 1);
            assert(all.subrange(0, j as int + 1).drop_last() =~= all.subrange(0, j as int));
        }
        let literal_state = state.literal_state(literal);
        let level = literal_state.decision_level();
        let at_root = match level {
            Some(d) => d == 0,
            None => false,
        };
        proof {
            if at_root {
                assert(fixed_at_root(state.trail(), literal));
            } else {
                assert(!fixed_at_root(state.trail(), literal)) by {
                    if fixed_at_root(state.trail(), literal) {
                        let k = choose|k: int|
                            crate::assertion_state::assigned_at(state.trail(), literal.spec_index(), k)
                                && state.trail()[k].decision_level == 0;
                        state.lemma_assigned_once(literal.spec_index(), k);
                    }
                }
            }
        }
        if at_root {
            if literal_state.is_true() {
                sum_of_droppeds = sum_of_droppeds + coefficient;
            }
        } else {
            kept.push((literal, coefficient));
        }
        j = j + 1;
    }
    proof {
        assert(all.subrange(0, terms.len() as int) =~= all);
    }
    (kept, lower_bound - sum_of_droppeds)
}


/// What `Constraint::into_strengthen` makes of a constraint: with the
/// coefficients capped at the lower bound (see `saturated`), nothing when
/// they are all zero; when the uncapped coefficients cannot reach the lower
/// bound, the capped terms with coefficient 1 and lower bound 1; otherwise
/// the non-zero capped terms divided by their common divisor (see
/// `gcd_of`), the lower bound rounding up.
pub open spec fn strengthened_view(terms: Seq<(Literal, u64)>, lower_bound: u64) -> (Seq<(Literal, u64)>, u64) {
    let sat = saturated(terms, lower_bound);
    let g = gcd_of(sat);
    if g == 0 {
        (terms, lower_bound)
    } else if sum_below(terms, lower_bound) < lower_bound {
        (
            keep_where(sat, |t: (Literal, u64)| t.1 >= lower_bound).map_values(|t: (Literal, u64)| (t.0, 1u64)),
            1,
        )
    } else {
        (divided(nonzero_terms(sat), g as u64), spec_div_ceil(lower_bound as nat, g) as u64)
    }
}

/// A sum that is positive stays at least 1 when every coefficient is set to 1.
proof fn lemma_units_value(terms: Seq<(Literal, u64)>, p: spec_fn(Literal) -> bool)
    requires
        sum_where(terms, p) > 0,
    ensures
        sum_where(terms.map_values(|t: (Literal, u64)| (t.0, 1u64)), p) >= 1,
    decreases terms.len(),
{
    let units = terms.map_values(|t: (Literal, u64)| (t.0, 1u64));
    assert(units.drop_last() =~= terms.drop_last().map_values(|t: (Literal, u64)| (t.0, 1u64)));
    lemma_sum_where_bounds(units.drop_last(), p);
    if !p(terms.last().0) {
        lemma_units_value(terms.drop_last(), p);
    }
}

/// The terms whose coefficient is 0 add nothing.
proof fn lemma_zero_terms_value(terms: Seq<(Literal, u64)>, p: spec_fn(Literal) -> bool)
    ensures
        sum_where(keep_where(terms, |t: (Literal, u64)| !(t.1 != 0)), p) == 0,
    decreases terms.len(),
{
    if terms.len() > 0 {
        let z = |t: (Literal, u64)| !(t.1 != 0);
        lemma_zero_terms_value(terms.drop_last(), p);
        if z(terms.last()) {
            assert(keep_where(terms, z).drop_last() =~= keep_where(terms.drop_last(), z));
        }
    }
}

/// Keeping some terms keeps every coefficient a multiple of `g`.
proof fn lemma_keep_divisible(terms: Seq<(Literal, u64)>, q: spec_fn((Literal, u64)) -> bool, g: nat)
    requires
        g > 0,
        forall|k: int| 0 <= k < terms.len() ==> (#[trigger] terms[k]).1 as nat % g == 0,
    ensures
        forall|k: int| 0 <= k < keep_where(terms, q).len() ==> (#[trigger] keep_where(terms, q)[k]).1 as nat % g
            == 0,
    decreases terms.len(),
{
    if terms.len() > 0 {
        let rest = terms.drop_last();
        assert forall|k: int| 0 <= k < rest.len() implies (#[trigger] rest[k]).1 as nat % g == 0 by {
            assert(rest[k] == terms[k]);
        }
        lemma_keep_divisible(rest, q, g);
        let kept = keep_where(terms, q);
        assert forall|k: int| 0 <= k < kept.len() implies (#[trigger] kept[k]).1 as nat % g == 0 by {
            if q(terms.last()) && k == kept.len() - 1 {
                assert(terms[terms.len() - 1] == terms.last());
            } else {
                assert(kept[k] == keep_where(rest, q)[k]);
            }
        }
    }
}

/// Strengthening as `Constraint::into_strengthen` does is sound: every
/// assignment that satisfies a constraint satisfies its strengthening.
pub proof fn lemma_strengthen_view_sound(
    terms: Seq<(Literal, u64)>,
    lower_bound: u64,
    assignment: spec_fn(nat) -> bool,
)
    requires
        lhs_under(terms, assignment) >= lower_bound,
    ensures
        lhs_under(strengthened_view(terms, lower_bound).0, assignment) >= strengthened_view(
            terms,
            lower_bound,
        ).1,
{
    let p = |l: Literal| holds_under(l, assignment);
    let sat = saturated(terms, lower_bound);
    let g = gcd_of(sat);
    lemma_saturated_value(terms, lower_bound, p);
    if g == 0 {
    } else if sum_below(terms, lower_bound) < lower_bound {
        let q = |t: (Literal, u64)| t.1 >= lower_bound;
        let nq = |t: (Literal, u64)| !(t.1 >= lower_bound);
        lemma_keep_split(sat, q, nq, p);
        lemma_unsaturated_value(terms, lower_bound, p);
        lemma_units_value(keep_where(sat, q), p);
    } else {
        let q = |t: (Literal, u64)| t.1 != 0;
        let nq = |t: (Literal, u64)| !(t.1 != 0);
        let kept = nonzero_terms(sat);
        lemma_keep_split(sat, q, nq, p);
        lemma_zero_terms_value(sat, p);
        lemma_gcd_of_bound(sat);
        if g > 1 {
            lemma_gcd_of_divides(sat);
        } else {
            assert forall|k: int| 0 <= k < sat.len() implies (#[trigger] sat[k]).1 as nat % g == 0 by {}
        }
        lemma_keep_divisible(sat, q, g);
        assert forall|k: int| 0 <= k < kept.len() implies (#[trigger] kept[k]).1 % (g as u64) == 0 by {
            assert(kept[k].1 as nat % g == 0);
        }
        lemma_divided_value(kept, g as u64, p);
        let x = sum_where(divided(kept, g as u64), p);
        let l = lower_bound as int;
        let gi = g as int;
        assert(x >= spec_div_ceil(lower_bound as nat, g)) by (nonlinear_arith)
            requires
                x * gi >= l,
                gi >= 1,
                l >= 0,
                spec_div_ceil(lower_bound as nat, g) == if l % gi == 0 {
                    l / gi
                } else {
                    l / gi + 1
                },
        {
            vstd::arithmetic::div_mod::lemma_fundamental_div_mod(l, gi);
        }
    }
}

/// Terms whose coefficients all equal `c`, once set to 1, count only when
/// the terms themselves are worth `c`.
proof fn lemma_units_complete(terms: Seq<(Literal, u64)>, c: u64, p: spec_fn(Literal) -> bool)
    requires
        forall|k: int| 0 <= k < terms.len() ==> (#[trigger] terms[k]).1 == c,
        sum_where(terms.map_values(|t: (Literal, u64)| (t.0, 1u64)), p) >= 1,
    ensures
        sum_where(terms, p) >= c,
    decreases terms.len(),
{
    let units = terms.map_values(|t: (Literal, u64)| (t.0, 1u64));
    let rest = terms.drop_last();
    assert(units.drop_last() =~= rest.map_values(|t: (Literal, u64)| (t.0, 1u64)));
    assert(terms[terms.len() - 1] == terms.last());
    lemma_sum_where_bounds(rest, p);
    if !p(terms.last().0) {
        assert forall|k: int| 0 <= k < rest.len() implies (#[trigger] rest[k]).1 == c by {
            assert(rest[k] == terms[k]);
        }
        lemma_units_complete(rest, c, p);
    }
}

/// Strengthening as `Constraint::into_strengthen` does is complete: every
/// assignment that satisfies the strengthened constraint satisfies the
/// constraint it came from.
pub proof fn lemma_strengthen_view_complete(
    terms: Seq<(Literal, u64)>,
    lower_bound: u64,
    assignment: spec_fn(nat) -> bool,
)
    requires
        lhs_under(strengthened_view(terms, lower_bound).0, assignment) >= strengthened_view(
            terms,
            lower_bound,
        ).1,
    ensures
        lhs_under(terms, assignment) >= lower_bound,
{
    let p = |l: Literal| holds_under(l, assignment);
    let sat = saturated(terms, lower_bound);
    let g = gcd_of(sat);
    lemma_saturated_at_most(terms, lower_bound, p);
    lemma_sum_where_bounds(terms, p);
    if g == 0 {
    } else if sum_below(terms, lower_bound) < lower_bound {
        let q = |t: (Literal, u64)| t.1 >= lower_bound;
        let nq = |t: (Literal, u64)| !(t.1 >= lower_bound);
        lemma_keep_split(sat, q, nq, p);
        lemma_sum_where_bounds(keep_where(sat, nq), p);
        lemma_kept_at_bound(terms, lower_bound, q);
        lemma_units_complete(keep_where(sat, q), lower_bound, p);
    } else {
        let q = |t: (Literal, u64)| t.1 != 0;
        let nq = |t: (Literal, u64)| !(t.1 != 0);
        let kept = nonzero_terms(sat);
        lemma_keep_split(sat, q, nq, p);
        lemma_zero_terms_value(sat, p);
        lemma_gcd_of_bound(sat);
        if g > 1 {
            lemma_gcd_of_divides(sat);
        } else {
            assert forall|k: int| 0 <= k < sat.len() implies (#[trigger] sat[k]).1 as nat % g == 0 by {}
        }
        lemma_keep_divisible(sat, q, g);
        assert forall|k: int| 0 <= k < kept.len() implies (#[trigger] kept[k]).1 % (g as u64) == 0 by {
            assert(kept[k].1 as nat % g == 0);
        }
        lemma_divided_value(kept, g as u64, p);
        let x = sum_where(divided(kept, g as u64), p);
        let l = lower_bound as int;
        let gi = g as int;
        assert(spec_div_ceil(lower_bound as nat, g) <= lower_bound) by {
            vstd::arithmetic::div_mod::lemma_fundamental_div_mod(l, gi);
            vstd::arithmetic::div_mod::lemma_mod_pos_bound(l, gi);
            assert(l / gi <= l) by (nonlinear_arith)
                requires
                    gi >= 1,
                    l >= 0,
            ;
            if l > 0 && gi > 1 {
                assert(l / gi < l) by (nonlinear_arith)
                    requires
                        gi > 1,
                        l > 0,
                ;
            }
        }
        assert(x == lhs_under(divided(kept, g as u64), assignment));
        assert(x >= spec_div_ceil(lower_bound as nat, g));
        assert(x * gi >= l) by (nonlinear_arith)
            requires
                x >= spec_div_ceil(lower_bound as nat, g),
                gi >= 1,
                l >= 0,
                spec_div_ceil(lower_bound as nat, g) == if l % gi == 0 {
                    l / gi
                } else {
                    l / gi + 1
                },
        {
            vstd::arithmetic::div_mod::lemma_fundamental_div_mod(l, gi);
            vstd::arithmetic::div_mod::lemma_mod_pos_bound(l, gi);
        }
    }
}

/// Strengthening as `Constraint::into_strengthen` does keeps the
/// solutions: an assignment satisfies the strengthened constraint exactly
/// when it satisfies the given one.
pub proof fn lemma_strengthen_view_equivalent(
    terms: Seq<(Literal, u64)>,
    lower_bound: u64,
    assignment: spec_fn(nat) -> bool,
)
    ensures
        (lhs_under(strengthened_view(terms, lower_bound).0, assignment) >= strengthened_view(terms, lower_bound).1)
            <==> (lhs_under(terms, assignment) >= lower_bound),
{
    if lhs_under(terms, assignment) >= lower_bound {
        lemma_strengthen_view_sound(terms, lower_bound, assignment);
    }
    if lhs_under(strengthened_view(terms, lower_bound).0, assignment) >= strengthened_view(terms, lower_bound).1 {
        lemma_strengthen_view_complete(terms, lower_bound, assignment);
    }
}

/// Strengthening as `Constraint::into_strengthen` does leaves every
/// coefficient at most the new lower bound when that is positive, and no
/// common divisor above 1 when the new lower bound is above 1 and some
/// coefficient is not zero.
pub proof fn lemma_strengthened_view_reduced(terms: Seq<(Literal, u64)>, lower_bound: u64, d: nat)
    ensures
        strengthened_view(terms, lower_bound).1 > 0 ==> forall|k: int|
            0 <= k < strengthened_view(terms, lower_bound).0.len() ==> (#[trigger] strengthened_view(
                terms,
                lower_bound,
            ).0[k]).1 <= strengthened_view(terms, lower_bound).1,
        d > 1 && strengthened_view(terms, lower_bound).1 > 1 && (exists|k: int|
            0 <= k < strengthened_view(terms, lower_bound).0.len() && (#[trigger] strengthened_view(
                terms,
                lower_bound,
            ).0[k]).1 > 0) ==> !divides_all(strengthened_view(terms, lower_bound).0, d),
{
    let sat = saturated(terms, lower_bound);
    let g = gcd_of(sat);
    let result = strengthened_view(terms, lower_bound).0;
    let bound = strengthened_view(terms, lower_bound).1;
    if g == 0 {
        if lower_bound > 0 {
            assert forall|k: int| 0 <= k < result.len() implies (#[trigger] result[k]).1 <= bound by {
                lemma_gcd_of_zero(sat, k);
                assert(sat[k].1 == if terms[k].1 > lower_bound { lower_bound } else { terms[k].1 });
            }
        }
        if exists|k: int| 0 <= k < result.len() && (#[trigger] result[k]).1 > 0 {
            let k = choose|k: int| 0 <= k < result.len() && (#[trigger] result[k]).1 > 0;
            lemma_gcd_of_zero(sat, k);
            assert(sat[k].1 == if terms[k].1 > lower_bound { lower_bound } else { terms[k].1 });
            assert(bound == lower_bound);
        }
    } else if sum_below(terms, lower_bound) < lower_bound {
    } else {
        let q = |t: (Literal, u64)| t.1 != 0;
        let kept = nonzero_terms(sat);
        lemma_gcd_of_bound(sat);
        if g > 1 {
            lemma_gcd_of_divides(sat);
        } else {
            assert forall|k: int| 0 <= k < sat.len() implies (#[trigger] sat[k]).1 as nat % g == 0 by {}
        }
        lemma_keep_divisible(sat, q, g);
        lemma_keep_bounded(sat, q, lower_bound);
        let l = lower_bound as int;
        let gi = g as int;
        assert forall|k: int| 0 <= k < result.len() implies (#[trigger] result[k]).1 <= bound by {
            let c = kept[k].1 as int;
            assert(result[k].1 == (kept[k].1 / (g as u64)) as u64);
            assert(c <= l);
            assert(c / gi <= spec_div_ceil(lower_bound as nat, g)) by (nonlinear_arith)
                requires
                    c <= l,
                    gi >= 1,
                    c >= 0,
                    spec_div_ceil(lower_bound as nat, g) == if l % gi == 0 {
                        l / gi
                    } else {
                        l / gi + 1
                    },
            {
                vstd::arithmetic::div_mod::lemma_div_is_ordered(c, l, gi);
            }
            assert(spec_div_ceil(lower_bound as nat, g) <= lower_bound) by {
                vstd::arithmetic::div_mod::lemma_fundamental_div_mod(l, gi);
                vstd::arithmetic::div_mod::lemma_mod_pos_bound(l, gi);
                assert(l / gi <= l) by (nonlinear_arith)
                    requires
                        gi >= 1,
                        l >= 0,
                ;
                if l > 0 && gi > 1 {
                    assert(l / gi < l) by (nonlinear_arith)
                        requires
                            gi > 1,
                            l > 0,
                    ;
                }
                if l == 0 {
                    assert(l % gi == 0);
                }
            }
        }
        if d > 1 && bound > 1 && divides_all(result, d) && exists|k: int| 0 <= k < result.len() && (#[trigger] result[k]).1 > 0 {
            let dg = d * g;
            assert(dg >= 2 * g) by (nonlinear_arith)
                requires
                    d > 1,
                    g >= 1,
                    dg == d * g,
            ;
            assert(divides_all(kept, dg)) by {
                assert forall|k: int| 0 <= k < kept.len() implies (#[trigger] kept[k]).1 as nat % dg == 0 by {
                    let c = kept[k].1 as nat;
                    assert(c % g == 0);
                    assert(result[k].1 == (c / g) as u64);
                    assert((c / g) % d == 0);
                    vstd::arithmetic::div_mod::lemma_fundamental_div_mod(c as int, g as int);
                    vstd::arithmetic::div_mod::lemma_fundamental_div_mod((c / g) as int, d as int);
                    let m = (c / g) / d;
                    assert(c == m * dg) by (nonlinear_arith)
                        requires
                            c == g * (c / g),
                            (c / g) == d * m,
                            dg == d * g,
                    ;
                    vstd::arithmetic::div_mod::lemma_mod_multiples_basic(m as int, dg as int);
                }
            }
            lemma_nonzero_divisible_all(sat, dg);
            lemma_divides_gcd_of(sat, dg);
            vstd::arithmetic::div_mod::lemma_small_mod(g, dg);
        }
    }
}

/// Keeping some terms keeps every coefficient at most `bound`.
proof fn lemma_keep_bounded(terms: Seq<(Literal, u64)>, q: spec_fn((Literal, u64)) -> bool, bound: u64)
    requires
        forall|k: int| 0 <= k < terms.len() ==> (#[trigger] terms[k]).1 <= bound,
    ensures
        forall|k: int| 0 <= k < keep_where(terms, q).len() ==> (#[trigger] keep_where(terms, q)[k]).1 <= bound,
    decreases terms.len(),
{
    if terms.len() > 0 {
        let rest = terms.drop_last();
        assert forall|k: int| 0 <= k < rest.len() implies (#[trigger] rest[k]).1 <= bound by {
            assert(rest[k] == terms[k]);
        }
        lemma_keep_bounded(rest, q, bound);
        let kept = keep_where(terms, q);
        assert forall|k: int| 0 <= k < kept.len() implies (#[trigger] kept[k]).1 <= bound by {
            if q(terms.last()) && k == kept.len() - 1 {
                assert(terms[terms.len() - 1] == terms.last());
            } else {
                assert(kept[k] == keep_where(rest, q)[k]);
            }
        }
    }
}

/// When `d` divides every non-zero coefficient, it divides every one.
proof fn lemma_nonzero_divisible_all(terms: Seq<(Literal, u64)>, d: nat)
    requires
        d > 0,
        divides_all(nonzero_terms(terms), d),
    ensures
        divides_all(terms, d),
    decreases terms.len(),
{
    if terms.len() > 0 {
        let q = |t: (Literal, u64)| t.1 != 0;
        let rest = terms.drop_last();
        let kept = nonzero_terms(terms);
        let kept_rest = nonzero_terms(rest);
        assert(divides_all(kept_rest, d)) by {
            assert forall|k: int| 0 <= k < kept_rest.len() implies (#[trigger] kept_rest[k]).1 as nat % d == 0 by {
                if q(terms.last()) {
                    assert(kept == kept_rest.push(terms.last()));
                    assert(kept[k] == kept_rest[k]);
                } else {
                    assert(kept == kept_rest);
                }
            }
        }
        lemma_nonzero_divisible_all(rest, d);
        assert forall|k: int| 0 <= k < terms.len() implies (#[trigger] terms[k]).1 as nat % d == 0 by {
            if k < rest.len() {
                assert(terms[k] == rest[k]);
            } else if terms[k].1 == 0 {
                vstd::arithmetic::div_mod::lemma_small_mod(0, d);
            } else {
                assert(terms[k] == terms.last());
                assert(kept == kept_rest.push(terms.last()));
                assert(kept[kept.len() - 1] == terms.last());
            }
        }
    }
}

/// Multiplying every coefficient by `value` multiplies the value of the
/// left-hand side by `value`.
proof fn lemma_multiplied_value(terms: Seq<(Literal, u64)>, value: u64, p: spec_fn(Literal) -> bool)
    requires
        forall|k: int| 0 <= k < terms.len() ==> (#[trigger] terms[k]).1 * value <= u64::MAX,
    ensures
        sum_where(multiplied(terms, value), p) == sum_where(terms, p) * value,
    decreases terms.len(),
{
    if terms.len() > 0 {
        let rest = terms.drop_last();
        assert(multiplied(terms, value).drop_last() =~= multiplied(rest, value));
        assert forall|k: int| 0 <= k < rest.len() implies (#[trigger] rest[k]).1 * value <= u64::MAX by {
            assert(rest[k] == terms[k]);
        }
        lemma_multiplied_value(rest, value, p);
        assert(terms[terms.len() - 1] == terms.last());
        let x = sum_where(rest, p);
        let c = terms.last().1 as int;
        assert((x + c) * value == x * value + c * value) by (nonlinear_arith);
    }
}

/// Multiplying a constraint by a positive value keeps the assignments that
/// satisfy it.
pub proof fn lemma_mul_equivalent(
    terms: Seq<(Literal, u64)>,
    lower_bound: u64,
    value: u64,
    assignment: spec_fn(nat) -> bool,
)
    requires
        value > 0,
        forall|k: int| 0 <= k < terms.len() ==> (#[trigger] terms[k]).1 * value <= u64::MAX,
    ensures
        lhs_under(multiplied(terms, value), assignment) >= lower_bound * value <==> lhs_under(terms, assignment)
            >= lower_bound,
{
    let p = |l: Literal| holds_under(l, assignment);
    lemma_multiplied_value(terms, value, p);
    let x = lhs_under(terms, assignment);
    let l = lower_bound as int;
    let v = value as int;
    assert(x * v >= l * v <==> x >= l) by (nonlinear_arith)
        requires
            v > 0,
    ;
}

/// The terms kept by a test on their literal sum, over `p`, to the sum over
/// the literals that pass both.
proof fn lemma_keep_by_literal(
    terms: Seq<(Literal, u64)>,
    q: spec_fn((Literal, u64)) -> bool,
    f: spec_fn(Literal) -> bool,
    p: spec_fn(Literal) -> bool,
    r: spec_fn(Literal) -> bool,
)
    requires
        forall|t: (Literal, u64)| #[trigger] q(t) == f(t.0),
        forall|l: Literal| #[trigger] r(l) == (f(l) && p(l)),
    ensures
        sum_where(keep_where(terms, q), p) == sum_where(terms, r),
    decreases terms.len(),
{
    if terms.len() > 0 {
        lemma_keep_by_literal(terms.drop_last(), q, f, p, r);
        if q(terms.last()) {
            assert(keep_where(terms, q).drop_last() =~= keep_where(terms.drop_last(), q));
        }
    }
}

/// Dropping the terms whose variable was assigned at decision level 0, and
/// taking the coefficients of those that are true off the lower bound (see
/// `drop_fixed_terms`), keeps exactly the satisfying assignments among
/// those that agree with the assertions of level 0.
pub proof fn lemma_drop_fixed_equivalent<E>(
    terms: Seq<(Literal, u64)>,
    lower_bound: u64,
    trail: Seq<AssertionInfo<E>>,
    assignment: spec_fn(nat) -> bool,
)
    requires
        forall|l: Literal|
            #[trigger] fixed_at_root(trail, l) ==> (holds_under(l, assignment) <==> asserted_before(
                trail,
                l,
                NULL_ORDER as int,
            )),
    ensures
        lhs_under(keep_where(terms, |t: (Literal, u64)| !fixed_at_root(trail, t.0)), assignment) + sum_where(
            terms,
            |l: Literal| fixed_at_root(trail, l) && asserted_before(trail, l, NULL_ORDER as int),
        ) == lhs_under(terms, assignment),
        lhs_under(keep_where(terms, |t: (Literal, u64)| !fixed_at_root(trail, t.0)), assignment) >= lower_bound
            - sum_where(
            terms,
            |l: Literal| fixed_at_root(trail, l) && asserted_before(trail, l, NULL_ORDER as int),
        ) <==> lhs_under(terms, assignment) >= lower_bound,
{
    let h = |l: Literal| holds_under(l, assignment);
    let kept = |t: (Literal, u64)| !fixed_at_root(trail, t.0);
    let dropped = |t: (Literal, u64)| !kept(t);
    let not_fixed = |l: Literal| !fixed_at_root(trail, l);
    let fixed = |l: Literal| fixed_at_root(trail, l);
    let fixed_true = |l: Literal| fixed_at_root(trail, l) && asserted_before(trail, l, NULL_ORDER as int);
    let fixed_holding = |l: Literal| fixed_at_root(trail, l) && holds_under(l, assignment);
    lemma_keep_split(terms, kept, dropped, h);
    lemma_keep_by_literal(terms, dropped, fixed, h, fixed_holding);
    lemma_where_ext(terms, fixed_holding, fixed_true);
}

/// The terms and lower bound of `strengthened_view`.
pub(crate) fn strengthen_terms(terms: &Vec<(Literal, u64)>, lower_bound: u64) -> (strengthened: (
    Vec<(Literal, u64)>,
    u64,
))
    requires
        sum_coefficients(terms@) <= u64::MAX,
    ensures
        (strengthened.0@, strengthened.1) == strengthened_view(terms@, lower_bound),
        forall|assignment: spec_fn(nat) -> bool|
            #![trigger lhs_under(strengthened.0@, assignment)]
            (lhs_under(strengthened.0@, assignment) >= strengthened.1) <==> (lhs_under(terms@, assignment)
                >= lower_bound),
        strengthened.1 > 0 ==> forall|k: int|
            0 <= k < strengthened.0@.len() ==> (#[trigger] strengthened.0@[k]).1 <= strengthened.1,
        forall|d: nat|
            #![trigger divides_all(strengthened.0@, d)]
            d > 1 && strengthened.1 > 1 && (exists|k: int|
                0 <= k < strengthened.0@.len() && (#[trigger] strengthened.0@[k]).1 > 0) ==> !divides_all(
                strengthened.0@,
                d,
            ),
{
    let ghost all = terms@;
    let mut sum_of_unsaturating_coefficients: u64 = 0;
    let mut g: u64 = 0;
    let mut saturated_terms: Vec<(Literal, u64)> = Vec::new();
    let mut k: usize = 0;
    while k < terms.len()
        invariant
            terms@ == all,
            sum_coefficients(all) <= u64::MAX,
            k <= all.len(),
            saturated_terms@ == saturated(all.subrange(0, k as int), lower_bound),
            sum_of_unsaturating_coefficients == sum_below(all.subrange(0, k as int), lower_bound),
            sum_below(all.subrange(0, k as int), lower_bound) <= sum_coefficients(all.subrange(0, k as int)),
            g == gcd_of(saturated(all.subrange(0, k as int), lower_bound)),
        decreases all.len() - k,
    {
        let (literal, coefficient) = terms[k];
        proof {
            assert(all.subrange(0, k as int + 1).drop_last() =~= all.subrange(0, k as int));
            assert(saturated(all.subrange(0, k as int + 1), lower_bound).drop_last() =~= saturated(
                all.subrange(0, k as int),
                lower_bound,
            ));
            lemma_sum_prefix(all, k as int + 1);
            lemma_sum_nonneg(all.subrange(0, k as int));
        }
        let capped = if coefficient < lower_bound {
            sum_of_unsaturating_coefficients = sum_of_unsaturating_coefficients + coefficient;
            coefficient
        } else {
            lower_bound
        };
        if g != 1 {
            proof {
                lemma_gcd_bound(g as nat, capped as nat);
            }
            g = gcd(g as u128, capped as u128) as u64;
        }
        saturated_terms.push((literal, capped));
        k = k + 1;
        proof {
            assert(saturated_terms@ =~= saturated(all.subrange(0, k as int), lower_bound));
        }
    }
    proof {
        lemma_strengthened_view_reduced(terms@, lower_bound, 2);
        assert forall|d: nat|
            d > 1 && strengthened_view(terms@, lower_bound).1 > 1 && (exists|k: int|
                0 <= k < strengthened_view(terms@, lower_bound).0.len() && (#[trigger] strengthened_view(
                    terms@,
                    lower_bound,
                ).0[k]).1 > 0) implies !divides_all(strengthened_view(terms@, lower_bound).0, d) by {
            lemma_strengthened_view_reduced(terms@, lower_bound, d);
        }
        assert forall|assignment: spec_fn(nat) -> bool| (lhs_under(
            strengthened_view(terms@, lower_bound).0,
            assignment,
        ) >= strengthened_view(terms@, lower_bound).1) <==> (lhs_under(terms@, assignment) >= lower_bound) by {
            lemma_strengthen_view_equivalent(terms@, lower_bound, assignment);
        }
    }
    proof {
        assert(all.subrange(0, all.len() as int) =~= all);
    }
    if g == 0 {
        return (copy_terms(terms), lower_bound);
    }
    let ghost sat = saturated_terms@;
    if sum_of_unsaturating_coefficients < lower_bound {
        let ghost p = |t: (Literal, u64)| t.1 >= lower_bound;
        let mut units: Vec<(Literal, u64)> = Vec::new();
        let mut j: usize = 0;
        while j < saturated_terms.len()
            invariant
                saturated_terms@ == sat,
                j <= sat.len(),
                units@ == keep_where(sat.subrange(0, j as int), p).map_values(|t: (Literal, u64)| (t.0, 1u64)),
                p == (|t: (Literal, u64)| t.1 >= lower_bound),
            decreases sat.len() - j,
        {
            proof {
                assert(sat.subrange(0, j as int + 1).drop_last() =~= sat.subrange(0, j as int));
            }
            if saturated_terms[j].1 >= lower_bound {
                units.push((saturated_terms[j].0, 1));
            }
            j = j + 1;
            proof {
                assert(units@ =~= keep_where(sat.subrange(0, j as int), p).map_values(
                    |t: (Literal, u64)| (t.0, 1u64),
                ));
            }
        }
        proof {
            assert(sat.subrange(0, sat.len() as int) =~= sat);
        }
        (units, 1)
    } else {
        let ghost q = |t: (Literal, u64)| t.1 != 0;
        let mut quotients: Vec<(Literal, u64)> = Vec::new();
        let mut j: usize = 0;
        while j < saturated_terms.len()
            invariant
                saturated_terms@ == sat,
                g > 0,
                j <= sat.len(),
                quotients@ == divided(keep_where(sat.subrange(0, j as int), q), g),
                q == (|t: (Literal, u64)| t.1 != 0),
            decreases sat.len() - j,
        {
            proof {
                assert(sat.subrange(0, j as int + 1).drop_last() =~= sat.subrange(0, j as int));
            }
            let (literal, coefficient) = saturated_terms[j];
            if coefficient != 0 {
                quotients.push((literal, coefficient / g));
            }
            j = j + 1;
            proof {
                assert(quotients@ =~= divided(keep_where(sat.subrange(0, j as int), q), g));
            }
        }
        proof {
            assert(sat.subrange(0, sat.len() as int) =~= sat);
        }
        (quotients, div_ceil(lower_bound, g))
    }
}

/// A constraint stored as a vector of terms with non-zero coefficients.
#[derive(Clone, Debug)]
pub struct CompressedConstraint {
    lhs: Vec<(Literal, u64)>,
    rhs: u64,
}

/// Keeps the terms of `terms` whose coefficient is not zero.
fn filter_nonzero(terms: Vec<(Literal, u64)>) -> (kept: Vec<(Literal, u64)>)
    ensures
        kept@ == nonzero_terms(terms@),
{
    let mut kept: Vec<(Literal, u64)> = Vec::new();
    let mut k: usize = 0;
    while k < terms.len()
        invariant
            k <= terms@.len(),
            kept@ == nonzero_terms(terms@.subrange(0, k as int)),
        decreases terms@.len() - k,
    {
        proof {
            assert(terms@.subrange(0, k as int + 1).drop_last() =~= terms@.subrange(0, k as int));
        }
        if terms[k].1 != 0 {
            kept.push(terms[k]);
        }
        k = k + 1;
    }
    proof {
        assert(terms@.subrange(0, terms@.len() as int) =~= terms@);
    }
    kept
}

impl CompressedConstraint {
    /// The constraint with the terms of `lhs` whose coefficient is not zero
    /// and lower bound `rhs`.
    pub fn new(lhs: Vec<(Literal, u64)>, rhs: u64) -> (constraint: Self)
        ensures
            constraint.spec_terms() == nonzero_terms(lhs@),
            constraint.spec_lower_bound() == rhs,
    {
        Self { lhs: filter_nonzero(lhs), rhs }
    }

    /// The constraint with the non-zero terms and the lower bound of
    /// `constraint`.
    pub fn from_constraint<ConstraintT: Constraint>(constraint: &ConstraintT) -> (compressed: Self)
        ensures
            compressed.spec_terms() == nonzero_terms(constraint.spec_terms()),
            compressed.spec_lower_bound() == constraint.spec_lower_bound(),
    {
        Self::new(constraint.iter_terms(), constraint.lower_bound())
    }

    /// Makes this the empty constraint `0 >= 0`.
    pub fn clear(&mut self)
        ensures
            final(self).spec_terms() == Seq::<(Literal, u64)>::empty(),
            final(self).spec_lower_bound() == 0,
    {
        self.lhs.clear();
        self.rhs = 0;
    }

    /// Makes this the constraint with the non-zero terms of `lhs` and lower
    /// bound `rhs`.
    pub fn replace(&mut self, lhs: Vec<(Literal, u64)>, rhs: u64)
        ensures
            final(self).spec_terms() == nonzero_terms(lhs@),
            final(self).spec_lower_bound() == rhs,
    {
        self.lhs = filter_nonzero(lhs);
        self.rhs = rhs;
    }

    /// Makes this a copy of the non-zero terms and the lower bound of
    /// `constraint`.
    pub fn assign<ConstraintT: Constraint>(&mut self, constraint: &ConstraintT)
        ensures
            final(self).spec_terms() == nonzero_terms(constraint.spec_terms()),
            final(self).spec_lower_bound() == constraint.spec_lower_bound(),
    {
        self.replace(constraint.iter_terms(), constraint.lower_bound());
    }

    /// Drops the variables fixed at decision level 0 as
    /// `drop_fixed_variables2` does, where the true ones among them take no
    /// more than the lower bound; returns whether they do (otherwise the
    /// constraint is unchanged).
    pub fn try_drop_fixed_variables2<E: Copy>(&mut self, state: &AssertionStack<E>) -> (dropped: bool)
        requires
            state.wf(),
            literals_in_range(old(self).spec_terms(), state.spec_number_of_variables()),
            sum_coefficients(old(self).spec_terms()) <= u64::MAX,
        ensures
            dropped == (sum_where(
                old(self).spec_terms(),
                |l: Literal| fixed_at_root(state.trail(), l) && asserted_before(state.trail(), l, NULL_ORDER as int),
            ) <= old(self).spec_lower_bound()),
            dropped ==> final(self).spec_terms() == keep_where(
                old(self).spec_terms(),
                |t: (Literal, u64)| !fixed_at_root(state.trail(), t.0),
            ),
            dropped ==> final(self).spec_lower_bound() == old(self).spec_lower_bound() - sum_where(
                old(self).spec_terms(),
                |l: Literal| fixed_at_root(state.trail(), l) && asserted_before(state.trail(), l, NULL_ORDER as int),
            ),
            !dropped ==> *final(self) == *old(self),
    {
        if fixed_true_sum(&self.lhs, state) > self.rhs {
            return false;
        }
        self.drop_fixed_variables2(state);
        true
    }

    /// Drops the terms whose variable was assigned at decision level 0,
    /// lowering the lower bound by the coefficients of those that are true.
    pub fn drop_fixed_variables2<E: Copy>(&mut self, state: &AssertionStack<E>)
        requires
            state.wf(),
            literals_in_range(old(self).spec_terms(), state.spec_number_of_variables()),
            sum_coefficients(old(self).spec_terms()) <= u64::MAX,
            sum_where(
                old(self).spec_terms(),
                |l: Literal| fixed_at_root(state.trail(), l) && asserted_before(state.trail(), l, NULL_ORDER as int),
            ) <= old(self).spec_lower_bound(),
        ensures
            final(self).spec_terms() == keep_where(
                old(self).spec_terms(),
                |t: (Literal, u64)| !fixed_at_root(state.trail(), t.0),
            ),
            final(self).spec_lower_bound() == old(self).spec_lower_bound() - sum_where(
                old(self).spec_terms(),
                |l: Literal| fixed_at_root(state.trail(), l) && asserted_before(state.trail(), l, NULL_ORDER as int),
            ),
    {
        let (lhs, rhs) = drop_fixed_terms(&self.lhs, self.rhs, state);
        self.lhs = lhs;
        self.rhs = rhs;
    }

    /// Strengthens the constraint (see `strengthened`).
    pub fn strengthen2<E: Copy>(&mut self, _state: &AssertionStack<E>)
        requires
            sum_below(old(self).spec_terms(), old(self).spec_lower_bound()) <= u64::MAX,
        ensures
            (final(self).spec_terms(), final(self).spec_lower_bound()) == strengthened(
                old(self).spec_terms(),
                old(self).spec_lower_bound(),
            ),
            forall|assignment: spec_fn(nat) -> bool|
                #![trigger lhs_under(final(self).spec_terms(), assignment)]
                (lhs_under(final(self).spec_terms(), assignment) >= final(self).spec_lower_bound()) <==> (lhs_under(
                    old(self).spec_terms(),
                    assignment,
                ) >= old(self).spec_lower_bound()),
            forall|k: int|
                0 <= k < final(self).spec_terms().len() ==> (#[trigger] final(self).spec_terms()[k]).1 <= old(
                    self,
                ).spec_lower_bound(),
            old(self).spec_lower_bound() > 0 ==> final(self).spec_lower_bound() <= old(self).spec_lower_bound(),
            forall|d: nat|
                #![trigger divides_all(final(self).spec_terms(), d)]
                d > 1 && final(self).spec_lower_bound() > 1 && (exists|k: int|
                    0 <= k < final(self).spec_terms().len() && (#[trigger] final(self).spec_terms()[k]).1 > 0) ==> !divides_all(
                    final(self).spec_terms(),
                    d,
                ),
    {
        proof {
            lemma_strengthened_saturated(old(self).spec_terms(), old(self).spec_lower_bound());
            assert forall|d: nat|
                d > 1 && strengthened(old(self).spec_terms(), old(self).spec_lower_bound()).1 > 1 && (exists|k: int|
                    0 <= k < strengthened(old(self).spec_terms(), old(self).spec_lower_bound()).0.len() && (#[trigger] strengthened(
                        old(self).spec_terms(),
                        old(self).spec_lower_bound(),
                    ).0[k]).1 > 0) implies !divides_all(
                strengthened(old(self).spec_terms(), old(self).spec_lower_bound()).0,
                d,
            ) by {
                lemma_strengthened_reduced(old(self).spec_terms(), old(self).spec_lower_bound(), d);
            }
            assert forall|assignment: spec_fn(nat) -> bool| (lhs_under(
                strengthened(old(self).spec_terms(), old(self).spec_lower_bound()).0,
                assignment,
            ) >= strengthened(old(self).spec_terms(), old(self).spec_lower_bound()).1) <==> (lhs_under(
                old(self).spec_terms(),
                assignment,
            ) >= old(self).spec_lower_bound()) by {
                lemma_strengthen_equivalent(old(self).spec_terms(), old(self).spec_lower_bound(), assignment);
            }
        }
        let ghost terms = self.lhs@;
        let lower_bound = self.rhs;
        let mut sum_of_unsaturating_coefficients: u64 = 0;
        let mut g: u64 = 0;
        let mut saturated_terms: Vec<(Literal, u64)> = Vec::new();
        let mut k: usize = 0;
        while k < self.lhs.len()
            invariant
                self.lhs@ == terms,
                lower_bound == old(self).spec_lower_bound(),
                sum_below(terms, lower_bound) <= u64::MAX,
                k <= terms.len(),
                saturated_terms@ == saturated(terms.subrange(0, k as int), lower_bound),
                sum_of_unsaturating_coefficients == sum_below(terms.subrange(0, k as int), lower_bound),
                g == gcd_of(saturated(terms.subrange(0, k as int), lower_bound)),
            decreases terms.len() - k,
        {
            let (literal, coefficient) = self.lhs[k];
            proof {
                assert(terms.subrange(0, k as int + 1).drop_last() =~= terms.subrange(0, k as int));
                assert(saturated(terms.subrange(0, k as int + 1), lower_bound).drop_last() =~= saturated(
                    terms.subrange(0, k as int),
                    lower_bound,
                ));
                lemma_sum_below_bounds(terms, lower_bound, k as int + 1);
                lemma_sum_below_bounds(terms, lower_bound, k as int);
            }
            let capped = if coefficient < lower_bound {
                sum_of_unsaturating_coefficients = sum_of_unsaturating_coefficients + coefficient;
                coefficient
            } else if coefficient > lower_bound {
                lower_bound
            } else {
                coefficient
            };
            if g != 1 {
                proof {
                    lemma_gcd_bound(g as nat, capped as nat);
                }
                g = gcd(g as u128, capped as u128) as u64;
            }
            saturated_terms.push((literal, capped));
            k = k + 1;
            proof {
                assert(saturated_terms@ =~= saturated(terms.subrange(0, k as int), lower_bound));
            }
        }
        proof {
            assert(terms.subrange(0, terms.len() as int) =~= terms);
        }
        if g == 0 {
            self.lhs = saturated_terms;
            return;
        }
        if sum_of_unsaturating_coefficients < lower_bound {
            let ghost p = |t: (Literal, u64)| t.1 >= lower_bound;
            let mut kept: Vec<(Literal, u64)> = Vec::new();
            let mut j: usize = 0;
            while j < saturated_terms.len()
                invariant
                    j <= saturated_terms@.len(),
                    kept@ == keep_where(saturated_terms@.subrange(0, j as int), p),
                    p == (|t: (Literal, u64)| t.1 >= lower_bound),
                decreases saturated_terms@.len() - j,
            {
                proof {
                    assert(saturated_terms@.subrange(0, j as int + 1).drop_last() =~= saturated_terms@.subrange(
                        0,
                        j as int,
                    ));
                }
                if saturated_terms[j].1 >= lower_bound {
                    kept.push(saturated_terms[j]);
                }
                j = j + 1;
            }
            proof {
                assert(saturated_terms@.subrange(0, saturated_terms@.len() as int) =~= saturated_terms@);
            }
            self.lhs = kept;
            self.rhs = 1;
        } else if g > 1 {
            let mut quotients: Vec<(Literal, u64)> = Vec::new();
            let mut j: usize = 0;
            while j < saturated_terms.len()
                invariant
                    g > 1,
                    j <= saturated_terms@.len(),
                    quotients@ == divided(saturated_terms@.subrange(0, j as int), g),
                decreases saturated_terms@.len() - j,
            {
                let (literal, coefficient) = saturated_terms[j];
                quotients.push((literal, coefficient / g));
                j = j + 1;
                proof {
                    assert(quotients@ =~= divided(saturated_terms@.subrange(0, j as int), g));
                }
            }
            proof {
                assert(saturated_terms@.subrange(0, saturated_terms@.len() as int) =~= saturated_terms@);
            }
            self.lhs = quotients;
            self.rhs = div_ceil(lower_bound, g);
        } else {
            self.lhs = saturated_terms;
        }
    }
}

impl Constraint for CompressedConstraint {
    closed spec fn spec_terms(&self) -> Seq<(Literal, u64)> {
        self.lhs@
    }

    closed spec fn spec_lower_bound(&self) -> u64 {
        self.rhs
    }

    fn iter_terms(&self) -> (terms: Vec<(Literal, u64)>) {
        copy_terms(&self.lhs)
    }

    fn lower_bound(&self) -> (lower_bound: u64) {
        self.rhs
    }
}

impl Default for CompressedConstraint {
    fn default() -> (constraint: Self)
        ensures
            constraint.spec_terms() == Seq::<(Literal, u64)>::empty(),
            constraint.spec_lower_bound() == 0,
    {
        Self { lhs: Vec::new(), rhs: 0 }
    }
}

} // verus!
