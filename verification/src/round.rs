//! Division of a constraint by a divisor with the rounding of each
//! coefficient chosen so that the right-hand side loses as little as
//! possible.
use vstd::prelude::*;

use crate::compressed_constraint::holds_under;
use crate::literal::Literal;

verus! {

/// How a coefficient is rounded when it is divided.
#[derive(Clone, Copy, PartialEq, Eq, Structural, Debug)]
pub enum Rounding {
    /// The divisor divides it.
    Unnecessary,
    /// Rounded up: its literal's term weakens nothing.
    Up,
    /// Rounded down: the right-hand side loses the remainder.
    Down,
}

/// A term with its rounding and the distance to the rounded multiple.
#[derive(Clone, Copy, PartialEq, Eq, Structural, Debug)]
pub struct RoundedTerm {
    pub literal: Literal,
    pub coefficient: u128,
    pub rounding: Rounding,
    pub rounding_length: u128,
}

/// `a / d` rounded up, for `a >= 0` and `d > 0`.
pub open spec fn ceil_div(a: int, d: int) -> int {
    if a % d == 0 {
        a / d
    } else {
        a / d + 1
    }
}

/// The initial rounding of a term with a non-zero coefficient: none when the
/// divisor divides it, up for a core literal, down otherwise.
pub open spec fn initial_rounding(term: (Literal, u128), divisor: u128, core: bool) -> RoundedTerm {
    let c = term.1;
    if c % divisor == 0 {
        RoundedTerm { literal: term.0, coefficient: c, rounding: Rounding::Unnecessary, rounding_length: 0 }
    } else if core {
        RoundedTerm {
            literal: term.0,
            coefficient: c,
            rounding: Rounding::Up,
            rounding_length: (divisor - c % divisor) as u128,
        }
    } else {
        RoundedTerm { literal: term.0, coefficient: c, rounding: Rounding::Down, rounding_length: c % divisor }
    }
}

/// The terms with a non-zero coefficient, in order, with their initial
/// rounding; `core[k]` says whether the literal of `terms[k]` is rounded up.
pub open spec fn initial_terms(terms: Seq<(Literal, u128)>, divisor: u128, core: Seq<bool>) -> Seq<RoundedTerm>
    decreases terms.len(),
{
    if terms.len() == 0 {
        Seq::empty()
    } else {
        let rest = initial_terms(terms.drop_last(), divisor, core.drop_last());
        if terms.last().1 == 0 {
            rest
        } else {
            rest.push(initial_rounding(terms.last(), divisor, core[terms.len() - 1]))
        }
    }
}

/// What rounding `t` down costs the right-hand side.
pub open spec fn down_length(t: RoundedTerm) -> int {
    if t.rounding == Rounding::Down {
        t.rounding_length as int
    } else {
        0
    }
}

/// The total cost of the terms rounded down.
pub open spec fn down_total(s: Seq<RoundedTerm>) -> int
    decreases s.len(),
{
    if s.len() == 0 {
        0
    } else {
        down_total(s.drop_last()) + down_length(s.last())
    }
}

/// `k` is where a term of rounding length `length` goes in `r`, which is in
/// descending order of rounding length: after every term at least as long.
pub open spec fn is_insert_position(r: Seq<RoundedTerm>, length: u128, k: int) -> bool {
    &&& 0 <= k <= r.len()
    &&& forall|j: int| 0 <= j < k ==> (#[trigger] r[j]).rounding_length >= length
    &&& k < r.len() ==> r[k].rounding_length < length
}

/// The terms in descending order of rounding length, terms of equal length
/// in the order they are given.
pub open spec fn sorted_by_length(s: Seq<RoundedTerm>) -> Seq<RoundedTerm>
    decreases s.len(),
{
    if s.len() == 0 {
        Seq::empty()
    } else {
        let r = sorted_by_length(s.drop_last());
        r.insert(choose|k: int| is_insert_position(r, s.last().rounding_length, k), s.last())
    }
}

/// One step of the pass that flips roundings: an up-rounded term is rounded
/// down when the rounded-up right-hand side stays the same, and a
/// down-rounded one up when that raises the rounded-up right-hand side by
/// one.
pub open spec fn switch_step(t: RoundedTerm, rhs: int, divisor: int) -> (RoundedTerm, int) {
    match t.rounding {
        Rounding::Up => {
            let decrease = divisor - t.rounding_length;
            if rhs > decrease && ceil_div(rhs - decrease, divisor) == ceil_div(rhs, divisor) {
                (RoundedTerm { rounding: Rounding::Down, ..t }, rhs - decrease)
            } else {
                (t, rhs)
            }
        },
        Rounding::Down => {
            let increase = t.rounding_length as int;
            if ceil_div(rhs + increase, divisor) == ceil_div(rhs, divisor) + 1 {
                (RoundedTerm { rounding: Rounding::Up, ..t }, rhs + increase)
            } else {
                (t, rhs)
            }
        },
        Rounding::Unnecessary => (t, rhs),
    }
}

/// The terms and the right-hand side after the pass over the first `n`
/// terms.
pub open spec fn switch_prefix(s: Seq<RoundedTerm>, rhs: int, divisor: int, n: nat) -> (Seq<RoundedTerm>, int)
    decreases n,
{
    if n == 0 {
        (s, rhs)
    } else {
        let (s1, r1) = switch_prefix(s, rhs, divisor, (n - 1) as nat);
        let (t, r2) = switch_step(s1[n - 1], r1, divisor);
        (s1.update(n - 1, t), r2)
    }
}

/// The coefficient of a term once divided with its rounding.
pub open spec fn rounded_coefficient(t: RoundedTerm, divisor: int) -> int {
    match t.rounding {
        Rounding::Unnecessary => (t.coefficient as int) / divisor,
        Rounding::Up => ceil_div(t.coefficient as int, divisor),
        Rounding::Down => (t.coefficient as int) / divisor,
    }
}

/// The divided terms, each coefficient capped at `lower_bound`, without the
/// zero ones.
pub open spec fn divided_terms(s: Seq<RoundedTerm>, divisor: int, lower_bound: int) -> Seq<(Literal, u128)>
    decreases s.len(),
{
    if s.len() == 0 {
        Seq::empty()
    } else {
        let rest = divided_terms(s.drop_last(), divisor, lower_bound);
        let c = rounded_coefficient(s.last(), divisor);
        let capped = if c < lower_bound {
            c
        } else {
            lower_bound
        };
        if capped == 0 {
            rest
        } else {
            rest.push((s.last().literal, capped as u128))
        }
    }
}

/// The constraint `terms >= lower_bound` divided by `divisor`: its terms and
/// its lower bound.
pub open spec fn weakened(terms: Seq<(Literal, u128)>, lower_bound: u128, divisor: u128, core: Seq<bool>) -> (
    Seq<(Literal, u128)>,
    u128,
) {
    let initial = initial_terms(terms, divisor, core);
    let sorted = sorted_by_length(initial);
    let (switched, rhs) = switch_prefix(sorted, lower_bound - down_total(initial), divisor as int, sorted.len());
    let new_lower_bound = ceil_div(rhs, divisor as int);
    (divided_terms(switched, divisor as int, new_lower_bound), new_lower_bound as u128)
}

/// `a / d` rounded up.
pub fn ceil_div_u128(a: u128, d: u128) -> (q: u128)
    requires
        d > 0,
    ensures
        q == ceil_div(a as int, d as int),
{
    if a % d == 0 {
        a / d
    } else {
        assert(a / d < u128::MAX) by (nonlinear_arith)
            requires
                d > 1,
                a <= u128::MAX,
        ;
        a / d + 1
    }
}

/// Inserting a term adds its cost to the total.
proof fn lemma_down_total_insert(r: Seq<RoundedTerm>, k: int, x: RoundedTerm)
    requires
        0 <= k <= r.len(),
    ensures
        down_total(r.insert(k, x)) == down_total(r) + down_length(x),
    decreases r.len(),
{
    if k == r.len() {
        assert(r.insert(k, x).drop_last() =~= r);
    } else {
        assert(r.insert(k, x).drop_last() =~= r.drop_last().insert(k, x));
        lemma_down_total_insert(r.drop_last(), k, x);
    }
}

/// The total cost of a concatenation is the sum of the totals.
proof fn lemma_down_total_concat(a: Seq<RoundedTerm>, b: Seq<RoundedTerm>)
    ensures
        down_total(a + b) == down_total(a) + down_total(b),
    decreases b.len(),
{
    if b.len() == 0 {
        assert(a + b =~= a);
    } else {
        assert((a + b).drop_last() =~= a + b.drop_last());
        lemma_down_total_concat(a, b.drop_last());
    }
}

/// The cost of a single term.
proof fn lemma_down_total_single(t: RoundedTerm)
    ensures
        down_total(seq![t]) == down_length(t),
{
    let s = seq![t];
    assert(s.drop_last() =~= Seq::<RoundedTerm>::empty());
    assert(s.last() == t);
    assert(down_total(s.drop_last()) == 0);
}

/// Costs are non-negative.
proof fn lemma_down_total_nonneg(s: Seq<RoundedTerm>)
    ensures
        down_total(s) >= 0,
    decreases s.len(),
{
    if s.len() > 0 {
        lemma_down_total_nonneg(s.drop_last());
    }
}

/// Every rounding length is below `divisor`.
pub open spec fn lengths_below(s: Seq<RoundedTerm>, divisor: int) -> bool {
    forall|j: int| 0 <= j < s.len() ==> (#[trigger] s[j]).rounding_length < divisor
}

/// The insert position is unique.
proof fn lemma_insert_position_unique(r: Seq<RoundedTerm>, length: u128, k1: int, k2: int)
    requires
        is_insert_position(r, length, k1),
        is_insert_position(r, length, k2),
    ensures
        k1 == k2,
{
    if k1 < k2 {
        assert(r[k1].rounding_length >= length);
    } else if k2 < k1 {
        assert(r[k2].rounding_length >= length);
    }
}

/// The initial terms of a prefix cost no more than all of them.
proof fn lemma_initial_prefix(terms: Seq<(Literal, u128)>, divisor: u128, core: Seq<bool>, k: int)
    requires
        0 <= k <= terms.len(),
        core.len() == terms.len(),
    ensures
        down_total(initial_terms(terms.take(k), divisor, core.take(k))) <= down_total(
            initial_terms(terms, divisor, core),
        ),
    decreases terms.len(),
{
    if k < terms.len() {
        lemma_initial_prefix(terms.drop_last(), divisor, core.drop_last(), k);
        assert(terms.drop_last().take(k) =~= terms.take(k));
        assert(core.drop_last().take(k) =~= core.take(k));
        let rest = initial_terms(terms.drop_last(), divisor, core.drop_last());
        if terms.last().1 != 0 {
            assert(rest.push(initial_rounding(terms.last(), divisor, core[terms.len() - 1])).drop_last() =~= rest);
        }
    } else {
        assert(terms.take(k) =~= terms);
        assert(core.take(k) =~= core);
    }
}

/// The pass leaves the terms from `n` on and the length unchanged, and the
/// right-hand side plus the cost of the terms still to come never grows.
proof fn lemma_switch_prefix(s: Seq<RoundedTerm>, rhs: int, divisor: int, n: nat)
    requires
        n <= s.len(),
        divisor > 0,
        rhs >= 0,
        lengths_below(s, divisor),
    ensures
        switch_prefix(s, rhs, divisor, n).0.len() == s.len(),
        forall|j: int| n <= j < s.len() ==> #[trigger] switch_prefix(s, rhs, divisor, n).0[j] == s[j],
        switch_prefix(s, rhs, divisor, n).1 >= 0,
        switch_prefix(s, rhs, divisor, n).1 + down_total(s.subrange(n as int, s.len() as int))
            <= rhs + down_total(s),
    decreases n,
{
    if n == 0 {
        assert(s.subrange(0, s.len() as int) =~= s);
    } else {
        lemma_switch_prefix(s, rhs, divisor, (n - 1) as nat);
        let (s1, r1) = switch_prefix(s, rhs, divisor, (n - 1) as nat);
        let t = s[n - 1];
        assert(s1[n - 1] == t);
        let (t2, r2) = switch_step(s1[n - 1], r1, divisor);
        assert(r2 <= r1 + down_length(t));
        let rest = s.subrange(n as int, s.len() as int);
        assert(s.subrange(n - 1, s.len() as int) =~= seq![t] + rest);
        lemma_down_total_concat(seq![t], rest);
        assert(seq![t].drop_last() =~= Seq::<RoundedTerm>::empty());
        lemma_down_total_single(t);
        lemma_down_total_nonneg(rest);
    }
}

/// The value of the left-hand side of `terms` under `assignment`.
pub open spec fn value_under(terms: Seq<(Literal, u128)>, assignment: spec_fn(nat) -> bool) -> int
    decreases terms.len(),
{
    if terms.len() == 0 {
        0
    } else {
        value_under(terms.drop_last(), assignment) + if holds_under(terms.last().0, assignment) {
            terms.last().1 as int
        } else {
            0
        }
    }
}

/// The value of the left-hand side of rounded terms under `assignment`.
spec fn rounded_terms_value(s: Seq<RoundedTerm>, assignment: spec_fn(nat) -> bool) -> int
    decreases s.len(),
{
    if s.len() == 0 {
        0
    } else {
        rounded_terms_value(s.drop_last(), assignment) + if holds_under(s.last().literal, assignment) {
            s.last().coefficient as int
        } else {
            0
        }
    }
}

/// The value of the divided coefficients under `assignment`.
spec fn quotient_value(s: Seq<RoundedTerm>, divisor: int, assignment: spec_fn(nat) -> bool) -> int
    decreases s.len(),
{
    if s.len() == 0 {
        0
    } else {
        quotient_value(s.drop_last(), divisor, assignment) + if holds_under(s.last().literal, assignment) {
            rounded_coefficient(s.last(), divisor)
        } else {
            0
        }
    }
}

/// The remainder of a term rounded down.
spec fn down_remainder(t: RoundedTerm, divisor: int) -> int {
    if t.rounding == Rounding::Down {
        t.coefficient as int % divisor
    } else {
        0
    }
}

/// What the right-hand side loses: the remainders of the terms rounded down.
spec fn remainder_total(s: Seq<RoundedTerm>, divisor: int) -> int
    decreases s.len(),
{
    if s.len() == 0 {
        0
    } else {
        remainder_total(s.drop_last(), divisor) + down_remainder(s.last(), divisor)
    }
}

/// A term as rounded first: the distance to the rounded multiple, and no
/// rounding when the divisor divides the coefficient.
spec fn well_rounded(t: RoundedTerm, divisor: int) -> bool {
    match t.rounding {
        Rounding::Unnecessary => t.coefficient as int % divisor == 0 && t.rounding_length == 0,
        Rounding::Up => t.coefficient as int % divisor != 0 && t.rounding_length == divisor
            - t.coefficient as int % divisor,
        Rounding::Down => t.rounding_length == t.coefficient as int % divisor,
    }
}

/// The initial terms carry their values and are well rounded.
proof fn lemma_initial_terms(terms: Seq<(Literal, u128)>, divisor: u128, core: Seq<bool>, assignment: spec_fn(nat) -> bool)
    requires
        divisor > 0,
        core.len() == terms.len(),
    ensures
        rounded_terms_value(initial_terms(terms, divisor, core), assignment) == value_under(terms, assignment),
        forall|j: int|
            0 <= j < initial_terms(terms, divisor, core).len() ==> well_rounded(
                #[trigger] initial_terms(terms, divisor, core)[j],
                divisor as int,
            ),
        remainder_total(initial_terms(terms, divisor, core), divisor as int) == down_total(
            initial_terms(terms, divisor, core),
        ),
    decreases terms.len(),
{
    if terms.len() > 0 {
        lemma_initial_terms(terms.drop_last(), divisor, core.drop_last(), assignment);
        let rest = initial_terms(terms.drop_last(), divisor, core.drop_last());
        if terms.last().1 != 0 {
            let t = initial_rounding(terms.last(), divisor, core[terms.len() - 1]);
            assert(rest.push(t).drop_last() =~= rest);
        }
    }
}

/// Inserting a term adds its value and remainder.
proof fn lemma_insert_values(r: Seq<RoundedTerm>, k: int, x: RoundedTerm, divisor: int, assignment: spec_fn(nat) -> bool)
    requires
        0 <= k <= r.len(),
    ensures
        rounded_terms_value(r.insert(k, x), assignment) == rounded_terms_value(r, assignment) + if holds_under(
            x.literal,
            assignment,
        ) {
            x.coefficient as int
        } else {
            0
        },
        remainder_total(r.insert(k, x), divisor) == remainder_total(r, divisor) + down_remainder(x, divisor),
    decreases r.len(),
{
    if k == r.len() {
        assert(r.insert(k, x).drop_last() =~= r);
    } else {
        assert(r.insert(k, x).drop_last() =~= r.drop_last().insert(k, x));
        lemma_insert_values(r.drop_last(), k, x, divisor, assignment);
    }
}

/// Sorting keeps the value, the remainders and the rounding of every term.
proof fn lemma_sorted_values(s: Seq<RoundedTerm>, divisor: int, assignment: spec_fn(nat) -> bool)
    requires
        forall|j: int| 0 <= j < s.len() ==> well_rounded(#[trigger] s[j], divisor),
    ensures
        rounded_terms_value(sorted_by_length(s), assignment) == rounded_terms_value(s, assignment),
        remainder_total(sorted_by_length(s), divisor) == remainder_total(s, divisor),
        forall|j: int| 0 <= j < sorted_by_length(s).len() ==> well_rounded(#[trigger] sorted_by_length(s)[j], divisor),
        sorted_by_length(s).len() == s.len(),
    decreases s.len(),
{
    if s.len() > 0 {
        let rest = s.drop_last();
        assert forall|j: int| 0 <= j < rest.len() implies well_rounded(#[trigger] rest[j], divisor) by {
            assert(rest[j] == s[j]);
        }
        lemma_sorted_values(rest, divisor, assignment);
        let r = sorted_by_length(rest);
        let x = s.last();
        assert(well_rounded(s[s.len() - 1], divisor));
        lemma_first_shorter(r, x.rounding_length);
        let k = choose|k: int| is_insert_position(r, x.rounding_length, k);
        lemma_insert_values(r, k, x, divisor, assignment);
        assert forall|j: int| 0 <= j < r.insert(k, x).len() implies well_rounded(#[trigger] r.insert(k, x)[j], divisor) by {
            if j < k {
                assert(r.insert(k, x)[j] == r[j]);
            } else if j > k {
                assert(r.insert(k, x)[j] == r[j - 1]);
            }
        }
    }
}

/// An insert position exists when the terms are in descending order.
proof fn lemma_first_shorter(r: Seq<RoundedTerm>, length: u128)
    ensures
        exists|k: int| is_insert_position(r, length, k),
{
    let k = choose_first_shorter(r, length);
}

/// The first position of a term shorter than `length` is an insert position
/// if the terms before it are all at least as long.
proof fn choose_first_shorter(r: Seq<RoundedTerm>, length: u128) -> (k: int)
    ensures
        0 <= k <= r.len(),
        forall|j: int| 0 <= j < k ==> (#[trigger] r[j]).rounding_length >= length,
        k < r.len() ==> r[k].rounding_length < length,
        is_insert_position(r, length, k),
    decreases r.len(),
{
    if r.len() == 0 {
        0
    } else {
        let k0 = choose_first_shorter(r.drop_last(), length);
        if k0 < r.len() - 1 {
            assert forall|j: int| 0 <= j < k0 implies (#[trigger] r[j]).rounding_length >= length by {
                assert(r[j] == r.drop_last()[j]);
            }
            assert(r[k0] == r.drop_last()[k0]);
            k0
        } else {
            assert forall|j: int| 0 <= j < k0 implies (#[trigger] r[j]).rounding_length >= length by {
                assert(r[j] == r.drop_last()[j]);
            }
            if r.last().rounding_length < length {
                k0
            } else {
                r.len() as int
            }
        }
    }
}

/// Updating a term changes the value and the remainders by its own.
proof fn lemma_update_values(s: Seq<RoundedTerm>, i: int, x: RoundedTerm, divisor: int, assignment: spec_fn(nat) -> bool)
    requires
        0 <= i < s.len(),
        x.literal == s[i].literal,
        x.coefficient == s[i].coefficient,
    ensures
        rounded_terms_value(s.update(i, x), assignment) == rounded_terms_value(s, assignment),
        remainder_total(s.update(i, x), divisor) == remainder_total(s, divisor) - down_remainder(s[i], divisor)
            + down_remainder(x, divisor),
    decreases s.len(),
{
    if i == s.len() - 1 {
        assert(s.update(i, x).drop_last() =~= s.drop_last());
    } else {
        assert(s.update(i, x).drop_last() =~= s.drop_last().update(i, x));
        lemma_update_values(s.drop_last(), i, x, divisor, assignment);
    }
}

/// The pass keeps the value, and the right-hand side stays the lower bound
/// less the remainders of the terms rounded down.
proof fn lemma_switch_values(
    s: Seq<RoundedTerm>,
    rhs: int,
    divisor: int,
    n: nat,
    lower_bound: int,
    assignment: spec_fn(nat) -> bool,
)
    requires
        n <= s.len(),
        divisor > 0,
        rhs >= 0,
        lengths_below(s, divisor),
        forall|j: int| 0 <= j < s.len() ==> well_rounded(#[trigger] s[j], divisor),
        rhs == lower_bound - remainder_total(s, divisor),
    ensures
        rounded_terms_value(switch_prefix(s, rhs, divisor, n).0, assignment) == rounded_terms_value(s, assignment),
        switch_prefix(s, rhs, divisor, n).1 == lower_bound - remainder_total(
            switch_prefix(s, rhs, divisor, n).0,
            divisor,
        ),
        forall|j: int|
            0 <= j < switch_prefix(s, rhs, divisor, n).0.len() && #[trigger] switch_prefix(s, rhs, divisor, n).0[j].rounding
                == Rounding::Unnecessary ==> switch_prefix(s, rhs, divisor, n).0[j].coefficient as int % divisor == 0,
    decreases n,
{
    lemma_switch_prefix(s, rhs, divisor, n);
    if n > 0 {
        lemma_switch_values(s, rhs, divisor, (n - 1) as nat, lower_bound, assignment);
        lemma_switch_prefix(s, rhs, divisor, (n - 1) as nat);
        let (s1, r1) = switch_prefix(s, rhs, divisor, (n - 1) as nat);
        let t = s1[n - 1];
        assert(t == s[n - 1]);
        assert(well_rounded(s[n - 1], divisor));
        let (t2, r2) = switch_step(t, r1, divisor);
        lemma_update_values(s1, n - 1, t2, divisor, assignment);
        assert forall|j: int|
            0 <= j < s1.update(n - 1, t2).len() && #[trigger] s1.update(n - 1, t2)[j].rounding == Rounding::Unnecessary
                implies s1.update(n - 1, t2)[j].coefficient as int % divisor == 0 by {
            if j != n - 1 {
                assert(s1.update(n - 1, t2)[j] == s1[j]);
            }
        }
    } else {
        assert forall|j: int|
            0 <= j < s.len() && #[trigger] s[j].rounding == Rounding::Unnecessary implies s[j].coefficient as int % divisor
                == 0 by {
            assert(well_rounded(s[j], divisor));
        }
    }
}

/// Divided coefficients times the divisor, with the remainders of the terms
/// rounded down, reach the value.
proof fn lemma_quotient_value(s: Seq<RoundedTerm>, divisor: int, assignment: spec_fn(nat) -> bool)
    requires
        divisor > 0,
        forall|j: int|
            0 <= j < s.len() && (#[trigger] s[j]).rounding == Rounding::Unnecessary ==> s[j].coefficient as int % divisor == 0,
    ensures
        divisor * quotient_value(s, divisor, assignment) + remainder_total(s, divisor) >= rounded_terms_value(
            s,
            assignment,
        ),
        quotient_value(s, divisor, assignment) >= 0,
    decreases s.len(),
{
    if s.len() > 0 {
        let rest = s.drop_last();
        assert forall|j: int|
            0 <= j < rest.len() && (#[trigger] rest[j]).rounding == Rounding::Unnecessary implies rest[j].coefficient as int
                % divisor == 0 by {
            assert(rest[j] == s[j]);
        }
        lemma_quotient_value(rest, divisor, assignment);
        let t = s.last();
        let c = t.coefficient as int;
        assert(s[s.len() - 1] == t);
        vstd::arithmetic::div_mod::lemma_fundamental_div_mod(c, divisor);
        let q = c / divisor;
        let r = c % divisor;
        assert(0 <= r < divisor);
        assert(q >= 0) by (nonlinear_arith)
            requires
                c >= 0,
                divisor > 0,
                q == c / divisor,
        ;
        let qt = rounded_coefficient(t, divisor);
        assert(divisor * qt + down_remainder(t, divisor) >= c && qt >= 0) by (nonlinear_arith)
            requires
                c == divisor * q + r,
                0 <= r < divisor,
                q >= 0,
                qt == q || (r != 0 && qt == q + 1) || (r == 0 && qt == q),
                t.rounding == Rounding::Down ==> qt == q && down_remainder(t, divisor) == r,
                t.rounding != Rounding::Down ==> down_remainder(t, divisor) == 0,
                t.rounding == Rounding::Unnecessary ==> r == 0 && qt == q,
                t.rounding == Rounding::Up ==> (r != 0 ==> qt == q + 1) && (r == 0 ==> qt == q),
        ;
        let qr = quotient_value(rest, divisor, assignment);
        let qv = if holds_under(t.literal, assignment) { qt } else { 0 };
        assert(divisor * (qr + qv) == divisor * qr + divisor * qv) by (nonlinear_arith);
        assert(divisor * qv >= 0) by (nonlinear_arith)
            requires
                qv >= 0,
                divisor > 0,
        ;
    }
}

/// Capping the divided coefficients at `bound` keeps a value of at least
/// `bound` when the value was.
proof fn lemma_divided_terms_value(s: Seq<RoundedTerm>, divisor: int, bound: int, assignment: spec_fn(nat) -> bool)
    requires
        divisor > 0,
        0 <= bound <= u128::MAX,
        forall|j: int| 0 <= j < s.len() ==> rounded_coefficient(#[trigger] s[j], divisor) >= 0,
    ensures
        value_under(divided_terms(s, divisor, bound), assignment) >= if quotient_value(s, divisor, assignment)
            < bound {
            quotient_value(s, divisor, assignment)
        } else {
            bound
        },
    decreases s.len(),
{
    if s.len() > 0 {
        let rest = s.drop_last();
        assert forall|j: int| 0 <= j < rest.len() implies rounded_coefficient(#[trigger] rest[j], divisor) >= 0 by {
            assert(rest[j] == s[j]);
        }
        lemma_divided_terms_value(rest, divisor, bound, assignment);
        lemma_quotient_nonneg(rest, divisor, assignment);
        assert(rounded_coefficient(s[s.len() - 1], divisor) >= 0);
        let d = divided_terms(s, divisor, bound);
        let c = rounded_coefficient(s.last(), divisor);
        let capped = if c < bound {
            c
        } else {
            bound
        };
        let qr = quotient_value(rest, divisor, assignment);
        let vr = value_under(divided_terms(rest, divisor, bound), assignment);
        if capped != 0 {
            assert(d.drop_last() =~= divided_terms(rest, divisor, bound));
            assert(d.last() == (s.last().literal, capped as u128));
            assert(value_under(d, assignment) == vr + if holds_under(s.last().literal, assignment) {
                capped
            } else {
                0
            });
        }
    }
}

/// Remainders are non-negative.
proof fn lemma_remainder_nonneg(s: Seq<RoundedTerm>, divisor: int)
    requires
        divisor > 0,
    ensures
        remainder_total(s, divisor) >= 0,
    decreases s.len(),
{
    if s.len() > 0 {
        lemma_remainder_nonneg(s.drop_last(), divisor);
    }
}

/// Values of non-negative divided coefficients are non-negative.
proof fn lemma_quotient_nonneg(s: Seq<RoundedTerm>, divisor: int, assignment: spec_fn(nat) -> bool)
    requires
        divisor > 0,
        forall|j: int| 0 <= j < s.len() ==> rounded_coefficient(#[trigger] s[j], divisor) >= 0,
    ensures
        quotient_value(s, divisor, assignment) >= 0,
    decreases s.len(),
{
    if s.len() > 0 {
        let rest = s.drop_last();
        assert forall|j: int| 0 <= j < rest.len() implies rounded_coefficient(#[trigger] rest[j], divisor) >= 0 by {
            assert(rest[j] == s[j]);
        }
        lemma_quotient_nonneg(rest, divisor, assignment);
        assert(rounded_coefficient(s[s.len() - 1], divisor) >= 0);
    }
}

/// Weakening is sound: every assignment that satisfies `terms >= lower_bound`
/// satisfies the divided constraint.
pub proof fn lemma_weaken_sound(
    terms: Seq<(Literal, u128)>,
    lower_bound: u128,
    divisor: u128,
    core: Seq<bool>,
    assignment: spec_fn(nat) -> bool,
)
    requires
        divisor > 0,
        core.len() == terms.len(),
        down_total(initial_terms(terms, divisor, core)) <= lower_bound,
        value_under(terms, assignment) >= lower_bound,
    ensures
        value_under(weakened(terms, lower_bound, divisor, core).0, assignment) >= weakened(
            terms,
            lower_bound,
            divisor,
            core,
        ).1,
{
    let d = divisor as int;
    let initial = initial_terms(terms, divisor, core);
    lemma_initial_terms(terms, divisor, core, assignment);
    lemma_sorted_values(initial, d, assignment);
    let sorted = sorted_by_length(initial);
    let rhs0 = lower_bound - down_total(initial);
    assert(lengths_below(initial, d)) by {
        assert forall|j: int| 0 <= j < initial.len() implies (#[trigger] initial[j]).rounding_length < d by {
            assert(well_rounded(initial[j], d));
        }
    }
    assert(lengths_below(sorted, d)) by {
        assert forall|j: int| 0 <= j < sorted.len() implies (#[trigger] sorted[j]).rounding_length < d by {
            assert(well_rounded(sorted[j], d));
        }
    }
    lemma_switch_values(sorted, rhs0, d, sorted.len(), lower_bound as int, assignment);
    lemma_switch_prefix(sorted, rhs0, d, sorted.len());
    let (switched, rhs) = switch_prefix(sorted, rhs0, d, sorted.len());
    lemma_quotient_value(switched, d, assignment);
    let new_lower_bound = ceil_div(rhs, d);
    let qv = quotient_value(switched, d, assignment);
    assert(qv >= new_lower_bound) by (nonlinear_arith)
        requires
            d * qv >= rhs,
            rhs >= 0,
            d > 0,
            new_lower_bound == ceil_div(rhs, d),
    {
        vstd::arithmetic::div_mod::lemma_fundamental_div_mod(rhs, d);
    }
    assert forall|j: int| 0 <= j < switched.len() implies rounded_coefficient(#[trigger] switched[j], d) >= 0 by {
        let c = switched[j].coefficient as int;
        assert(c / d >= 0) by (nonlinear_arith)
            requires
                c >= 0,
                d > 0,
        ;
    }
    assert(new_lower_bound >= 0) by (nonlinear_arith)
        requires
            rhs >= 0,
            d > 0,
            new_lower_bound == ceil_div(rhs, d),
    ;
    assert(new_lower_bound <= rhs) by (nonlinear_arith)
        requires
            rhs >= 0,
            d > 0,
            new_lower_bound == ceil_div(rhs, d),
    ;
    assert(rhs <= lower_bound) by {
        lemma_remainder_nonneg(switched, d);
    }
    lemma_divided_terms_value(switched, d, new_lower_bound, assignment);
}

/// The variables of the terms are pairwise distinct.
pub open spec fn distinct_variables(terms: Seq<(Literal, u128)>) -> bool {
    forall|j: int, k: int| 0 <= j < k < terms.len() ==> (#[trigger] terms[j]).0.spec_index() != (#[trigger] terms[k]).0.spec_index()
}

/// The variables of the rounded terms are pairwise distinct.
spec fn rounded_distinct(s: Seq<RoundedTerm>) -> bool {
    forall|j: int, k: int| 0 <= j < k < s.len() ==> (#[trigger] s[j]).literal.spec_index() != (#[trigger] s[k]).literal.spec_index()
}

/// The initial terms keep distinct variables, each the literal of a term.
proof fn lemma_initial_distinct(terms: Seq<(Literal, u128)>, divisor: u128, core: Seq<bool>)
    requires
        core.len() == terms.len(),
        distinct_variables(terms),
    ensures
        rounded_distinct(initial_terms(terms, divisor, core)),
        forall|j: int| 0 <= j < initial_terms(terms, divisor, core).len() ==> exists|k: int|
            0 <= k < terms.len() && (#[trigger] initial_terms(terms, divisor, core)[j]).literal == terms[k].0,
    decreases terms.len(),
{
    if terms.len() > 0 {
        let rest = terms.drop_last();
        assert forall|j: int, k: int| 0 <= j < k < rest.len() implies (#[trigger] rest[j]).0.spec_index() != (
        #[trigger] rest[k]).0.spec_index() by {
            assert(rest[j] == terms[j] && rest[k] == terms[k]);
        }
        lemma_initial_distinct(rest, divisor, core.drop_last());
        let r = initial_terms(rest, divisor, core.drop_last());
        let s = initial_terms(terms, divisor, core);
        assert forall|j: int| 0 <= j < r.len() implies exists|k: int| 0 <= k < terms.len() && (#[trigger] r[j]).literal
            == terms[k].0 by {
            let k = choose|k: int| 0 <= k < rest.len() && (#[trigger] r[j]).literal == rest[k].0;
            assert(rest[k] == terms[k]);
        }
        if terms.last().1 != 0 {
            let t = initial_rounding(terms.last(), divisor, core[terms.len() - 1]);
            assert(s == r.push(t));
            assert forall|j: int, k: int| 0 <= j < k < s.len() implies (#[trigger] s[j]).literal.spec_index() != (
            #[trigger] s[k]).literal.spec_index() by {
                if k == s.len() - 1 {
                    let kk = choose|kk: int| 0 <= kk < terms.len() && (#[trigger] r[j]).literal == terms[kk].0;
                    assert(s[j] == r[j]);
                    let kr = choose|kr: int| 0 <= kr < rest.len() && (#[trigger] r[j]).literal == rest[kr].0;
                    assert(terms[kr] == rest[kr]);
                    assert(terms[kr].0.spec_index() != terms[terms.len() - 1].0.spec_index());
                } else {
                    assert(s[j] == r[j] && s[k] == r[k]);
                }
            }
            assert forall|j: int| 0 <= j < s.len() implies exists|k: int| 0 <= k < terms.len() && (#[trigger] s[j]).literal
                == terms[k].0 by {
                if j < s.len() - 1 {
                    assert(s[j] == r[j]);
                } else {
                    assert(s[j].literal == terms[terms.len() - 1].0);
                }
            }
        }
    }
}

/// Sorting keeps distinct variables, each the literal of an input term.
proof fn lemma_sorted_distinct(s: Seq<RoundedTerm>)
    requires
        rounded_distinct(s),
    ensures
        rounded_distinct(sorted_by_length(s)),
        sorted_by_length(s).len() == s.len(),
        forall|j: int| 0 <= j < sorted_by_length(s).len() ==> exists|k: int|
            0 <= k < s.len() && (#[trigger] sorted_by_length(s)[j]).literal == s[k].literal,
    decreases s.len(),
{
    if s.len() > 0 {
        let rest = s.drop_last();
        assert forall|j: int, k: int| 0 <= j < k < rest.len() implies (#[trigger] rest[j]).literal.spec_index() != (
        #[trigger] rest[k]).literal.spec_index() by {
            assert(rest[j] == s[j] && rest[k] == s[k]);
        }
        lemma_sorted_distinct(rest);
        let r = sorted_by_length(rest);
        let x = s.last();
        lemma_first_shorter(r, x.rounding_length);
        let k = choose|k: int| is_insert_position(r, x.rounding_length, k);
        let t = r.insert(k, x);
        assert(t == sorted_by_length(s));
        assert forall|j: int| 0 <= j < r.len() implies (#[trigger] r[j]).literal.spec_index() != x.literal.spec_index() by {
            let kr = choose|kr: int| 0 <= kr < rest.len() && (#[trigger] r[j]).literal == rest[kr].literal;
            assert(rest[kr] == s[kr]);
            assert(s[kr].literal.spec_index() != s[s.len() - 1].literal.spec_index());
        }
        assert forall|a: int, b: int| 0 <= a < b < t.len() implies (#[trigger] t[a]).literal.spec_index() != (
        #[trigger] t[b]).literal.spec_index() by {
            if a < k && b < k {
                assert(t[a] == r[a] && t[b] == r[b]);
            } else if a < k && b == k {
                assert(t[a] == r[a]);
            } else if a < k {
                assert(t[a] == r[a] && t[b] == r[b - 1]);
            } else if a == k {
                assert(t[b] == r[b - 1]);
            } else {
                assert(t[a] == r[a - 1] && t[b] == r[b - 1]);
            }
        }
        assert forall|j: int| 0 <= j < t.len() implies exists|kk: int| 0 <= kk < s.len() && (#[trigger] t[j]).literal
            == s[kk].literal by {
            if j < k {
                assert(t[j] == r[j]);
                let kr = choose|kr: int| 0 <= kr < rest.len() && (#[trigger] r[j]).literal == rest[kr].literal;
                assert(rest[kr] == s[kr]);
            } else if j == k {
                assert(t[j].literal == s[s.len() - 1].literal);
            } else {
                assert(t[j] == r[j - 1]);
                let kr = choose|kr: int| 0 <= kr < rest.len() && (#[trigger] r[j - 1]).literal == rest[kr].literal;
                assert(rest[kr] == s[kr]);
            }
        }
    }
}

/// A divided coefficient is non-negative.
proof fn lemma_rounded_nonneg(t: RoundedTerm, divisor: int)
    requires
        divisor > 0,
    ensures
        rounded_coefficient(t, divisor) >= 0,
{
    let c = t.coefficient as int;
    assert(c / divisor >= 0) by (nonlinear_arith)
        requires
            c >= 0,
            divisor > 0,
    ;
}

/// The divided coefficients are capped at the bound.
proof fn lemma_divided_capped(s: Seq<RoundedTerm>, divisor: int, bound: int)
    requires
        divisor > 0,
        0 <= bound <= u128::MAX,
    ensures
        forall|j: int| 0 <= j < divided_terms(s, divisor, bound).len() ==> (#[trigger] divided_terms(s, divisor, bound)[j]).1
            <= bound,
    decreases s.len(),
{
    if s.len() > 0 {
        lemma_divided_capped(s.drop_last(), divisor, bound);
        let r = divided_terms(s.drop_last(), divisor, bound);
        let d = divided_terms(s, divisor, bound);
        lemma_rounded_nonneg(s.last(), divisor);
        assert forall|j: int| 0 <= j < d.len() implies (#[trigger] d[j]).1 <= bound by {
            if j < r.len() {
                assert(d[j] == r[j]);
            }
        }
    }
}

/// The pass keeps the literal at every position.
proof fn lemma_switch_literals(s: Seq<RoundedTerm>, rhs: int, divisor: int, n: nat)
    requires
        n <= s.len(),
    ensures
        switch_prefix(s, rhs, divisor, n).0.len() == s.len(),
        forall|j: int| 0 <= j < s.len() ==> (#[trigger] switch_prefix(s, rhs, divisor, n).0[j]).literal == s[j].literal,
    decreases n,
{
    if n > 0 {
        lemma_switch_literals(s, rhs, divisor, (n - 1) as nat);
    }
}

/// The divided terms keep distinct variables and are capped at the bound.
proof fn lemma_divided_shape(s: Seq<RoundedTerm>, divisor: int, bound: int)
    requires
        divisor > 0,
        rounded_distinct(s),
        0 <= bound <= u128::MAX,
    ensures
        distinct_variables(divided_terms(s, divisor, bound)),
        forall|j: int| 0 <= j < divided_terms(s, divisor, bound).len() ==> (#[trigger] divided_terms(s, divisor, bound)[j]).1
            <= bound,
        forall|j: int| 0 <= j < divided_terms(s, divisor, bound).len() ==> exists|k: int|
            0 <= k < s.len() && (#[trigger] divided_terms(s, divisor, bound)[j]).0 == s[k].literal,
    decreases s.len(),
{
    if s.len() > 0 {
        let rest = s.drop_last();
        assert forall|j: int, k: int| 0 <= j < k < rest.len() implies (#[trigger] rest[j]).literal.spec_index() != (
        #[trigger] rest[k]).literal.spec_index() by {
            assert(rest[j] == s[j] && rest[k] == s[k]);
        }
        lemma_divided_shape(rest, divisor, bound);
        lemma_rounded_nonneg(s.last(), divisor);
        let r = divided_terms(rest, divisor, bound);
        let d = divided_terms(s, divisor, bound);
        let c = rounded_coefficient(s.last(), divisor);
        let capped = if c < bound {
            c
        } else {
            bound
        };
        assert forall|j: int| 0 <= j < r.len() implies exists|k: int| 0 <= k < s.len() && (#[trigger] r[j]).0 == s[k].literal by {
            let kr = choose|kr: int| 0 <= kr < rest.len() && (#[trigger] r[j]).0 == rest[kr].literal;
            assert(rest[kr] == s[kr]);
        }
        if capped != 0 {
            assert(d == r.push((s.last().literal, capped as u128)));
            assert forall|a: int, b: int| 0 <= a < b < d.len() implies (#[trigger] d[a]).0.spec_index() != (
            #[trigger] d[b]).0.spec_index() by {
                if b == d.len() - 1 {
                    assert(d[a] == r[a]);
                    let kr = choose|kr: int| 0 <= kr < rest.len() && (#[trigger] r[a]).0 == rest[kr].literal;
                    assert(rest[kr] == s[kr]);
                    assert(s[kr].literal.spec_index() != s[s.len() - 1].literal.spec_index());
                } else {
                    assert(d[a] == r[a] && d[b] == r[b]);
                }
            }
            assert forall|j: int| 0 <= j < d.len() implies exists|k: int| 0 <= k < s.len() && (#[trigger] d[j]).0 == s[k].literal by {
                if j < d.len() - 1 {
                    assert(d[j] == r[j]);
                } else {
                    assert(d[j].0 == s[s.len() - 1].literal);
                }
            }
            assert forall|j: int| 0 <= j < d.len() implies (#[trigger] d[j]).1 <= bound by {
                if j < d.len() - 1 {
                    assert(d[j] == r[j]);
                }
            }
        }
    }
}

/// The divided constraint: its lower bound is at most the given one, its
/// coefficients at most its lower bound, and its variables distinct when
/// those of the given terms are.
pub proof fn lemma_weakened_shape(terms: Seq<(Literal, u128)>, lower_bound: u128, divisor: u128, core: Seq<bool>)
    requires
        divisor > 0,
        core.len() == terms.len(),
        down_total(initial_terms(terms, divisor, core)) <= lower_bound,
    ensures
        weakened(terms, lower_bound, divisor, core).1 <= lower_bound,
        forall|k: int| 0 <= k < weakened(terms, lower_bound, divisor, core).0.len() ==> (#[trigger] weakened(
            terms,
            lower_bound,
            divisor,
            core,
        ).0[k]).1 <= weakened(terms, lower_bound, divisor, core).1,
        distinct_variables(terms) ==> distinct_variables(weakened(terms, lower_bound, divisor, core).0),
{
    let d = divisor as int;
    let initial = initial_terms(terms, divisor, core);
    let sorted = sorted_by_length(initial);
    let rhs0 = lower_bound - down_total(initial);
    lemma_initial_terms(terms, divisor, core, |v: nat| true);
    lemma_sorted_values(initial, d, |v: nat| true);
    assert(lengths_below(sorted, d)) by {
        assert forall|j: int| 0 <= j < sorted.len() implies (#[trigger] sorted[j]).rounding_length < d by {
            assert(well_rounded(sorted[j], d));
        }
    }
    lemma_switch_values(sorted, rhs0, d, sorted.len(), lower_bound as int, |v: nat| true);
    lemma_switch_prefix(sorted, rhs0, d, sorted.len());
    let (switched, rhs) = switch_prefix(sorted, rhs0, d, sorted.len());
    lemma_remainder_nonneg(switched, d);
    let new_lower_bound = ceil_div(rhs, d);
    assert(0 <= new_lower_bound <= rhs) by (nonlinear_arith)
        requires
            rhs >= 0,
            d > 0,
            new_lower_bound == ceil_div(rhs, d),
    ;
    lemma_switch_literals(sorted, rhs0, d, sorted.len());
    if distinct_variables(terms) {
        lemma_initial_distinct(terms, divisor, core);
        lemma_sorted_distinct(initial);
        assert forall|j: int, k: int| 0 <= j < k < switched.len() implies (#[trigger] switched[j]).literal.spec_index() != (
        #[trigger] switched[k]).literal.spec_index() by {
            assert(switched[j].literal == sorted[j].literal && switched[k].literal == sorted[k].literal);
        }
        lemma_divided_shape(switched, d, new_lower_bound);
    }
    lemma_divided_capped(switched, d, new_lower_bound);
}

/// Rounds coefficients after division by a divisor, choosing for each term
/// whether to round it up or down.
#[derive(Clone, Copy, Debug)]
pub struct Round {}

/// Taking more terms never lowers what rounding down costs.
proof fn lemma_down_total_grows(terms: Seq<(Literal, u128)>, divisor: u128, core: Seq<bool>, j: int, k: int)
    requires
        0 <= j <= k <= terms.len(),
        core.len() == terms.len(),
    ensures
        down_total(initial_terms(terms.take(j), divisor, core.take(j))) <= down_total(
            initial_terms(terms.take(k), divisor, core.take(k)),
        ),
    decreases k - j,
{
    if j < k {
        lemma_down_total_grows(terms, divisor, core, j, k - 1);
        let rest = initial_terms(terms.take(k - 1), divisor, core.take(k - 1));
        assert(terms.take(k).drop_last() =~= terms.take(k - 1));
        assert(core.take(k).drop_last() =~= core.take(k - 1));
        let x = initial_rounding(terms[k - 1], divisor, core[k - 1]);
        assert(rest.push(x).drop_last() =~= rest);
    }
}

/// What rounding down costs when `terms` are divided by `divisor` (see
/// `down_total`), or `None` when that exceeds 128 bits.
pub fn down_total_of(terms: &[(Literal, u128)], divisor: u128, is_core: &[bool]) -> (total: Option<u128>)
    requires
        divisor > 0,
        is_core@.len() == terms@.len(),
    ensures
        match total {
            Some(t) => t == down_total(initial_terms(terms@, divisor, is_core@)),
            None => down_total(initial_terms(terms@, divisor, is_core@)) > u128::MAX,
        },
{
    let mut total: u128 = 0;
    let mut k: usize = 0;
    while k < terms.len()
        invariant
            divisor > 0,
            k <= terms@.len(),
            is_core@.len() == terms@.len(),
            total == down_total(initial_terms(terms@.take(k as int), divisor, is_core@.take(k as int))),
        decreases terms@.len() - k,
    {
        let ghost rest = initial_terms(terms@.take(k as int), divisor, is_core@.take(k as int));
        let ghost x = initial_rounding(terms@[k as int], divisor, is_core@[k as int]);
        proof {
            assert(terms@.take(k as int + 1).drop_last() =~= terms@.take(k as int));
            assert(is_core@.take(k as int + 1).drop_last() =~= is_core@.take(k as int));
            assert(terms@.take(k as int + 1).last() == terms@[k as int]);
            assert(is_core@.take(k as int + 1)[k as int] == is_core@[k as int]);
            assert(rest.push(x).drop_last() =~= rest);
        }
        let coefficient = terms[k].1;
        let length: u128 = if coefficient != 0 && coefficient % divisor != 0 && !is_core[k] {
            coefficient % divisor
        } else {
            0
        };
        match total.checked_add(length) {
            Some(t) => {
                total = t;
            },
            None => {
                proof {
                    lemma_down_total_grows(terms@, divisor, is_core@, k as int + 1, terms@.len() as int);
                    assert(terms@.take(terms@.len() as int) =~= terms@);
                    assert(is_core@.take(is_core@.len() as int) =~= is_core@);
                }
                return None;
            },
        }
        k = k + 1;
    }
    proof {
        assert(terms@.take(terms@.len() as int) =~= terms@);
        assert(is_core@.take(is_core@.len() as int) =~= is_core@);
    }
    Some(total)
}

impl Round {
    /// A rounder.
    pub fn new() -> (round: Self) {
        Self {}
    }

    /// Divides `terms >= lower_bound` by `divisor`. Each coefficient that
    /// `divisor` does not divide is first rounded up when `is_core[k]` holds
    /// of its term and down otherwise (the right-hand side then loses the
    /// remainder); in descending order of the distance to the rounded
    /// multiple (ties in their order), roundings are then flipped where that
    /// does not lower the right-hand side rounded up; the new lower bound is
    /// the right-hand side rounded up, and each new coefficient is capped at
    /// it (see `weakened`).
    pub fn weaken(
        &self,
        terms: &[(Literal, u128)],
        lower_bound: u128,
        divisor: u128,
        is_core: &[bool],
    ) -> (output: (Vec<(Literal, u128)>, u128))
        requires
            divisor > 0,
            is_core@.len() == terms@.len(),
            down_total(initial_terms(terms@, divisor, is_core@)) <= lower_bound,
        ensures
            (output.0@, output.1) == weakened(terms@, lower_bound, divisor, is_core@),
            output.1 <= lower_bound,
            forall|k: int| 0 <= k < output.0@.len() ==> (#[trigger] output.0@[k]).1 <= output.1,
            output.0@.len() <= terms@.len(),
    {
        let ghost all = initial_terms(terms@, divisor, is_core@);
        // Initial roundings.
        let mut initial: Vec<RoundedTerm> = Vec::new();
        let mut rhs: u128 = lower_bound;
        let mut k: usize = 0;
        while k < terms.len()
            invariant
                divisor > 0,
                k <= terms@.len(),
                is_core@.len() == terms@.len(),
                all == initial_terms(terms@, divisor, is_core@),
                down_total(all) <= lower_bound,
                initial@ == initial_terms(terms@.take(k as int), divisor, is_core@.take(k as int)),
                rhs == lower_bound - down_total(initial@),
                lengths_below(initial@, divisor as int),
                initial@.len() <= k,
            decreases terms@.len() - k,
        {
            let (literal, coefficient) = terms[k];
            proof {
                assert(terms@.take(k as int + 1).drop_last() =~= terms@.take(k as int));
                assert(is_core@.take(k as int + 1).drop_last() =~= is_core@.take(k as int));
                assert(terms@.take(k as int + 1).last() == terms@[k as int]);
                lemma_initial_prefix(terms@, divisor, is_core@, k as int + 1);
            }
            if coefficient != 0 {
                let remainder = coefficient % divisor;
                let term = if remainder == 0 {
                    RoundedTerm { literal, coefficient, rounding: Rounding::Unnecessary, rounding_length: 0 }
                } else if is_core[k] {
                    RoundedTerm { literal, coefficient, rounding: Rounding::Up, rounding_length: divisor - remainder }
                } else {
                    RoundedTerm { literal, coefficient, rounding: Rounding::Down, rounding_length: remainder }
                };
                proof {
                    assert(initial@.push(term).drop_last() =~= initial@);
                }
                if term.rounding == Rounding::Down {
                    rhs = rhs - remainder;
                }
                initial.push(term);
            }
            k = k + 1;
        }
        proof {
            assert(terms@.take(terms@.len() as int) =~= terms@);
            assert(is_core@.take(is_core@.len() as int) =~= is_core@);
        }
        // Descending order of rounding length, ties in their order.
        let mut sorted: Vec<RoundedTerm> = Vec::new();
        let mut i: usize = 0;
        while i < initial.len()
            invariant
                i <= initial@.len(),
                sorted@ == sorted_by_length(initial@.take(i as int)),
                down_total(sorted@) == down_total(initial@.take(i as int)),
                lengths_below(initial@, divisor as int),
                lengths_below(sorted@, divisor as int),
                sorted@.len() == i,
            decreases initial@.len() - i,
        {
            let term = initial[i];
            let mut position: usize = 0;
            while position < sorted.len()
                invariant
                    position <= sorted@.len(),
                    forall|j: int| 0 <= j < position ==> (#[trigger] sorted@[j]).rounding_length >= term.rounding_length,
                ensures
                    position <= sorted@.len(),
                    forall|j: int| 0 <= j < position ==> (#[trigger] sorted@[j]).rounding_length >= term.rounding_length,
                    position < sorted@.len() ==> sorted@[position as int].rounding_length < term.rounding_length,
                decreases sorted@.len() - position,
            {
                if sorted[position].rounding_length < term.rounding_length {
                    break;
                }
                position = position + 1;
            }
            proof {
                let prefix = initial@.take(i as int + 1);
                assert(prefix.drop_last() =~= initial@.take(i as int));
                assert(prefix.last() == term);
                assert(is_insert_position(sorted@, term.rounding_length, position as int));
                let chosen = choose|k: int| is_insert_position(sorted@, term.rounding_length, k);
                lemma_insert_position_unique(sorted@, term.rounding_length, position as int, chosen);
                lemma_down_total_insert(sorted@, position as int, term);
            }
            sorted.insert(position, term);
            i = i + 1;
        }
        proof {
            assert(initial@.take(initial@.len() as int) =~= initial@);
            lemma_down_total_nonneg(sorted@);
        }
        // Flip roundings that keep the right-hand side rounded up.
        let ghost s0 = sorted@;
        let ghost rhs0 = rhs as int;
        let n = sorted.len();
        proof {
            lemma_switch_prefix(s0, rhs0, divisor as int, 0);
        }
        let mut i: usize = 0;
        while i < n
            invariant
                divisor > 0,
                n == s0.len(),
                i <= n,
                rhs0 + down_total(s0) == lower_bound,
                rhs0 >= 0,
                lengths_below(s0, divisor as int),
                sorted@.len() == n,
                (sorted@, rhs as int) == switch_prefix(s0, rhs0, divisor as int, i as nat),
            decreases n - i,
        {
            proof {
                lemma_switch_prefix(s0, rhs0, divisor as int, i as nat);
                lemma_switch_prefix(s0, rhs0, divisor as int, (i + 1) as nat);
                lemma_down_total_nonneg(s0.subrange(i as int + 1, n as int));
                lemma_down_total_nonneg(s0.subrange(i as int, n as int));
                let t = s0[i as int];
                let rest = s0.subrange(i as int + 1, n as int);
                assert(s0.subrange(i as int, n as int) =~= seq![t] + rest);
                lemma_down_total_concat(seq![t], rest);
                assert(seq![t].drop_last() =~= Seq::<RoundedTerm>::empty());
                lemma_down_total_single(t);
                assert(rhs as int + down_length(t) <= lower_bound);
            }
            let term = sorted[i];
            proof {
                assert(term == s0[i as int]);
                assert(term.rounding_length < divisor);
            }
            let rhs_ceil = ceil_div_u128(rhs, divisor);
            match term.rounding {
                Rounding::Up => {
                    let decrease = divisor - term.rounding_length;
                    if rhs > decrease {
                        let lowered = rhs - decrease;
                        let lowered_ceil = ceil_div_u128(lowered, divisor);
                        if lowered_ceil == rhs_ceil {
                            sorted.set(i, RoundedTerm { rounding: Rounding::Down, ..term });
                            rhs = lowered;
                        }
                    }
                },
                Rounding::Down => {
                    let increase = term.rounding_length;
                    let raised = rhs + increase;
                    let raised_ceil = ceil_div_u128(raised, divisor);
                    if rhs_ceil < u128::MAX && raised_ceil == rhs_ceil + 1 {
                        sorted.set(i, RoundedTerm { rounding: Rounding::Up, ..term });
                        rhs = raised;
                    }
                },
                Rounding::Unnecessary => {},
            }
            i = i + 1;
        }
        // The divided constraint.
        proof {
            lemma_switch_prefix(s0, rhs0, divisor as int, n as nat);
            lemma_down_total_nonneg(s0.subrange(n as int, n as int));
        }
        let new_lower_bound = ceil_div_u128(rhs, divisor);
        proof {
            assert(new_lower_bound <= rhs) by (nonlinear_arith)
                requires
                    new_lower_bound == ceil_div(rhs as int, divisor as int),
                    divisor >= 1,
                    rhs >= 0,
            {
            }
        }
        let mut divided: Vec<(Literal, u128)> = Vec::new();
        let mut i: usize = 0;
        while i < n
            invariant
                divisor > 0,
                n == sorted@.len(),
                i <= n,
                divided@ == divided_terms(sorted@.take(i as int), divisor as int, new_lower_bound as int),
                forall|k: int| 0 <= k < divided@.len() ==> (#[trigger] divided@[k]).1 <= new_lower_bound,
                divided@.len() <= i,
            decreases n - i,
        {
            let term = sorted[i];
            let quotient = term.coefficient / divisor;
            let coefficient = match term.rounding {
                Rounding::Up => ceil_div_u128(term.coefficient, divisor),
                _ => quotient,
            };
            let capped = if coefficient < new_lower_bound {
                coefficient
            } else {
                new_lower_bound
            };
            proof {
                assert(sorted@.take(i as int + 1).drop_last() =~= sorted@.take(i as int));
                assert(sorted@.take(i as int + 1).last() == term);
            }
            if capped != 0 {
                divided.push((term.literal, capped));
            }
            i = i + 1;
        }
        proof {
            assert(sorted@.take(n as int) =~= sorted@);
        }
        (divided, new_lower_bound)
    }
}

impl Default for Round {
    fn default() -> (round: Self) {
        Self::new()
    }
}

} // verus!
