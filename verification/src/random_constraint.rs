//! A constraint with 128-bit coefficients held as a map from variable to
//! value and coefficient, so that constraints can be added term by term.
use vstd::prelude::*;

use crate::compressed_constraint::{lemma_gcd_divides, lemma_gcd_positive};
use crate::constraint::{gcd, lemma_gcd_bound, spec_gcd};
use crate::literal::Literal;
use crate::map::IndexMap;
use crate::compressed_constraint::holds_under;
use crate::round::{ceil_div, ceil_div_u128, distinct_variables, value_under};
use crate::solve::literal_of;

verus! {

/// The map of a term list: each term with a non-zero coefficient sets its
/// variable's entry, a later term overriding an earlier one.
pub open spec fn assigned_map(terms: Seq<(Literal, u128)>) -> Map<usize, (bool, u128)>
    decreases terms.len(),
{
    if terms.len() == 0 {
        Map::empty()
    } else {
        let m = assigned_map(terms.drop_last());
        let (l, c) = terms.last();
        if c > 0 {
            m.insert(l.spec_index() as usize, (l.spec_value(), c))
        } else {
            m
        }
    }
}

/// Adds the term `t` to the map `m`, `d` being what the lower bound has lost
/// so far: a term on a variable with the same value adds to its coefficient;
/// one with the other value cancels against it, the smaller coefficient
/// leaving both and the lower bound.
pub open spec fn add_step(m: Map<usize, (bool, u128)>, d: int, t: (Literal, u128)) -> (Map<usize, (bool, u128)>, int) {
    let (l, c) = t;
    let i = l.spec_index() as usize;
    let v = l.spec_value();
    if c == 0 {
        (m, d)
    } else if m.contains_key(i) {
        let (v0, c0) = m[i];
        if v0 == v {
            (m.insert(i, (v0, (c0 + c) as u128)), d)
        } else if c0 > c {
            (m.insert(i, (v0, (c0 - c) as u128)), d + c)
        } else if c0 < c {
            (m.insert(i, (v, (c - c0) as u128)), d + c0)
        } else {
            (m.remove(i), d + c)
        }
    } else {
        (m.insert(i, (v, c)), d)
    }
}

/// The map after adding `terms` in order, and what the lower bound lost.
pub open spec fn added(m: Map<usize, (bool, u128)>, terms: Seq<(Literal, u128)>) -> (Map<usize, (bool, u128)>, int)
    decreases terms.len(),
{
    if terms.len() == 0 {
        (m, 0)
    } else {
        let (m1, d1) = added(m, terms.drop_last());
        add_step(m1, d1, terms.last())
    }
}

/// Adding `terms` keeps every sum of coefficients and the loss of the lower
/// bound within 128 bits.
pub open spec fn add_fits(m: Map<usize, (bool, u128)>, terms: Seq<(Literal, u128)>) -> bool
    decreases terms.len(),
{
    if terms.len() == 0 {
        true
    } else {
        let (m1, d1) = added(m, terms.drop_last());
        let (l, c) = terms.last();
        let i = l.spec_index() as usize;
        &&& add_fits(m, terms.drop_last())
        &&& (m1.contains_key(i) && m1[i].0 == l.spec_value() ==> m1[i].1 + c <= u128::MAX)
        &&& add_step(m1, d1, terms.last()).1 <= u128::MAX
    }
}

/// The sum of the coefficients below `bound`.
pub open spec fn sum_below_entries(entries: Seq<(usize, (bool, u128))>, bound: u128) -> int
    decreases entries.len(),
{
    if entries.len() == 0 {
        0
    } else {
        sum_below_entries(entries.drop_last(), bound) + if entries.last().1.1 < bound {
            entries.last().1.1 as int
        } else {
            0
        }
    }
}

/// `c` capped at `bound`.
pub open spec fn capped(c: u128, bound: u128) -> u128 {
    if c > bound {
        bound
    } else {
        c
    }
}

/// The greatest common divisor of the capped coefficients, accumulated from
/// the first entry on and no longer updated once it is 1; 0 for none.
pub open spec fn gcd_of_entries(entries: Seq<(usize, (bool, u128))>, bound: u128) -> nat
    decreases entries.len(),
{
    if entries.len() == 0 {
        0
    } else {
        let g = gcd_of_entries(entries.drop_last(), bound);
        if g != 1 {
            spec_gcd(g, capped(entries.last().1.1, bound) as nat)
        } else {
            g
        }
    }
}

/// Strengthening of the map `m` with lower bound `bound`, `entries` being
/// its entries in the order they are visited: coefficients are capped at the
/// lower bound; then, unless every capped coefficient is zero, when the
/// uncapped ones cannot reach the lower bound only the capped terms remain,
/// with coefficient and lower bound 1; otherwise, with a common divisor `g`
/// above 1, everything is divided by `g`, the lower bound rounding up.
pub open spec fn strengthened_map(
    m: Map<usize, (bool, u128)>,
    entries: Seq<(usize, (bool, u128))>,
    bound: u128,
) -> (Map<usize, (bool, u128)>, u128) {
    let g = gcd_of_entries(entries, bound);
    if g == 0 {
        (m.map_values(|e: (bool, u128)| (e.0, capped(e.1, bound))), bound)
    } else if sum_below_entries(entries, bound) < bound {
        (
            Map::new(|i: usize| m.contains_key(i) && m[i].1 >= bound, |i: usize| (m[i].0, 1u128)),
            1,
        )
    } else if g > 1 {
        (
            m.map_values(|e: (bool, u128)| (e.0, (capped(e.1, bound) / (g as u128)) as u128)),
            ceil_div(bound as int, g as int) as u128,
        )
    } else {
        (m.map_values(|e: (bool, u128)| (e.0, capped(e.1, bound))), bound)
    }
}

/// `entries` lists each entry of `m` once.
pub open spec fn is_enumeration(m: Map<usize, (bool, u128)>, entries: Seq<(usize, (bool, u128))>) -> bool {
    &&& entries.len() == m.len()
    &&& forall|p: int| 0 <= p < entries.len() ==> m.contains_key(#[trigger] entries[p].0) && m[entries[p].0] == entries[p].1
    &&& forall|p: int, q: int| 0 <= p < q < entries.len() ==> #[trigger] entries[p].0 != #[trigger] entries[q].0
    &&& forall|i: usize| #[trigger] m.contains_key(i) ==> exists|p: int| 0 <= p < entries.len() && entries[p].0 == i
}

/// What an entry adds to the left-hand side under `assignment`.
pub open spec fn entry_value(e: (usize, (bool, u128)), assignment: spec_fn(nat) -> bool) -> int {
    if assignment(e.0 as nat) == e.1.0 {
        e.1.1 as int
    } else {
        0
    }
}

/// The value of the left-hand side of `entries` under `assignment`.
pub open spec fn entries_value(entries: Seq<(usize, (bool, u128))>, assignment: spec_fn(nat) -> bool) -> int
    decreases entries.len(),
{
    if entries.len() == 0 {
        0
    } else {
        entries_value(entries.drop_last(), assignment) + entry_value(entries.last(), assignment)
    }
}

/// Removing an entry removes its value.
proof fn lemma_entries_value_remove(e: Seq<(usize, (bool, u128))>, k: int, assignment: spec_fn(nat) -> bool)
    requires
        0 <= k < e.len(),
    ensures
        entries_value(e, assignment) == entries_value(e.remove(k), assignment) + entry_value(e[k], assignment),
    decreases e.len(),
{
    if k == e.len() - 1 {
        assert(e.remove(k) =~= e.drop_last());
    } else {
        assert(e.remove(k).drop_last() =~= e.drop_last().remove(k));
        lemma_entries_value_remove(e.drop_last(), k, assignment);
    }
}

/// Updating an entry replaces its value.
proof fn lemma_entries_value_update(
    e: Seq<(usize, (bool, u128))>,
    k: int,
    x: (usize, (bool, u128)),
    assignment: spec_fn(nat) -> bool,
)
    requires
        0 <= k < e.len(),
    ensures
        entries_value(e.update(k, x), assignment) == entries_value(e, assignment) - entry_value(e[k], assignment)
            + entry_value(x, assignment),
    decreases e.len(),
{
    if k == e.len() - 1 {
        assert(e.update(k, x).drop_last() =~= e.drop_last());
    } else {
        assert(e.update(k, x).drop_last() =~= e.drop_last().update(k, x));
        lemma_entries_value_update(e.drop_last(), k, x, assignment);
    }
}

/// A map with an enumeration is finite, its domain being the enumerated
/// indices.
proof fn lemma_enumeration_finite(m: Map<usize, (bool, u128)>, e: Seq<(usize, (bool, u128))>)
    requires
        is_enumeration(m, e),
    ensures
        m.dom().finite(),
{
    let keys = e.map_values(|x: (usize, (bool, u128))| x.0);
    assert(m.dom() =~= keys.to_set()) by {
        assert forall|j: usize| m.dom().contains(j) implies keys.to_set().contains(j) by {
            let p = choose|p: int| 0 <= p < e.len() && e[p].0 == j;
            assert(keys[p] == j);
        }
        assert forall|j: usize| keys.to_set().contains(j) implies m.dom().contains(j) by {
            let p = choose|p: int| 0 <= p < keys.len() && keys[p] == j;
            assert(e[p].0 == j);
        }
    }
    vstd::seq_lib::seq_to_set_is_finite(keys);
}

/// Removing the entry of an index from an enumeration enumerates the map
/// without the index.
proof fn lemma_enumeration_remove(m: Map<usize, (bool, u128)>, e: Seq<(usize, (bool, u128))>, k: int)
    requires
        is_enumeration(m, e),
        0 <= k < e.len(),
    ensures
        is_enumeration(m.remove(e[k].0), e.remove(k)),
{
    let i = e[k].0;
    let r = e.remove(k);
    lemma_enumeration_finite(m, e);
    assert(m.remove(i).len() == m.len() - 1);
    assert forall|p: int| 0 <= p < r.len() implies m.remove(i).contains_key(#[trigger] r[p].0) && m.remove(i)[r[p].0]
        == r[p].1 by {
        let p0 = if p < k { p } else { p + 1 };
        assert(r[p] == e[p0]);
        if p0 < k {
            assert(e[p0].0 != e[k].0);
        } else {
            assert(e[k].0 != e[p0].0);
        }
    }
    assert forall|p: int, q: int| 0 <= p < q < r.len() implies #[trigger] r[p].0 != #[trigger] r[q].0 by {
        let p0 = if p < k { p } else { p + 1 };
        let q0 = if q < k { q } else { q + 1 };
        assert(r[p] == e[p0] && r[q] == e[q0]);
    }
    assert forall|j: usize| #[trigger] m.remove(i).contains_key(j) implies exists|p: int| 0 <= p < r.len() && r[p].0 == j by {
        let p0 = choose|p: int| 0 <= p < e.len() && e[p].0 == j;
        assert(p0 != k);
        if p0 < k {
            assert(r[p0] == e[p0]);
        } else {
            assert(r[p0 - 1] == e[p0]);
        }
    }
}

/// What an entry adds to `sum_below_entries`.
pub open spec fn below_part(e: (usize, (bool, u128)), bound: u128) -> int {
    if e.1.1 < bound {
        e.1.1 as int
    } else {
        0
    }
}

/// Removing an entry removes its part of the sum below the bound.
proof fn lemma_sum_below_remove(e: Seq<(usize, (bool, u128))>, k: int, bound: u128)
    requires
        0 <= k < e.len(),
    ensures
        sum_below_entries(e, bound) == sum_below_entries(e.remove(k), bound) + below_part(e[k], bound),
    decreases e.len(),
{
    if k == e.len() - 1 {
        assert(e.remove(k) =~= e.drop_last());
    } else {
        assert(e.remove(k).drop_last() =~= e.drop_last().remove(k));
        lemma_sum_below_remove(e.drop_last(), k, bound);
    }
}

/// Two enumerations of a map have the same sum below a bound.
pub proof fn lemma_sum_below_agree(
    m: Map<usize, (bool, u128)>,
    e1: Seq<(usize, (bool, u128))>,
    e2: Seq<(usize, (bool, u128))>,
    bound: u128,
)
    requires
        is_enumeration(m, e1),
        is_enumeration(m, e2),
    ensures
        sum_below_entries(e1, bound) == sum_below_entries(e2, bound),
    decreases e1.len(),
{
    if e1.len() == 0 {
        assert(e2.len() == 0);
    } else {
        let k1 = e1.len() - 1;
        let i = e1[k1].0;
        assert(m.contains_key(i));
        let k2 = choose|p: int| 0 <= p < e2.len() && e2[p].0 == i;
        lemma_enumeration_remove(m, e1, k1);
        lemma_enumeration_remove(m, e2, k2);
        assert(e1.remove(k1) =~= e1.drop_last());
        lemma_sum_below_agree(m.remove(i), e1.drop_last(), e2.remove(k2), bound);
        lemma_sum_below_remove(e2, k2, bound);
        assert(e1[k1] == e2[k2]);
    }
}

/// Two enumerations of a map give the same value.
proof fn lemma_enumerations_agree(
    m: Map<usize, (bool, u128)>,
    e1: Seq<(usize, (bool, u128))>,
    e2: Seq<(usize, (bool, u128))>,
    assignment: spec_fn(nat) -> bool,
)
    requires
        is_enumeration(m, e1),
        is_enumeration(m, e2),
    ensures
        entries_value(e1, assignment) == entries_value(e2, assignment),
    decreases e1.len(),
{
    if e1.len() == 0 {
        assert(e2.len() == 0);
    } else {
        let k1 = e1.len() - 1;
        let i = e1[k1].0;
        assert(m.contains_key(i));
        let k2 = choose|p: int| 0 <= p < e2.len() && e2[p].0 == i;
        lemma_enumeration_remove(m, e1, k1);
        lemma_enumeration_remove(m, e2, k2);
        assert(e1.remove(k1) =~= e1.drop_last());
        lemma_enumerations_agree(m.remove(i), e1.drop_last(), e2.remove(k2), assignment);
        lemma_entries_value_remove(e2, k2, assignment);
        assert(e1[k1] == e2[k2]);
    }
}

/// The value of the left-hand side of the map `m` under `assignment`: that
/// of any enumeration of it.
pub open spec fn map_value(m: Map<usize, (bool, u128)>, assignment: spec_fn(nat) -> bool) -> int {
    entries_value(choose|e: Seq<(usize, (bool, u128))>| is_enumeration(m, e), assignment)
}

/// The map value is that of any enumeration.
pub proof fn lemma_map_value(m: Map<usize, (bool, u128)>, e: Seq<(usize, (bool, u128))>, assignment: spec_fn(nat) -> bool)
    requires
        is_enumeration(m, e),
    ensures
        map_value(m, assignment) == entries_value(e, assignment),
{
    let c = choose|e: Seq<(usize, (bool, u128))>| is_enumeration(m, e);
    lemma_enumerations_agree(m, c, e, assignment);
}

/// Writing an entry into an enumerated map: the enumeration with the entry
/// replaced or appended.
proof fn lemma_enumeration_insert(
    m: Map<usize, (bool, u128)>,
    e: Seq<(usize, (bool, u128))>,
    i: usize,
    x: (bool, u128),
    assignment: spec_fn(nat) -> bool,
) -> (e2: Seq<(usize, (bool, u128))>)
    requires
        is_enumeration(m, e),
    ensures
        is_enumeration(m.insert(i, x), e2),
        entries_value(e2, assignment) == entries_value(e, assignment) + entry_value((i, x), assignment) - if m.contains_key(
            i,
        ) {
            entry_value((i, m[i]), assignment)
        } else {
            0
        },
{
    lemma_enumeration_finite(m, e);
    if m.contains_key(i) {
        let k = choose|p: int| 0 <= p < e.len() && e[p].0 == i;
        let e2 = e.update(k, (i, x));
        lemma_entries_value_update(e, k, (i, x), assignment);
        assert(m.insert(i, x).dom() =~= m.dom());
        assert forall|p: int| 0 <= p < e2.len() implies m.insert(i, x).contains_key(#[trigger] e2[p].0) && m.insert(
            i,
            x,
        )[e2[p].0] == e2[p].1 by {
            if p != k {
                assert(e2[p] == e[p]);
                if p < k {
                    assert(e[p].0 != e[k].0);
                } else {
                    assert(e[k].0 != e[p].0);
                }
            }
        }
        assert forall|p: int, q: int| 0 <= p < q < e2.len() implies #[trigger] e2[p].0 != #[trigger] e2[q].0 by {
            assert(e[p].0 != e[q].0);
        }
        assert forall|j: usize| #[trigger] m.insert(i, x).contains_key(j) implies exists|p: int|
            0 <= p < e2.len() && e2[p].0 == j by {
            if j == i {
                assert(e2[k].0 == j);
            } else {
                let p = choose|p: int| 0 <= p < e.len() && e[p].0 == j;
                assert(e2[p].0 == j);
            }
        }
        e2
    } else {
        let e2 = e.push((i, x));
        assert(e2.drop_last() =~= e);
        assert forall|p: int| 0 <= p < e2.len() implies m.insert(i, x).contains_key(#[trigger] e2[p].0) && m.insert(
            i,
            x,
        )[e2[p].0] == e2[p].1 by {
            if p < e.len() {
                assert(e2[p] == e[p]);
            }
        }
        assert forall|p: int, q: int| 0 <= p < q < e2.len() implies #[trigger] e2[p].0 != #[trigger] e2[q].0 by {
            if q == e.len() {
                assert(m.contains_key(e[p].0));
            } else {
                assert(e[p].0 != e[q].0);
            }
        }
        assert forall|j: usize| #[trigger] m.insert(i, x).contains_key(j) implies exists|p: int|
            0 <= p < e2.len() && e2[p].0 == j by {
            if j == i {
                assert(e2[e.len() as int].0 == j);
            } else {
                let p = choose|p: int| 0 <= p < e.len() && e[p].0 == j;
                assert(e2[p].0 == j);
            }
        }
        e2
    }
}

/// Removing an index from an enumerated map.
proof fn lemma_enumeration_remove_index(
    m: Map<usize, (bool, u128)>,
    e: Seq<(usize, (bool, u128))>,
    i: usize,
    assignment: spec_fn(nat) -> bool,
) -> (e2: Seq<(usize, (bool, u128))>)
    requires
        is_enumeration(m, e),
        m.contains_key(i),
    ensures
        is_enumeration(m.remove(i), e2),
        entries_value(e2, assignment) == entries_value(e, assignment) - entry_value((i, m[i]), assignment),
{
    let k = choose|p: int| 0 <= p < e.len() && e[p].0 == i;
    lemma_enumeration_remove(m, e, k);
    lemma_entries_value_remove(e, k, assignment);
    e.remove(k)
}

/// Adding terms to a map adds their value, less what the lower bound loses:
/// for a literal and its negation, `c [l] + c' [not l]` is `c'' [l] + min(c, c')`.
pub proof fn lemma_added_value(
    m: Map<usize, (bool, u128)>,
    e: Seq<(usize, (bool, u128))>,
    terms: Seq<(Literal, u128)>,
    assignment: spec_fn(nat) -> bool,
) -> (e2: Seq<(usize, (bool, u128))>)
    requires
        is_enumeration(m, e),
        add_fits(m, terms),
    ensures
        is_enumeration(added(m, terms).0, e2),
        entries_value(e2, assignment) + added(m, terms).1 == entries_value(e, assignment) + value_under(terms, assignment),
    decreases terms.len(),
{
    if terms.len() == 0 {
        e
    } else {
        let e1 = lemma_added_value(m, e, terms.drop_last(), assignment);
        let (m1, d1) = added(m, terms.drop_last());
        let (l, c) = terms.last();
        let i = l.spec_index() as usize;
        let v = l.spec_value();
        assert(holds_under(l, assignment) == (assignment(i as nat) == v));
        if c == 0 {
            e1
        } else if m1.contains_key(i) {
            let (v0, c0) = m1[i];
            if v0 == v {
                lemma_enumeration_insert(m1, e1, i, (v0, (c0 + c) as u128), assignment)
            } else if c0 > c {
                lemma_enumeration_insert(m1, e1, i, (v0, (c0 - c) as u128), assignment)
            } else if c0 < c {
                lemma_enumeration_insert(m1, e1, i, (v, (c - c0) as u128), assignment)
            } else {
                lemma_enumeration_remove_index(m1, e1, i, assignment)
            }
        } else {
            lemma_enumeration_insert(m1, e1, i, (v, c), assignment)
        }
    }
}

/// Adding constraints is sound: an assignment that satisfies a constraint
/// and the added one satisfies their sum (see `add_assign`).
pub proof fn lemma_add_assign_sound(
    m: Map<usize, (bool, u128)>,
    lower_bound: u128,
    terms: Seq<(Literal, u128)>,
    terms_lower_bound: u128,
    assignment: spec_fn(nat) -> bool,
)
    requires
        m.dom().finite(),
        add_fits(m, terms),
        map_value(m, assignment) >= lower_bound,
        value_under(terms, assignment) >= terms_lower_bound,
        exists|e: Seq<(usize, (bool, u128))>| is_enumeration(m, e),
    ensures
        map_value(added(m, terms).0, assignment) >= lower_bound + terms_lower_bound - added(m, terms).1,
{
    let e = choose|e: Seq<(usize, (bool, u128))>| is_enumeration(m, e);
    lemma_map_value(m, e, assignment);
    let e2 = lemma_added_value(m, e, terms, assignment);
    lemma_map_value(added(m, terms).0, e2, assignment);
}

/// The entries with their coefficients capped at `bound`.
pub open spec fn capped_entries(e: Seq<(usize, (bool, u128))>, bound: u128) -> Seq<(usize, (bool, u128))> {
    e.map_values(|x: (usize, (bool, u128))| (x.0, (x.1.0, capped(x.1.1, bound))))
}

/// The entries whose coefficient reaches `bound`, with coefficient 1.
pub open spec fn saturated_entries(e: Seq<(usize, (bool, u128))>, bound: u128) -> Seq<(usize, (bool, u128))>
    decreases e.len(),
{
    if e.len() == 0 {
        Seq::empty()
    } else if e.last().1.1 >= bound {
        saturated_entries(e.drop_last(), bound).push((e.last().0, (e.last().1.0, 1u128)))
    } else {
        saturated_entries(e.drop_last(), bound)
    }
}

/// The entries with their capped coefficients divided by `g`.
pub open spec fn divided_entries(e: Seq<(usize, (bool, u128))>, bound: u128, g: nat) -> Seq<(usize, (bool, u128))> {
    e.map_values(|x: (usize, (bool, u128))| (x.0, (x.1.0, (capped(x.1.1, bound) / (g as u128)) as u128)))
}

/// Mapping the values of the entries enumerates the mapped map.
proof fn lemma_enumeration_map_values(
    m: Map<usize, (bool, u128)>,
    e: Seq<(usize, (bool, u128))>,
    f: spec_fn((bool, u128)) -> (bool, u128),
)
    requires
        is_enumeration(m, e),
    ensures
        is_enumeration(m.map_values(f), e.map_values(|x: (usize, (bool, u128))| (x.0, f(x.1)))),
{
    let e2 = e.map_values(|x: (usize, (bool, u128))| (x.0, f(x.1)));
    lemma_enumeration_finite(m, e);
    assert(m.map_values(f).dom() =~= m.dom());
    assert forall|j: usize| #[trigger] m.map_values(f).contains_key(j) implies exists|p: int|
        0 <= p < e2.len() && e2[p].0 == j by {
        let p = choose|p: int| 0 <= p < e.len() && e[p].0 == j;
        assert(e2[p].0 == j);
    }
    assert forall|p: int, q: int| 0 <= p < q < e2.len() implies #[trigger] e2[p].0 != #[trigger] e2[q].0 by {
        assert(e[p].0 != e[q].0);
    }
}

/// The saturated entries enumerate the saturated part of the map.
proof fn lemma_enumeration_saturated(m: Map<usize, (bool, u128)>, e: Seq<(usize, (bool, u128))>, bound: u128)
    requires
        is_enumeration(m, e),
    ensures
        is_enumeration(
            Map::new(|i: usize| m.contains_key(i) && m[i].1 >= bound, |i: usize| (m[i].0, 1u128)),
            saturated_entries(e, bound),
        ),
    decreases e.len(),
{
    let target = Map::new(|i: usize| m.contains_key(i) && m[i].1 >= bound, |i: usize| (m[i].0, 1u128));
    if e.len() == 0 {
        assert(target.dom() =~= Set::<usize>::empty());
    } else {
        let k = e.len() - 1;
        let i = e[k].0;
        lemma_enumeration_remove(m, e, k);
        assert(e.remove(k) =~= e.drop_last());
        let m1 = m.remove(i);
        lemma_enumeration_saturated(m1, e.drop_last(), bound);
        let t1 = Map::new(|j: usize| m1.contains_key(j) && m1[j].1 >= bound, |j: usize| (m1[j].0, 1u128));
        let s1 = saturated_entries(e.drop_last(), bound);
        lemma_enumeration_finite(t1, s1);
        if e.last().1.1 >= bound {
            assert(target =~= t1.insert(i, (e[k].1.0, 1u128)));
            assert(!t1.contains_key(i));
            let s = s1.push((i, (e[k].1.0, 1u128)));
            assert(s.drop_last() =~= s1);
            assert forall|p: int, q: int| 0 <= p < q < s.len() implies #[trigger] s[p].0 != #[trigger] s[q].0 by {
                if q == s.len() - 1 {
                    assert(t1.contains_key(s1[p].0));
                } else {
                    assert(s1[p].0 != s1[q].0);
                }
            }
            assert forall|j: usize| #[trigger] target.contains_key(j) implies exists|p: int| 0 <= p < s.len() && s[p].0 == j by {
                if j == i {
                    assert(s[s.len() - 1].0 == j);
                } else {
                    assert(t1.contains_key(j));
                    let p = choose|p: int| 0 <= p < s1.len() && s1[p].0 == j;
                    assert(s[p].0 == j);
                }
            }
            assert forall|p: int| 0 <= p < s.len() implies target.contains_key(#[trigger] s[p].0) && target[s[p].0] == s[p].1 by {
                if p < s.len() - 1 {
                    assert(s[p] == s1[p]);
                }
            }
        } else {
            assert(target =~= t1);
        }
    }
}

/// Capping keeps a value of at least `bound`, or the value when smaller.
proof fn lemma_capped_entries_value(e: Seq<(usize, (bool, u128))>, bound: u128, assignment: spec_fn(nat) -> bool)
    ensures
        entries_value(capped_entries(e, bound), assignment) >= if entries_value(e, assignment) < bound {
            entries_value(e, assignment)
        } else {
            bound as int
        },
        entries_value(e, assignment) >= 0,
    decreases e.len(),
{
    if e.len() > 0 {
        assert(capped_entries(e, bound).drop_last() =~= capped_entries(e.drop_last(), bound));
        lemma_capped_entries_value(e.drop_last(), bound, assignment);
    }
}

/// With no saturated entry true, the value is at most the sum of the
/// coefficients below the bound.
proof fn lemma_saturated_entries_value(e: Seq<(usize, (bool, u128))>, bound: u128, assignment: spec_fn(nat) -> bool)
    ensures
        entries_value(saturated_entries(e, bound), assignment) >= 0,
        entries_value(saturated_entries(e, bound), assignment) == 0 ==> entries_value(e, assignment) <= sum_below_entries(
            e,
            bound,
        ),
    decreases e.len(),
{
    if e.len() > 0 {
        lemma_saturated_entries_value(e.drop_last(), bound, assignment);
        let s1 = saturated_entries(e.drop_last(), bound);
        if e.last().1.1 >= bound {
            assert(s1.push((e.last().0, (e.last().1.0, 1u128))).drop_last() =~= s1);
        }
    }
}

/// Dividing coefficients that `g` divides divides the value by `g`.
proof fn lemma_divided_entries_value(e: Seq<(usize, (bool, u128))>, bound: u128, g: nat, assignment: spec_fn(nat) -> bool)
    requires
        0 < g <= u128::MAX,
        forall|k: int| 0 <= k < e.len() ==> capped((#[trigger] e[k]).1.1, bound) as nat % g == 0,
    ensures
        entries_value(divided_entries(e, bound, g), assignment) * g == entries_value(capped_entries(e, bound), assignment),
    decreases e.len(),
{
    if e.len() > 0 {
        assert(divided_entries(e, bound, g).drop_last() =~= divided_entries(e.drop_last(), bound, g));
        assert(capped_entries(e, bound).drop_last() =~= capped_entries(e.drop_last(), bound));
        lemma_divided_entries_value(e.drop_last(), bound, g, assignment);
        let c = capped(e.last().1.1, bound) as int;
        assert(c % (g as int) == 0);
        assert((c / (g as int)) * g == c) by {
            vstd::arithmetic::div_mod::lemma_fundamental_div_mod(c, g as int);
        }
        let x = entries_value(divided_entries(e.drop_last(), bound, g), assignment);
        let y = if assignment(e.last().0 as nat) == e.last().1.0 {
            c / (g as int)
        } else {
            0
        };
        assert((x + y) * g == x * g + y * g) by (nonlinear_arith);
    }
}

/// When the accumulated divisor ends above 1, it divides every capped
/// coefficient.
proof fn lemma_gcd_of_entries_divides(e: Seq<(usize, (bool, u128))>, bound: u128)
    requires
        gcd_of_entries(e, bound) > 1,
    ensures
        forall|k: int| 0 <= k < e.len() ==> capped((#[trigger] e[k]).1.1, bound) as nat % gcd_of_entries(e, bound) == 0,
    decreases e.len(),
{
    let g = gcd_of_entries(e, bound);
    let rest = e.drop_last();
    let g0 = gcd_of_entries(rest, bound);
    assert(g0 != 1);
    let c = capped(e.last().1.1, bound) as nat;
    lemma_gcd_divides(g0, c);
    if g0 > 1 {
        lemma_gcd_of_entries_divides(rest, bound);
    }
    assert forall|k: int| 0 <= k < e.len() implies capped((#[trigger] e[k]).1.1, bound) as nat % g == 0 by {
        if k < e.len() - 1 {
            assert(e[k] == rest[k]);
            if g0 == 0 {
                lemma_gcd_of_entries_zero(rest, bound, k);
            } else {
                let ck = capped(e[k].1.1, bound) as nat;
                let m = ck / g0;
                let n = g0 / g;
                vstd::arithmetic::div_mod::lemma_fundamental_div_mod(ck as int, g0 as int);
                vstd::arithmetic::div_mod::lemma_fundamental_div_mod(g0 as int, g as int);
                assert(ck == (m * n) * g) by (nonlinear_arith)
                    requires
                        ck == g0 * m,
                        g0 == g * n,
                ;
                vstd::arithmetic::div_mod::lemma_mod_multiples_basic((m * n) as int, g as int);
            }
        }
    }
}

/// An accumulated divisor of 0 means every capped coefficient is 0.
proof fn lemma_gcd_of_entries_zero(e: Seq<(usize, (bool, u128))>, bound: u128, k: int)
    requires
        gcd_of_entries(e, bound) == 0,
        0 <= k < e.len(),
    ensures
        capped(e[k].1.1, bound) == 0,
    decreases e.len(),
{
    let rest = e.drop_last();
    let g0 = gcd_of_entries(rest, bound);
    let c = capped(e.last().1.1, bound) as nat;
    if g0 > 0 {
        lemma_gcd_positive(g0, c);
    }
    if g0 == 0 && c > 0 {
        assert(spec_gcd(0, c) == spec_gcd(c, 0));
    }
    if k < e.len() - 1 {
        assert(e[k] == rest[k]);
        lemma_gcd_of_entries_zero(rest, bound, k);
    }
}

/// The accumulated divisor fits in 128 bits.
proof fn lemma_gcd_of_entries_bound(e: Seq<(usize, (bool, u128))>, bound: u128)
    ensures
        gcd_of_entries(e, bound) <= u128::MAX,
    decreases e.len(),
{
    if e.len() > 0 {
        lemma_gcd_of_entries_bound(e.drop_last(), bound);
        lemma_gcd_bound(gcd_of_entries(e.drop_last(), bound), capped(e.last().1.1, bound) as nat);
    }
}

/// Strengthening is sound: every assignment that satisfies a constraint
/// satisfies its strengthening (see `strengthen2`).
pub proof fn lemma_strengthen_map_sound(
    m: Map<usize, (bool, u128)>,
    entries: Seq<(usize, (bool, u128))>,
    bound: u128,
    assignment: spec_fn(nat) -> bool,
)
    requires
        is_enumeration(m, entries),
        map_value(m, assignment) >= bound,
    ensures
        map_value(strengthened_map(m, entries, bound).0, assignment) >= strengthened_map(m, entries, bound).1,
{
    lemma_map_value(m, entries, assignment);
    let g = gcd_of_entries(entries, bound);
    let (result, lower_bound) = strengthened_map(m, entries, bound);
    lemma_capped_entries_value(entries, bound, assignment);
    let cap = |e: (bool, u128)| (e.0, capped(e.1, bound));
    if g == 0 || (g == 1 && sum_below_entries(entries, bound) >= bound) {
        lemma_enumeration_map_values(m, entries, cap);
        assert(entries.map_values(|x: (usize, (bool, u128))| (x.0, cap(x.1))) =~= capped_entries(entries, bound));
        assert(result == m.map_values(cap));
        lemma_map_value(result, capped_entries(entries, bound), assignment);
    } else if sum_below_entries(entries, bound) < bound {
        lemma_enumeration_saturated(m, entries, bound);
        lemma_saturated_entries_value(entries, bound, assignment);
        lemma_map_value(result, saturated_entries(entries, bound), assignment);
    } else {
        lemma_gcd_of_entries_bound(entries, bound);
        lemma_gcd_of_entries_divides(entries, bound);
        let div = |e: (bool, u128)| (e.0, (capped(e.1, bound) / (g as u128)) as u128);
        lemma_enumeration_map_values(m, entries, div);
        assert(entries.map_values(|x: (usize, (bool, u128))| (x.0, div(x.1))) =~= divided_entries(entries, bound, g));
        assert(result == m.map_values(div));
        lemma_divided_entries_value(entries, bound, g, assignment);
        lemma_map_value(result, divided_entries(entries, bound, g), assignment);
        let x = entries_value(divided_entries(entries, bound, g), assignment);
        let b = bound as int;
        let gi = g as int;
        assert(x >= ceil_div(b, gi)) by (nonlinear_arith)
            requires
                x * gi >= b,
                gi > 1,
                b >= 0,
        {
            vstd::arithmetic::div_mod::lemma_fundamental_div_mod(b, gi);
        }
    }
}

/// Capping the coefficients does not raise the value.
proof fn lemma_capped_entries_at_most(e: Seq<(usize, (bool, u128))>, bound: u128, assignment: spec_fn(nat) -> bool)
    ensures
        entries_value(capped_entries(e, bound), assignment) <= entries_value(e, assignment),
    decreases e.len(),
{
    if e.len() > 0 {
        assert(capped_entries(e, bound).drop_last() =~= capped_entries(e.drop_last(), bound));
        lemma_capped_entries_at_most(e.drop_last(), bound, assignment);
    }
}

/// When some entry that reaches `bound` holds, the entries are worth at
/// least `bound`.
proof fn lemma_saturated_entries_complete(e: Seq<(usize, (bool, u128))>, bound: u128, assignment: spec_fn(nat) -> bool)
    requires
        entries_value(saturated_entries(e, bound), assignment) >= 1,
    ensures
        entries_value(e, assignment) >= bound,
    decreases e.len(),
{
    if e.len() == 0 {
        assert(entries_value(saturated_entries(e, bound), assignment) == 0);
    } else if bound == 0 {
        lemma_capped_entries_value(e, bound, assignment);
    } else {
        let rest = e.drop_last();
        let s1 = saturated_entries(rest, bound);
        lemma_capped_entries_value(rest, bound, assignment);
        lemma_saturated_entries_value(rest, bound, assignment);
        if e.last().1.1 >= bound {
            let s = s1.push((e.last().0, (e.last().1.0, 1u128)));
            assert(saturated_entries(e, bound) == s);
            assert(s.drop_last() =~= s1);
            if entry_value(e.last(), assignment) == 0 {
                lemma_saturated_entries_complete(rest, bound, assignment);
            }
        } else {
            assert(saturated_entries(e, bound) == s1);
            lemma_saturated_entries_complete(rest, bound, assignment);
        }
    }
}

/// Strengthening is complete: every assignment that satisfies the
/// strengthening of a constraint satisfies the constraint.
pub proof fn lemma_strengthen_map_complete(
    m: Map<usize, (bool, u128)>,
    entries: Seq<(usize, (bool, u128))>,
    bound: u128,
    assignment: spec_fn(nat) -> bool,
)
    requires
        is_enumeration(m, entries),
        map_value(strengthened_map(m, entries, bound).0, assignment) >= strengthened_map(m, entries, bound).1,
    ensures
        map_value(m, assignment) >= bound,
{
    lemma_map_value(m, entries, assignment);
    let g = gcd_of_entries(entries, bound);
    let (result, lower_bound) = strengthened_map(m, entries, bound);
    lemma_capped_entries_at_most(entries, bound, assignment);
    let cap = |e: (bool, u128)| (e.0, capped(e.1, bound));
    if g == 0 || (g == 1 && sum_below_entries(entries, bound) >= bound) {
        lemma_enumeration_map_values(m, entries, cap);
        assert(entries.map_values(|x: (usize, (bool, u128))| (x.0, cap(x.1))) =~= capped_entries(entries, bound));
        assert(result == m.map_values(cap));
        lemma_map_value(result, capped_entries(entries, bound), assignment);
    } else if sum_below_entries(entries, bound) < bound {
        lemma_enumeration_saturated(m, entries, bound);
        lemma_map_value(result, saturated_entries(entries, bound), assignment);
        lemma_saturated_entries_complete(entries, bound, assignment);
    } else {
        lemma_gcd_of_entries_bound(entries, bound);
        lemma_gcd_of_entries_divides(entries, bound);
        let div = |e: (bool, u128)| (e.0, (capped(e.1, bound) / (g as u128)) as u128);
        lemma_enumeration_map_values(m, entries, div);
        assert(entries.map_values(|x: (usize, (bool, u128))| (x.0, div(x.1))) =~= divided_entries(entries, bound, g));
        assert(result == m.map_values(div));
        lemma_divided_entries_value(entries, bound, g, assignment);
        lemma_map_value(result, divided_entries(entries, bound, g), assignment);
        let x = entries_value(divided_entries(entries, bound, g), assignment);
        let b = bound as int;
        let gi = g as int;
        assert(ceil_div(b, gi) <= b) by {
            vstd::arithmetic::div_mod::lemma_fundamental_div_mod(b, gi);
            vstd::arithmetic::div_mod::lemma_mod_pos_bound(b, gi);
            if b > 0 {
                assert(b / gi < b) by (nonlinear_arith)
                    requires
                        gi > 1,
                        b > 0,
                ;
            } else {
                assert(b % gi == 0);
                assert(b / gi == 0);
            }
        }
        assert(lower_bound == ceil_div(b, gi));
        assert(x >= ceil_div(b, gi));
        assert(x * gi >= b) by (nonlinear_arith)
            requires
                x >= ceil_div(b, gi),
                gi > 1,
                b >= 0,
                ceil_div(b, gi) == if b % gi == 0 {
                    b / gi
                } else {
                    b / gi + 1
                },
        {
            vstd::arithmetic::div_mod::lemma_fundamental_div_mod(b, gi);
            vstd::arithmetic::div_mod::lemma_mod_pos_bound(b, gi);
        }
    }
}

/// Strengthening keeps the solutions: an assignment satisfies the
/// strengthening of a constraint exactly when it satisfies the constraint.
pub proof fn lemma_strengthen_map_equivalent(
    m: Map<usize, (bool, u128)>,
    entries: Seq<(usize, (bool, u128))>,
    bound: u128,
    assignment: spec_fn(nat) -> bool,
)
    requires
        is_enumeration(m, entries),
    ensures
        (map_value(strengthened_map(m, entries, bound).0, assignment) >= strengthened_map(m, entries, bound).1) <==> (
        map_value(m, assignment) >= bound),
{
    if map_value(m, assignment) >= bound {
        lemma_strengthen_map_sound(m, entries, bound, assignment);
    }
    if map_value(strengthened_map(m, entries, bound).0, assignment) >= strengthened_map(m, entries, bound).1 {
        lemma_strengthen_map_complete(m, entries, bound, assignment);
    }
}

/// The map of terms on distinct variables has their value.
pub proof fn lemma_assigned_value(terms: Seq<(Literal, u128)>, assignment: spec_fn(nat) -> bool) -> (e: Seq<(usize, (bool, u128))>)
    requires
        distinct_variables(terms),
    ensures
        is_enumeration(assigned_map(terms), e),
        entries_value(e, assignment) == value_under(terms, assignment),
        forall|p: int| 0 <= p < e.len() ==> exists|k: int| 0 <= k < terms.len() && (#[trigger] e[p]).0 == terms[k].0.spec_index(),
    decreases terms.len(),
{
    if terms.len() == 0 {
        let e = Seq::<(usize, (bool, u128))>::empty();
        assert(assigned_map(terms).dom() =~= Set::<usize>::empty());
        e
    } else {
        let rest = terms.drop_last();
        assert forall|j: int, k: int| 0 <= j < k < rest.len() implies (#[trigger] rest[j]).0.spec_index() != (
        #[trigger] rest[k]).0.spec_index() by {
            assert(rest[j] == terms[j] && rest[k] == terms[k]);
        }
        let e1 = lemma_assigned_value(rest, assignment);
        let (l, c) = terms.last();
        let i = l.spec_index() as usize;
        assert(l.spec_index() <= usize::MAX) by {
            assert(l.spec_index() == l.spec_bits() / 2);
        }
        assert(holds_under(l, assignment) == (assignment(i as nat) == l.spec_value()));
        if c > 0 {
            let m1 = assigned_map(rest);
            assert(!m1.contains_key(i)) by {
                if m1.contains_key(i) {
                    let p = choose|p: int| 0 <= p < e1.len() && e1[p].0 == i;
                    let k = choose|k: int| 0 <= k < rest.len() && (#[trigger] e1[p]).0 == rest[k].0.spec_index();
                    assert(terms[k] == rest[k]);
                    assert(terms[k].0.spec_index() != terms[terms.len() - 1].0.spec_index());
                }
            }
            let e = lemma_enumeration_insert(m1, e1, i, (l.spec_value(), c), assignment);
            assert forall|p: int| 0 <= p < e.len() implies exists|k: int| 0 <= k < terms.len() && (#[trigger] e[p]).0
                == terms[k].0.spec_index() by {
                let key = e[p].0;
                if key == i {
                    assert(e[p].0 == terms[terms.len() - 1].0.spec_index());
                } else {
                    assert(m1.contains_key(key));
                    let p1 = choose|p1: int| 0 <= p1 < e1.len() && e1[p1].0 == key;
                    let k = choose|k: int| 0 <= k < rest.len() && (#[trigger] e1[p1]).0 == rest[k].0.spec_index();
                    assert(terms[k] == rest[k]);
                }
            }
            e
        } else {
            assert forall|p: int| 0 <= p < e1.len() implies exists|k: int| 0 <= k < terms.len() && (#[trigger] e1[p]).0
                == terms[k].0.spec_index() by {
                let k = choose|k: int| 0 <= k < rest.len() && (#[trigger] e1[p]).0 == rest[k].0.spec_index();
                assert(terms[k] == rest[k]);
            }
            e1
        }
    }
}

/// The literal of a variable of at most `usize::MAX / 2` and a value is
/// over that variable and asserts that value.
proof fn lemma_literal_of_parts(i: nat, v: bool)
    requires
        i <= usize::MAX / 2,
    ensures
        literal_of(i, v).spec_index() == i,
        literal_of(i, v).spec_value() == v,
{
    broadcast use Literal::lemma_from_bits_spec;

    assert(Literal::pack(i, v) <= usize::MAX);
    assert(literal_of(i, v).spec_bits() == Literal::pack(i, v));
}

/// The entries as terms, each index with its value as a literal.
pub open spec fn entries_terms(e: Seq<(usize, (bool, u128))>) -> Seq<(Literal, u128)> {
    e.map_values(|x: (usize, (bool, u128))| (literal_of(x.0 as nat, x.1.0), x.1.1))
}

/// The entries as terms have the value of the entries.
proof fn lemma_entries_as_terms(e: Seq<(usize, (bool, u128))>, assignment: spec_fn(nat) -> bool)
    requires
        forall|p: int| 0 <= p < e.len() ==> (#[trigger] e[p]).0 <= usize::MAX / 2,
    ensures
        value_under(e.map_values(|x: (usize, (bool, u128))| (literal_of(x.0 as nat, x.1.0), x.1.1)), assignment)
            == entries_value(e, assignment),
    decreases e.len(),
{
    if e.len() > 0 {
        let rest = e.drop_last();
        assert forall|p: int| 0 <= p < rest.len() implies (#[trigger] rest[p]).0 <= usize::MAX / 2 by {
            assert(rest[p] == e[p]);
        }
        lemma_entries_as_terms(rest, assignment);
        let f = |x: (usize, (bool, u128))| (literal_of(x.0 as nat, x.1.0), x.1.1);
        assert(e.map_values(f).drop_last() =~= rest.map_values(f));
        let last = e.last();
        assert(last.0 <= usize::MAX / 2);
        lemma_literal_of_parts(last.0 as nat, last.1.0);
    }
}

/// A constraint `sum of coefficient * literal >= lower bound` with 128-bit
/// coefficients, at most one term per variable.
#[derive(Clone, Debug)]
pub struct RandomConstraint {
    literal_terms: IndexMap<(bool, u128)>,
    lower_bound: u128,
}

impl RandomConstraint {
    /// The map is well formed and its variables have literals.
    pub closed spec fn wf(&self) -> bool {
        &&& self.literal_terms.wf()
        &&& self.literal_terms.items().len() + 2 < usize::MAX
        &&& forall|i: usize| #[trigger] self.literal_terms@.contains_key(i) ==> i <= usize::MAX / 2
    }

    /// The term of each variable: its value and coefficient.
    pub closed spec fn terms_map(&self) -> Map<usize, (bool, u128)> {
        self.literal_terms@
    }

    /// The terms, in the order they are visited.
    pub closed spec fn entries(&self) -> Seq<(usize, (bool, u128))> {
        self.literal_terms.items()
    }

    /// The terms as literals and coefficients, in the order they are
    /// visited.
    pub open spec fn spec_terms(&self) -> Seq<(Literal, u128)> {
        entries_terms(self.entries())
    }

    /// The lower bound.
    pub closed spec fn spec_lower_bound(&self) -> u128 {
        self.lower_bound
    }

    /// The value of the terms is that of the map of terms.
    pub proof fn lemma_value(&self, assignment: spec_fn(nat) -> bool)
        requires
            self.wf(),
        ensures
            value_under(self.spec_terms(), assignment) == map_value(self.terms_map(), assignment),
    {
        self.lemma_entries();
        let e = self.entries();
        let m = self.terms_map();
        assert(is_enumeration(m, e));
        lemma_map_value(m, e, assignment);
        assert forall|p: int| 0 <= p < e.len() implies (#[trigger] e[p]).0 <= usize::MAX / 2 by {
            assert(self.literal_terms@.contains_key(e[p].0));
        }
        lemma_entries_as_terms(e, assignment);
    }

    /// The entries are those of the map, each once.
    pub proof fn lemma_entries(&self)
        requires
            self.wf(),
        ensures
            self.terms_map().len() == self.entries().len(),
            forall|p: int|
                0 <= p < self.entries().len() ==> self.terms_map().contains_key(
                    #[trigger] self.entries()[p].0,
                ) && self.terms_map()[self.entries()[p].0] == self.entries()[p].1,
            forall|i: usize| #[trigger]
                self.terms_map().contains_key(i) ==> exists|p: int|
                    0 <= p < self.entries().len() && self.entries()[p] == (i, self.terms_map()[i]),
            forall|p: int, q: int|
                0 <= p < self.entries().len() && 0 <= q < self.entries().len() && p != q
                    ==> #[trigger] self.entries()[p].0 != #[trigger] self.entries()[q].0,
    {
        self.literal_terms.lemma_items();
        self.literal_terms.lemma_keys_unique();
    }

    /// The constraint `0 >= 0`.
    pub fn new() -> (constraint: Self)
        ensures
            constraint.wf(),
            constraint.terms_map() == Map::<usize, (bool, u128)>::empty(),
            constraint.spec_lower_bound() == 0,
    {
        Self { literal_terms: IndexMap::new(), lower_bound: 0 }
    }

    /// Removes every term and sets the lower bound to 0.
    pub fn clear(&mut self)
        requires
            old(self).wf(),
        ensures
            final(self).wf(),
            final(self).terms_map() == Map::<usize, (bool, u128)>::empty(),
            final(self).spec_lower_bound() == 0,
    {
        self.literal_terms.clear();
        proof {
            self.literal_terms.lemma_items();
        }
        self.lower_bound = 0;
    }

    /// The lower bound.
    pub fn lower_bound(&self) -> (lower_bound: u128)
        ensures
            lower_bound == self.spec_lower_bound(),
    {
        self.lower_bound
    }

    /// The coefficient of `literal`, if its variable has a term with its
    /// value.
    pub fn get_coefficient(&self, literal: Literal) -> (coefficient: Option<u128>)
        requires
            self.wf(),
        ensures
            coefficient == if self.terms_map().contains_key(literal.spec_index() as usize)
                && self.terms_map()[literal.spec_index() as usize].0 == literal.spec_value() {
                Some(self.terms_map()[literal.spec_index() as usize].1)
            } else {
                None::<u128>
            },
    {
        match self.literal_terms.get(literal.index()) {
            Some(entry) => if entry.0 == literal.value() {
                Some(entry.1)
            } else {
                None
            },
            None => None,
        }
    }

    /// The terms, in the order they are visited.
    pub fn iter_terms(&self) -> (terms: Vec<(Literal, u128)>)
        requires
            self.wf(),
        ensures
            terms@ == self.spec_terms(),
    {
        let entries = self.literal_terms.iter();
        let mut terms: Vec<(Literal, u128)> = Vec::new();
        let mut k: usize = 0;
        while k < entries.len()
            invariant
                self.wf(),
                entries@ == self.entries(),
                k <= entries@.len(),
                terms@.len() == k,
                forall|j: int|
                    0 <= j < k ==> #[trigger] terms@[j] == (
                        literal_of(entries@[j].0 as nat, entries@[j].1.0),
                        entries@[j].1.1,
                    ),
            decreases entries@.len() - k,
        {
            let (index, (value, coefficient)) = entries[k];
            proof {
                self.lemma_entries();
                assert(self.terms_map().contains_key(self.entries()[k as int].0));
            }
            let literal = Literal::new(index, value);
            proof {
                Literal::lemma_from_bits_spec(Literal::pack(index as nat, value) as usize);
                Literal::lemma_bits_determine(literal, literal_of(index as nat, value));
            }
            terms.push((literal, coefficient));
            k = k + 1;
        }
        proof {
            assert(terms@ =~= self.spec_terms());
        }
        terms
    }

    /// Makes the constraint `terms >= lower_bound`, dropping the terms with a
    /// zero coefficient (see `assigned_map`).
    pub fn assign(&mut self, terms: &[(Literal, u128)], lower_bound: u128)
        requires
            old(self).wf(),
            terms@.len() + 2 < usize::MAX,
        ensures
            final(self).wf(),
            final(self).terms_map() == assigned_map(terms@),
            final(self).spec_lower_bound() == lower_bound,
            final(self).entries().len() <= terms@.len(),
    {
        self.literal_terms.clear();
        proof {
            self.literal_terms.lemma_items();
        }
        let mut k: usize = 0;
        while k < terms.len()
            invariant
                self.wf(),
                k <= terms@.len(),
                terms@.len() + 2 < usize::MAX,
                self.literal_terms.items().len() <= k,
                self.terms_map() == assigned_map(terms@.take(k as int)),
            decreases terms@.len() - k,
        {
            proof {
                assert(terms@.take(k as int + 1).drop_last() =~= terms@.take(k as int));
                self.literal_terms.lemma_items();
            }
            let (literal, coefficient) = terms[k];
            if coefficient > 0 {
                self.literal_terms.insert(literal.index(), (literal.value(), coefficient));
            }
            k = k + 1;
        }
        proof {
            assert(terms@.take(terms@.len() as int) =~= terms@);
        }
        self.lower_bound = lower_bound;
    }

    /// Adds `terms >= lower_bound` to the constraint (see `add_step`); the
    /// lower bound becomes the sum of the two less what the cancelled
    /// coefficients took.
    pub fn add_assign(&mut self, terms: &[(Literal, u128)], lower_bound: u128)
        requires
            old(self).wf(),
            old(self).entries().len() + terms@.len() + 2 < usize::MAX,
            add_fits(old(self).terms_map(), terms@),
            old(self).spec_lower_bound() + lower_bound <= u128::MAX,
            old(self).spec_lower_bound() + lower_bound >= added(old(self).terms_map(), terms@).1,
        ensures
            final(self).wf(),
            final(self).terms_map() == added(old(self).terms_map(), terms@).0,
            final(self).spec_lower_bound() == old(self).spec_lower_bound() + lower_bound - added(
                old(self).terms_map(),
                terms@,
            ).1,
    {
        let ghost m0 = self.terms_map();
        let mut decrease: u128 = 0;
        let mut k: usize = 0;
        proof {
            self.literal_terms.lemma_items();
        }
        while k < terms.len()
            invariant
                self.wf(),
                k <= terms@.len(),
                self.literal_terms.items().len() <= old(self).entries().len() + k,
                old(self).entries().len() + terms@.len() + 2 < usize::MAX,
                add_fits(m0, terms@),
                self.lower_bound == old(self).spec_lower_bound(),
                (self.terms_map(), decrease as int) == added(m0, terms@.take(k as int)),
            decreases terms@.len() - k,
        {
            proof {
                let prefix = terms@.take(k as int + 1);
                assert(prefix.drop_last() =~= terms@.take(k as int));
                assert(prefix.last() == terms@[k as int]);
                lemma_add_fits_prefix(m0, terms@, k as int + 1);
                self.literal_terms.lemma_items();
            }
            let (literal, coefficient) = terms[k];
            let index = literal.index();
            let value = literal.value();
            if coefficient != 0 {
                match self.literal_terms.get(index) {
                    Some(entry) => {
                        let lhs_value = entry.0;
                        let lhs_coefficient = entry.1;
                        if lhs_value == value {
                            self.literal_terms.insert(index, (lhs_value, lhs_coefficient + coefficient));
                        } else if lhs_coefficient > coefficient {
                            decrease = decrease + coefficient;
                            self.literal_terms.insert(index, (lhs_value, lhs_coefficient - coefficient));
                        } else if lhs_coefficient < coefficient {
                            decrease = decrease + lhs_coefficient;
                            self.literal_terms.insert(index, (value, coefficient - lhs_coefficient));
                        } else {
                            decrease = decrease + coefficient;
                            self.literal_terms.remove(index);
                        }
                    },
                    None => {
                        self.literal_terms.insert(index, (value, coefficient));
                    },
                }
            }
            k = k + 1;
        }
        proof {
            assert(terms@.take(terms@.len() as int) =~= terms@);
        }
        self.lower_bound = self.lower_bound + lower_bound - decrease;
    }

    /// Adds `terms >= lower_bound` as `add_assign` does, where the sums fit
    /// in 128 bits and the lower bound does not fall below zero; returns
    /// whether they do (otherwise the constraint is left in some valid
    /// state).
    pub fn try_add_assign(&mut self, terms: &[(Literal, u128)], lower_bound: u128) -> (fits: bool)
        requires
            old(self).wf(),
            old(self).entries().len() + terms@.len() + 2 < usize::MAX,
        ensures
            final(self).wf(),
            fits == (add_fits(old(self).terms_map(), terms@) && old(self).spec_lower_bound() + lower_bound
                <= u128::MAX && old(self).spec_lower_bound() + lower_bound >= added(
                old(self).terms_map(),
                terms@,
            ).1),
            fits ==> final(self).terms_map() == added(old(self).terms_map(), terms@).0,
            fits ==> final(self).spec_lower_bound() == old(self).spec_lower_bound() + lower_bound - added(
                old(self).terms_map(),
                terms@,
            ).1,
    {
        let ghost m0 = self.terms_map();
        let mut decrease: u128 = 0;
        let mut k: usize = 0;
        proof {
            self.literal_terms.lemma_items();
            assert(terms@.take(0) =~= Seq::<(Literal, u128)>::empty());
        }
        while k < terms.len()
            invariant
                self.wf(),
                k <= terms@.len(),
                self.literal_terms.items().len() <= old(self).entries().len() + k,
                old(self).entries().len() + terms@.len() + 2 < usize::MAX,
                add_fits(m0, terms@.take(k as int)),
                m0 == old(self).terms_map(),
                self.lower_bound == old(self).spec_lower_bound(),
                (self.terms_map(), decrease as int) == added(m0, terms@.take(k as int)),
            decreases terms@.len() - k,
        {
            let ghost prefix = terms@.take(k as int + 1);
            proof {
                assert(prefix.drop_last() =~= terms@.take(k as int));
                assert(prefix.last() == terms@[k as int]);
                self.literal_terms.lemma_items();
            }
            let (literal, coefficient) = terms[k];
            let index = literal.index();
            let value = literal.value();
            if coefficient != 0 {
                match self.literal_terms.get(index) {
                    Some(entry) => {
                        let lhs_value = entry.0;
                        let lhs_coefficient = entry.1;
                        if lhs_value == value {
                            match lhs_coefficient.checked_add(coefficient) {
                                Some(sum) => {
                                    self.literal_terms.insert(index, (lhs_value, sum));
                                },
                                None => {
                                    proof {
                                        assert(!add_fits(m0, prefix));
                                        if add_fits(m0, terms@) {
                                            lemma_add_fits_prefix(m0, terms@, k as int + 1);
                                        }
                                    }
                                    return false;
                                },
                            }
                        } else {
                            let cancelled = if lhs_coefficient > coefficient {
                                coefficient
                            } else {
                                lhs_coefficient
                            };
                            match decrease.checked_add(cancelled) {
                                Some(d) => {
                                    decrease = d;
                                },
                                None => {
                                    proof {
                                        assert(!add_fits(m0, prefix));
                                        if add_fits(m0, terms@) {
                                            lemma_add_fits_prefix(m0, terms@, k as int + 1);
                                        }
                                    }
                                    return false;
                                },
                            }
                            if lhs_coefficient > coefficient {
                                self.literal_terms.insert(index, (lhs_value, lhs_coefficient - coefficient));
                            } else if lhs_coefficient < coefficient {
                                self.literal_terms.insert(index, (value, coefficient - lhs_coefficient));
                            } else {
                                self.literal_terms.remove(index);
                            }
                        }
                    },
                    None => {
                        self.literal_terms.insert(index, (value, coefficient));
                    },
                }
            }
            proof {
                assert(add_fits(m0, prefix));
            }
            k = k + 1;
        }
        proof {
            assert(terms@.take(terms@.len() as int) =~= terms@);
        }
        match self.lower_bound.checked_add(lower_bound) {
            Some(total) => {
                if total < decrease {
                    return false;
                }
                self.lower_bound = total - decrease;
                true
            },
            None => false,
        }
    }

    /// Whether `strengthen2` stays within 128 bits: the coefficients below
    /// the lower bound sum to at most `u128::MAX`.
    pub fn strengthen_fits(&self) -> (fits: bool)
        requires
            self.wf(),
        ensures
            fits == (sum_below_entries(self.entries(), self.spec_lower_bound()) <= u128::MAX),
    {
        let lower_bound = self.lower_bound;
        let entries = self.literal_terms.iter();
        proof {
            self.lemma_entries();
        }
        let mut sum: u128 = 0;
        let mut k: usize = 0;
        while k < entries.len()
            invariant
                entries@ == self.entries(),
                lower_bound == self.spec_lower_bound(),
                k <= entries@.len(),
                sum == sum_below_entries(entries@.take(k as int), lower_bound),
            decreases entries@.len() - k,
        {
            proof {
                assert(entries@.take(k as int + 1).drop_last() =~= entries@.take(k as int));
                lemma_sum_below_prefix(entries@, lower_bound, k as int + 1);
            }
            let coefficient = entries[k].1.1;
            if coefficient < lower_bound {
                match sum.checked_add(coefficient) {
                    Some(t) => {
                        sum = t;
                    },
                    None => {
                        return false;
                    },
                }
            }
            k = k + 1;
        }
        proof {
            assert(entries@.take(entries@.len() as int) =~= entries@);
        }
        true
    }

    /// Strengthens the constraint (see `strengthened_map`, over the terms in
    /// the order they are visited).
    pub fn strengthen2(&mut self)
        requires
            old(self).wf(),
            sum_below_entries(old(self).entries(), old(self).spec_lower_bound()) <= u128::MAX,
        ensures
            final(self).wf(),
            (final(self).terms_map(), final(self).spec_lower_bound()) == strengthened_map(
                old(self).terms_map(),
                old(self).entries(),
                old(self).spec_lower_bound(),
            ),
            forall|assignment: spec_fn(nat) -> bool|
                #![trigger map_value(final(self).terms_map(), assignment)]
                (map_value(final(self).terms_map(), assignment) >= final(self).spec_lower_bound()) <==> (map_value(
                    old(self).terms_map(),
                    assignment,
                ) >= old(self).spec_lower_bound()),
    {
        proof {
            self.lemma_entries();
            assert(is_enumeration(self.terms_map(), self.entries()));
            assert forall|assignment: spec_fn(nat) -> bool| (map_value(
                strengthened_map(self.terms_map(), self.entries(), self.spec_lower_bound()).0,
                assignment,
            ) >= strengthened_map(self.terms_map(), self.entries(), self.spec_lower_bound()).1) <==> (map_value(
                self.terms_map(),
                assignment,
            ) >= self.spec_lower_bound()) by {
                lemma_strengthen_map_equivalent(self.terms_map(), self.entries(), self.spec_lower_bound(), assignment);
            }
        }
        let ghost m0 = self.terms_map();
        let lower_bound = self.lower_bound;
        let entries = self.literal_terms.iter();
        proof {
            self.lemma_entries();
            lemma_sum_below_prefix(entries@, lower_bound, 0);
        }
        let mut sum_of_unsaturating_coefficients: u128 = 0;
        let mut g: u128 = 0;
        let mut k: usize = 0;
        while k < entries.len()
            invariant
                entries@ == old(self).entries(),
                k <= entries@.len(),
                sum_below_entries(entries@, lower_bound) <= u128::MAX,
                sum_of_unsaturating_coefficients == sum_below_entries(entries@.take(k as int), lower_bound),
                g == gcd_of_entries(entries@.take(k as int), lower_bound),
            decreases entries@.len() - k,
        {
            proof {
                assert(entries@.take(k as int + 1).drop_last() =~= entries@.take(k as int));
                lemma_sum_below_prefix(entries@, lower_bound, k as int + 1);
            }
            let coefficient = entries[k].1.1;
            if coefficient < lower_bound {
                sum_of_unsaturating_coefficients = sum_of_unsaturating_coefficients + coefficient;
            }
            if g != 1 {
                let c = if coefficient > lower_bound {
                    lower_bound
                } else {
                    coefficient
                };
                g = gcd(g, c);
            }
            k = k + 1;
        }
        proof {
            assert(entries@.take(entries@.len() as int) =~= entries@);
        }
        let ghost target = strengthened_map(m0, entries@, lower_bound);
        // The kept terms and their new coefficients.
        let mut new_terms: IndexMap<(bool, u128)> = IndexMap::new();
        let mut k: usize = 0;
        while k < entries.len()
            invariant
                entries@ == old(self).entries(),
                m0 == old(self).terms_map(),
                k <= entries@.len(),
                g == gcd_of_entries(entries@, lower_bound),
                sum_of_unsaturating_coefficients == sum_below_entries(entries@, lower_bound),
                lower_bound == old(self).spec_lower_bound(),
                target == strengthened_map(m0, entries@, lower_bound),
                old(self).wf(),
                new_terms.wf(),
                new_terms.items().len() <= k,
                entries@.len() + 2 < usize::MAX,
                forall|p: int|
                    0 <= p < entries@.len() ==> m0.contains_key(#[trigger] entries@[p].0)
                        && m0[entries@[p].0] == entries@[p].1,
                forall|p: int, q: int|
                    0 <= p < entries@.len() && 0 <= q < entries@.len() && p != q
                        ==> #[trigger] entries@[p].0 != #[trigger] entries@[q].0,
                forall|i: usize| #[trigger]
                    m0.contains_key(i) ==> exists|p: int|
                        0 <= p < entries@.len() && entries@[p] == (i, m0[i]),
                forall|i: usize| #[trigger] m0.contains_key(i) ==> i <= usize::MAX / 2,
                forall|i: usize| #[trigger]
                    new_terms@.contains_key(i) <==> (target.0.contains_key(i) && exists|p: int|
                        0 <= p < k && (#[trigger] entries@[p]).0 == i),
                forall|i: usize| #[trigger] new_terms@.contains_key(i) ==> new_terms@[i] == target.0[i],
            decreases entries@.len() - k,
        {
            let (index, (value, coefficient)) = entries[k];
            let c = if coefficient > lower_bound {
                lower_bound
            } else {
                coefficient
            };
            proof {
                new_terms.lemma_items();
                assert(m0.contains_key(index) && m0[index] == (value, coefficient));
            }
            if g == 0 {
                new_terms.insert(index, (value, c));
            } else if sum_of_unsaturating_coefficients < lower_bound {
                if coefficient >= lower_bound {
                    new_terms.insert(index, (value, 1));
                }
            } else if g > 1 {
                new_terms.insert(index, (value, c / g));
            } else {
                new_terms.insert(index, (value, c));
            }
            proof {
                assert forall|i: usize| #[trigger]
                    new_terms@.contains_key(i) <==> (target.0.contains_key(i) && exists|p: int|
                        0 <= p < k + 1 && (#[trigger] entries@[p]).0 == i) by {
                    if i == index {
                        assert(entries@[k as int].0 == i);
                    } else if exists|p: int| 0 <= p < k + 1 && (#[trigger] entries@[p]).0 == i {
                        let p = choose|p: int| 0 <= p < k + 1 && (#[trigger] entries@[p]).0 == i;
                        assert(p != k);
                    }
                }
            }
            k = k + 1;
        }
        proof {
            assert(new_terms@ =~= target.0) by {
                assert forall|i: usize| #[trigger] target.0.contains_key(i) implies new_terms@.contains_key(i) by {
                    let p = choose|p: int| 0 <= p < entries@.len() && entries@[p] == (i, m0[i]);
                    assert(entries@[p].0 == i);
                }
            }
        }
        if g != 0 && sum_of_unsaturating_coefficients < lower_bound {
            self.lower_bound = 1;
        } else if g > 1 {
            self.lower_bound = ceil_div_u128(lower_bound, g);
        }
        self.literal_terms = new_terms;
    }
}

impl Default for RandomConstraint {
    fn default() -> (constraint: Self)
        ensures
            constraint.wf(),
            constraint.terms_map() == Map::<usize, (bool, u128)>::empty(),
            constraint.spec_lower_bound() == 0,
    {
        Self::new()
    }
}

/// Adding a prefix of the terms fits when adding all of them does.
proof fn lemma_add_fits_prefix(m: Map<usize, (bool, u128)>, terms: Seq<(Literal, u128)>, k: int)
    requires
        0 <= k <= terms.len(),
        add_fits(m, terms),
    ensures
        add_fits(m, terms.take(k)),
        k > 0 ==> ({
            let (m1, d1) = added(m, terms.take(k - 1));
            let (l, c) = terms[k - 1];
            &&& (m1.contains_key(l.spec_index() as usize) && m1[l.spec_index() as usize].0 == l.spec_value()
                ==> m1[l.spec_index() as usize].1 + c <= u128::MAX)
            &&& add_step(m1, d1, terms[k - 1]).1 <= u128::MAX
        }),
    decreases terms.len(),
{
    if k == terms.len() {
        assert(terms.take(k) =~= terms);
        if k > 0 {
            assert(terms.drop_last() =~= terms.take(k - 1));
        }
    } else {
        assert(terms.drop_last().take(k) =~= terms.take(k));
        if k > 0 {
            assert(terms.drop_last().take(k - 1) =~= terms.take(k - 1));
        }
        lemma_add_fits_prefix(m, terms.drop_last(), k);
    }
}

/// A prefix sums no more than the whole.
proof fn lemma_sum_below_prefix(entries: Seq<(usize, (bool, u128))>, bound: u128, k: int)
    requires
        0 <= k <= entries.len(),
    ensures
        0 <= sum_below_entries(entries.take(k), bound) <= sum_below_entries(entries, bound),
    decreases entries.len(),
{
    if k == entries.len() {
        assert(entries.take(k) =~= entries);
        lemma_sum_below_nonneg(entries, bound);
    } else {
        assert(entries.drop_last().take(k) =~= entries.take(k));
        lemma_sum_below_prefix(entries.drop_last(), bound, k);
    }
}

/// Sums are non-negative.
proof fn lemma_sum_below_nonneg(entries: Seq<(usize, (bool, u128))>, bound: u128)
    ensures
        sum_below_entries(entries, bound) >= 0,
    decreases entries.len(),
{
    if entries.len() > 0 {
        lemma_sum_below_nonneg(entries.drop_last(), bound);
    }
}

} // verus!
