//! Propagation of cardinality constraints `at least lower_bound of these
//! literals hold` by watched literals: each row watches its first
//! `lower_bound + 1` literals, and only a falsified watched literal makes the
//! row look for a replacement or propagate.
use vstd::prelude::*;

use crate::assertion_state::{asserted_before, assigned_at, AssertionInfo, AssertionStack, NULL_ORDER};
use crate::constraint::{Constraint, literals_in_range};
use crate::explain::{CardinalityPropagatorExplainKey, Implication};
use crate::literal::Literal;
use crate::literal_array::LiteralArray;
use crate::resolve::order_of_variable;
use crate::row_storage::{emptied, freed, is_removed, lemma_occupied, occupied_rows, removal_set, contains_index, RowId, RowStorage};
use fxhash::FxHashSet;
use crate::heap_sort::{swap_elements, swapped};
use crate::constraint::{sum_coefficients, sum_where};

verus! {

/// `l` holds in `trail`.
pub open spec fn is_true<E>(trail: Seq<AssertionInfo<E>>, l: Literal) -> bool {
    asserted_before(trail, l, NULL_ORDER as int)
}

/// The negation of `l` holds in `trail`.
pub open spec fn is_false<E>(trail: Seq<AssertionInfo<E>>, l: Literal) -> bool {
    asserted_before(trail, l.negated(), NULL_ORDER as int)
}

/// The variable of `l` is assigned in `trail`.
pub open spec fn is_assigned<E>(trail: Seq<AssertionInfo<E>>, l: Literal) -> bool {
    exists|k: int| assigned_at(trail, l.spec_index(), k)
}

/// The number of literals of `literals` that are not false in `trail`.
pub open spec fn count_not_false<E>(literals: Seq<Literal>, trail: Seq<AssertionInfo<E>>) -> int
    decreases literals.len(),
{
    if literals.len() == 0 {
        0
    } else {
        count_not_false(literals.drop_last(), trail) + if is_false(trail, literals.last()) {
            0int
        } else {
            1int
        }
    }
}

/// Where a literal goes when a row is built: true literals first, then
/// unassigned ones, then false ones, the most recently falsified first.
pub open spec fn placement_key<E>(trail: Seq<AssertionInfo<E>>, l: Literal) -> (int, int) {
    if is_true(trail, l) {
        (0, 0)
    } else if is_false(trail, l) {
        (2, usize::MAX - order_of_variable(trail, l.spec_index()))
    } else {
        (1, 0)
    }
}

/// `a` comes before `b` or ties with it.
pub open spec fn key_le(a: (int, int), b: (int, int)) -> bool {
    a.0 < b.0 || (a.0 == b.0 && a.1 <= b.1)
}

/// The literals are in placement order.
pub open spec fn placement_sorted<E>(trail: Seq<AssertionInfo<E>>, literals: Seq<Literal>) -> bool {
    forall|i: int, j: int|
        0 <= i < j < literals.len() ==> key_le(
            placement_key(trail, #[trigger] literals[i]),
            placement_key(trail, #[trigger] literals[j]),
        )
}

/// The literals of the terms, in order.
pub open spec fn term_literals(terms: Seq<(Literal, u64)>) -> Seq<Literal> {
    terms.map_values(|t: (Literal, u64)| t.0)
}

/// An implication for each unassigned literal of `literals`, in order.
pub open spec fn unassigned_implications<E, K>(
    literals: Seq<Literal>,
    key: K,
    trail: Seq<AssertionInfo<E>>,
) -> Seq<Implication<K>>
    decreases literals.len(),
{
    if literals.len() == 0 {
        Seq::empty()
    } else {
        let rest = unassigned_implications(literals.drop_last(), key, trail);
        if !is_assigned(trail, literals.last()) {
            rest.push(Implication::Literal(literals.last(), key, 0, 1))
        } else {
            rest
        }
    }
}

/// For a row all of whose literals must hold: a conflict for each false
/// literal and an implication for each unassigned one, in order.
pub open spec fn forced_implications<E, K>(
    literals: Seq<Literal>,
    key: K,
    trail: Seq<AssertionInfo<E>>,
) -> Seq<Implication<K>>
    decreases literals.len(),
{
    if literals.len() == 0 {
        Seq::empty()
    } else {
        let rest = forced_implications(literals.drop_last(), key, trail);
        if is_false(trail, literals.last()) {
            rest.push(Implication::Conflict(key))
        } else if !is_assigned(trail, literals.last()) {
            rest.push(Implication::Literal(literals.last(), key, 0, 1))
        } else {
            rest
        }
    }
}

/// What adding a row with `literals` (in placement order) and
/// `lower_bound > 0` finds: a conflict when it has too few literals; when
/// all must hold, `forced_implications`; otherwise, when its last watched
/// literal is false, a conflict if the one before is false too, and the
/// unassigned watched literals.
pub open spec fn initial_implications<E, K>(
    literals: Seq<Literal>,
    lower_bound: int,
    key: K,
    trail: Seq<AssertionInfo<E>>,
) -> Seq<Implication<K>> {
    if literals.len() < lower_bound {
        seq![Implication::Conflict(key)]
    } else if literals.len() == lower_bound {
        forced_implications(literals, key, trail)
    } else if is_false(trail, literals[lower_bound]) {
        (if literals.len() == 1 || is_false(trail, literals[lower_bound - 1]) {
            seq![Implication::Conflict(key)]
        } else {
            Seq::empty()
        }) + unassigned_implications(literals.take(lower_bound), key, trail)
    } else {
        Seq::empty()
    }
}

/// The watchers `(row_id, q)` of the positions `q < count` holding the
/// literal with bits `b`, in order.
pub open spec fn added_watchers(literals: Seq<Literal>, count: nat, row_id: RowId, b: int) -> Seq<(RowId, usize)>
    decreases count,
{
    if count == 0 {
        Seq::empty()
    } else {
        let rest = added_watchers(literals, (count - 1) as nat, row_id, b);
        if literals[count - 1].spec_bits() == b {
            rest.push((row_id, (count - 1) as usize))
        } else {
            rest
        }
    }
}

/// A cardinality constraint: at least `lower_bound` of `literals` hold.
#[derive(Clone, Debug)]
pub struct CardinalityRow {
    literals: Vec<Literal>,
    lower_bound: usize,
    is_learnt: bool,
    last_involved_timestamp: usize,
}

impl CardinalityRow {
    /// The literals, watched ones first.
    pub closed spec fn spec_literals(self) -> Seq<Literal> {
        self.literals@
    }

    /// The number of literals that must hold.
    pub closed spec fn spec_bound(self) -> usize {
        self.lower_bound
    }

    /// Whether the row was learnt.
    pub closed spec fn spec_is_learnt(self) -> bool {
        self.is_learnt
    }

    /// The reduction count when the row last took part in a conflict.
    pub closed spec fn spec_last_involved(self) -> usize {
        self.last_involved_timestamp
    }
}

/// Copies the literals as terms with coefficient 1.
fn unit_terms(literals: &Vec<Literal>) -> (terms: Vec<(Literal, u64)>)
    ensures
        terms@ == literals@.map_values(|l: Literal| (l, 1u64)),
{
    let mut terms: Vec<(Literal, u64)> = Vec::new();
    let mut k: usize = 0;
    while k < literals.len()
        invariant
            k <= literals@.len(),
            terms@ == literals@.take(k as int).map_values(|l: Literal| (l, 1u64)),
        decreases literals@.len() - k,
    {
        terms.push((literals[k], 1));
        k = k + 1;
        proof {
            assert(terms@ =~= literals@.take(k as int).map_values(|l: Literal| (l, 1u64)));
        }
    }
    proof {
        assert(literals@.take(literals@.len() as int) =~= literals@);
    }
    terms
}

impl Constraint for CardinalityRow {
    closed spec fn spec_terms(&self) -> Seq<(Literal, u64)> {
        self.literals@.map_values(|l: Literal| (l, 1u64))
    }

    closed spec fn spec_lower_bound(&self) -> u64 {
        self.lower_bound as u64
    }

    fn iter_terms(&self) -> (terms: Vec<(Literal, u64)>) {
        unit_terms(&self.literals)
    }

    fn lower_bound(&self) -> (lower_bound: u64) {
        self.lower_bound as u64
    }
}

/// The placement key of `literal`.
fn placement_key_of<E: Copy>(state: &AssertionStack<E>, literal: Literal) -> (key: (usize, usize))
    requires
        state.wf(),
        literal.spec_index() < state.spec_number_of_variables(),
    ensures
        key.0 as int == placement_key(state.trail(), literal).0,
        key.1 as int == placement_key(state.trail(), literal).1,
{
    let literal_state = state.literal_state(literal);
    if literal_state.is_true() {
        (0, 0)
    } else if literal_state.is_false() {
        match literal_state.order() {
            Some(order) => {
                proof {
                    state.lemma_assigned_once(literal.spec_index(), order as int);
                }
                (2, usize::MAX - order)
            },
            None => {
                proof {
                    broadcast use Literal::lemma_negated;

                    let k = choose|k: int|
                        0 <= k < state.trail().len() && k < NULL_ORDER && #[trigger] state.trail()[k].predicate.spec_literal()
                            == literal.negated();
                    assert(assigned_at(state.trail(), literal.spec_index(), k));
                }
                (2, 0)
            },
        }
    } else {
        (1, 0)
    }
}

/// `literals` in placement order; literals with equal keys keep their order.
fn sort_for_watching<E: Copy>(literals: &Vec<Literal>, state: &AssertionStack<E>) -> (sorted: Vec<Literal>)
    requires
        state.wf(),
        forall|k: int| 0 <= k < literals@.len() ==> (#[trigger] literals@[k]).spec_index() < state.spec_number_of_variables(),
    ensures
        sorted@.to_multiset() == literals@.to_multiset(),
        placement_sorted(state.trail(), sorted@),
{
    let ghost trail = state.trail();
    let mut sorted: Vec<Literal> = Vec::new();
    let mut keys: Vec<(usize, usize)> = Vec::new();
    let mut i: usize = 0;
    proof {
        assert(literals@.take(0) =~= Seq::<Literal>::empty());
        assert(sorted@ =~= Seq::<Literal>::empty());
    }
    while i < literals.len()
        invariant
            state.wf(),
            trail == state.trail(),
            forall|k: int| 0 <= k < literals@.len() ==> (#[trigger] literals@[k]).spec_index() < state.spec_number_of_variables(),
            i <= literals@.len(),
            keys@.len() == sorted@.len(),
            forall|m: int|
                0 <= m < sorted@.len() ==> (#[trigger] keys@[m]).0 as int == placement_key(trail, sorted@[m]).0
                    && keys@[m].1 as int == placement_key(trail, sorted@[m]).1,
            placement_sorted(trail, sorted@),
            sorted@.to_multiset() == literals@.take(i as int).to_multiset(),
        decreases literals@.len() - i,
    {
        let literal = literals[i];
        let key = placement_key_of(state, literal);
        let mut j: usize = sorted.len();
        while j > 0 && (key.0 < keys[j - 1].0 || (key.0 == keys[j - 1].0 && key.1 < keys[j - 1].1))
            invariant
                j <= sorted@.len(),
                keys@.len() == sorted@.len(),
                forall|m: int|
                    j <= m < sorted@.len() ==> !key_le(placement_key(trail, #[trigger] sorted@[m]), (key.0 as int, key.1 as int)),
                forall|m: int|
                    0 <= m < sorted@.len() ==> (#[trigger] keys@[m]).0 as int == placement_key(trail, sorted@[m]).0
                        && keys@[m].1 as int == placement_key(trail, sorted@[m]).1,
            decreases j,
        {
            j = j - 1;
        }
        let ghost before = sorted@;
        proof {
            assert forall|m: int| 0 <= m < j implies key_le(placement_key(trail, #[trigger] before[m]), (key.0 as int, key.1 as int)) by {
                assert(key_le(placement_key(trail, before[m]), placement_key(trail, before[j - 1])));
            }
        }
        sorted.insert(j, literal);
        keys.insert(j, key);
        proof {
            before.insert_ensures(j as int, literal);
            keys@.len();
            assert forall|m: int|
                0 <= m < sorted@.len() implies (#[trigger] keys@[m]).0 as int == placement_key(trail, sorted@[m]).0
                    && keys@[m].1 as int == placement_key(trail, sorted@[m]).1 by {
                if m > j {
                    assert(sorted@[m] == before[m - 1]);
                }
            }
            assert forall|a: int, b: int| 0 <= a < b < sorted@.len() implies key_le(
                placement_key(trail, #[trigger] sorted@[a]),
                placement_key(trail, #[trigger] sorted@[b]),
            ) by {
                if a < j && b == j {
                } else if a < j && b > j {
                    assert(sorted@[b] == before[b - 1]);
                } else if a == j {
                    assert(sorted@[b] == before[b - 1]);
                } else if a > j {
                    assert(sorted@[a] == before[a - 1]);
                    assert(sorted@[b] == before[b - 1]);
                }
            }
            assert(literals@.take(i as int + 1) =~= literals@.take(i as int).push(literal));
            assert(sorted@ == before.insert(j as int, literal));
            vstd::seq_lib::to_multiset_insert(before, j as int, literal);
            vstd::seq_lib::to_multiset_build(literals@.take(i as int), literal);
            assert(literals@.take(i as int).push(literal).to_multiset() == literals@.take(i as int).to_multiset().insert(
                literal,
            ));
        }
        i = i + 1;
    }
    proof {
        assert(literals@.take(literals@.len() as int) =~= literals@);
    }
    sorted
}

/// No literal is both true and false in `trail`.
pub open spec fn consistent<E>(trail: Seq<AssertionInfo<E>>) -> bool {
    forall|l: Literal| !(#[trigger] is_true(trail, l) && is_false(trail, l))
}

/// A well-formed trail is consistent.
pub proof fn lemma_consistent<E: Copy>(state: AssertionStack<E>)
    requires
        state.wf(),
    ensures
        consistent(state.trail()),
{
    broadcast use Literal::lemma_negated;

    let trail = state.trail();
    assert forall|l: Literal| !(#[trigger] is_true(trail, l) && is_false(trail, l)) by {
        if is_true(trail, l) && is_false(trail, l) {
            let k1 = choose|k: int| 0 <= k < trail.len() && k < NULL_ORDER && #[trigger] trail[k].predicate.spec_literal() == l;
            let k2 = choose|k: int|
                0 <= k < trail.len() && k < NULL_ORDER && #[trigger] trail[k].predicate.spec_literal() == l.negated();
            assert(assigned_at(trail, l.spec_index(), k1));
            assert(assigned_at(trail, l.spec_index(), k2));
            state.lemma_assigned_once(l.spec_index(), k1);
        }
    }
}

/// What an implication of the row `literals` with `lower_bound` under
/// `trail` claims holds: a conflict, that fewer than `lower_bound` literals
/// are not false; an implication of `l`, that `l` is an unassigned literal
/// of the row and at most `lower_bound` literals are not false, so that all
/// of them, `l` among them, must hold.
pub open spec fn sound_for<E, K>(
    implication: Implication<K>,
    key: K,
    literals: Seq<Literal>,
    lower_bound: int,
    trail: Seq<AssertionInfo<E>>,
) -> bool {
    match implication {
        Implication::Conflict(k) => k == key && count_not_false(literals, trail) < lower_bound,
        Implication::Literal(l, k, _, _) => k == key && literals.contains(l) && !is_assigned(trail, l)
            && count_not_false(literals, trail) <= lower_bound,
    }
}

/// At most the number of literals are not false.
proof fn lemma_count_bounds<E>(literals: Seq<Literal>, trail: Seq<AssertionInfo<E>>)
    ensures
        0 <= count_not_false(literals, trail) <= literals.len(),
    decreases literals.len(),
{
    if literals.len() > 0 {
        lemma_count_bounds(literals.drop_last(), trail);
    }
}

/// A false literal leaves at most one fewer than the number of literals not
/// false.
proof fn lemma_count_with_false<E>(literals: Seq<Literal>, trail: Seq<AssertionInfo<E>>, p: int)
    requires
        0 <= p < literals.len(),
        is_false(trail, literals[p]),
    ensures
        count_not_false(literals, trail) <= literals.len() - 1,
    decreases literals.len(),
{
    lemma_count_bounds(literals.drop_last(), trail);
    if p < literals.len() - 1 {
        assert(literals.drop_last()[p] == literals[p]);
        lemma_count_with_false(literals.drop_last(), trail, p);
    }
}

/// False literals after `a` do not count.
proof fn lemma_count_false_suffix<E>(literals: Seq<Literal>, trail: Seq<AssertionInfo<E>>, a: int)
    requires
        0 <= a <= literals.len(),
        forall|m: int| a <= m < literals.len() ==> is_false(trail, #[trigger] literals[m]),
    ensures
        count_not_false(literals, trail) == count_not_false(literals.take(a), trail),
    decreases literals.len(),
{
    if a == literals.len() {
        assert(literals.take(a) =~= literals);
    } else {
        let rest = literals.drop_last();
        assert forall|m: int| a <= m < rest.len() implies is_false(trail, #[trigger] rest[m]) by {
            assert(rest[m] == literals[m]);
        }
        lemma_count_false_suffix(rest, trail, a);
        assert(rest.take(a) =~= literals.take(a));
    }
}

/// In placement order, everything after a false literal is false.
proof fn lemma_sorted_false_suffix<E>(trail: Seq<AssertionInfo<E>>, literals: Seq<Literal>, q: int)
    requires
        consistent(trail),
        placement_sorted(trail, literals),
        0 <= q < literals.len(),
        is_false(trail, literals[q]),
    ensures
        forall|m: int| q <= m < literals.len() ==> is_false(trail, #[trigger] literals[m]),
{
    assert(!is_true(trail, literals[q]));
    assert forall|m: int| q <= m < literals.len() implies is_false(trail, #[trigger] literals[m]) by {
        if m > q {
            assert(key_le(placement_key(trail, literals[q]), placement_key(trail, literals[m])));
        }
    }
}

/// The implications for unassigned literals are sound when at most
/// `lower_bound` literals of the row are not false.
proof fn lemma_unassigned_sound<E, K>(
    prefix: Seq<Literal>,
    key: K,
    literals: Seq<Literal>,
    lower_bound: int,
    trail: Seq<AssertionInfo<E>>,
)
    requires
        forall|m: int| 0 <= m < prefix.len() ==> literals.contains(#[trigger] prefix[m]),
        count_not_false(literals, trail) <= lower_bound,
    ensures
        forall|i: int|
            0 <= i < unassigned_implications(prefix, key, trail).len() ==> sound_for(
                #[trigger] unassigned_implications(prefix, key, trail)[i],
                key,
                literals,
                lower_bound,
                trail,
            ),
    decreases prefix.len(),
{
    if prefix.len() > 0 {
        let rest = prefix.drop_last();
        assert forall|m: int| 0 <= m < rest.len() implies literals.contains(#[trigger] rest[m]) by {
            assert(rest[m] == prefix[m]);
        }
        lemma_unassigned_sound(rest, key, literals, lower_bound, trail);
        assert(literals.contains(prefix[prefix.len() - 1]));
        let all = unassigned_implications(prefix, key, trail);
        let earlier = unassigned_implications(rest, key, trail);
        assert forall|i: int| 0 <= i < all.len() implies sound_for(#[trigger] all[i], key, literals, lower_bound, trail) by {
            if i < earlier.len() {
                assert(all[i] == earlier[i]);
            }
        }
    }
}

/// The implications of a row all of whose literals must hold are sound.
proof fn lemma_forced_sound<E, K>(prefix: Seq<Literal>, key: K, literals: Seq<Literal>, trail: Seq<AssertionInfo<E>>)
    requires
        prefix.len() <= literals.len(),
        forall|m: int| 0 <= m < prefix.len() ==> #[trigger] prefix[m] == literals[m],
    ensures
        forall|i: int|
            0 <= i < forced_implications(prefix, key, trail).len() ==> sound_for(
                #[trigger] forced_implications(prefix, key, trail)[i],
                key,
                literals,
                literals.len() as int,
                trail,
            ),
    decreases prefix.len(),
{
    lemma_count_bounds(literals, trail);
    if prefix.len() > 0 {
        let rest = prefix.drop_last();
        assert forall|m: int| 0 <= m < rest.len() implies #[trigger] rest[m] == literals[m] by {
            assert(rest[m] == prefix[m]);
        }
        lemma_forced_sound(rest, key, literals, trail);
        let p = prefix.len() - 1;
        assert(prefix[p] == literals[p]);
        if is_false(trail, prefix[p]) {
            lemma_count_with_false(literals, trail, p);
        }
        let all = forced_implications(prefix, key, trail);
        let earlier = forced_implications(rest, key, trail);
        assert forall|i: int| 0 <= i < all.len() implies sound_for(#[trigger] all[i], key, literals, literals.len() as int, trail) by {
            if i < earlier.len() {
                assert(all[i] == earlier[i]);
            } else {
                assert(literals.contains(literals[p]));
            }
        }
    }
}

/// Every implication found when a row in placement order is added is sound.
pub proof fn lemma_initial_implications_sound<E, K>(
    literals: Seq<Literal>,
    lower_bound: int,
    key: K,
    trail: Seq<AssertionInfo<E>>,
)
    requires
        consistent(trail),
        placement_sorted(trail, literals),
        lower_bound > 0,
    ensures
        forall|i: int|
            0 <= i < initial_implications(literals, lower_bound, key, trail).len() ==> sound_for(
                #[trigger] initial_implications(literals, lower_bound, key, trail)[i],
                key,
                literals,
                lower_bound,
                trail,
            ),
{
    let found = initial_implications(literals, lower_bound, key, trail);
    lemma_count_bounds(literals, trail);
    if literals.len() < lower_bound {
    } else if literals.len() == lower_bound {
        lemma_forced_sound(literals, key, literals, trail);
    } else if is_false(trail, literals[lower_bound]) {
        lemma_sorted_false_suffix(trail, literals, lower_bound);
        lemma_count_false_suffix(literals, trail, lower_bound);
        let prefix = literals.take(lower_bound);
        lemma_count_bounds(prefix, trail);
        if is_false(trail, literals[lower_bound - 1]) {
            assert(prefix[lower_bound - 1] == literals[lower_bound - 1]);
            lemma_count_with_false(prefix, trail, lower_bound - 1);
        }
        assert forall|m: int| 0 <= m < prefix.len() implies literals.contains(#[trigger] prefix[m]) by {
            assert(prefix[m] == literals[m]);
        }
        lemma_unassigned_sound(prefix, key, literals, lower_bound, trail);
        let head: Seq<Implication<K>> = if literals.len() == 1 || is_false(trail, literals[lower_bound - 1]) {
            seq![Implication::Conflict(key)]
        } else {
            Seq::empty()
        };
        let tail = unassigned_implications(prefix, key, trail);
        assert(found == head + tail);
        assert forall|i: int| 0 <= i < found.len() implies sound_for(#[trigger] found[i], key, literals, lower_bound, trail) by {
            if i >= head.len() {
                assert(found[i] == tail[i - head.len()]);
            }
        }
    }
}

/// In placement order, exactly the literals from position
/// `count_not_false` on are false.
proof fn lemma_sorted_count<E>(trail: Seq<AssertionInfo<E>>, literals: Seq<Literal>)
    requires
        consistent(trail),
        placement_sorted(trail, literals),
    ensures
        forall|m: int|
            0 <= m < literals.len() ==> (is_false(trail, #[trigger] literals[m]) <==> m >= count_not_false(
                literals,
                trail,
            )),
    decreases literals.len(),
{
    if literals.len() > 0 {
        let rest = literals.drop_last();
        let n = literals.len() - 1;
        assert(placement_sorted(trail, rest)) by {
            assert forall|i: int, j: int| 0 <= i < j < rest.len() implies key_le(
                placement_key(trail, #[trigger] rest[i]),
                placement_key(trail, #[trigger] rest[j]),
            ) by {
                assert(rest[i] == literals[i] && rest[j] == literals[j]);
            }
        }
        lemma_sorted_count(trail, rest);
        lemma_count_bounds(rest, trail);
        if !is_false(trail, literals[n]) {
            assert forall|m: int| 0 <= m < n implies !is_false(trail, #[trigger] rest[m]) by {
                assert(rest[m] == literals[m]);
                if is_false(trail, literals[m]) {
                    lemma_sorted_false_suffix(trail, literals, m);
                }
            }
            if count_not_false(rest, trail) < n {
                let m = count_not_false(rest, trail);
                assert(!is_false(trail, rest[m]));
            }
        }
        assert forall|m: int| 0 <= m < literals.len() implies (is_false(trail, #[trigger] literals[m]) <==> m
            >= count_not_false(literals, trail)) by {
            if m < n {
                assert(rest[m] == literals[m]);
            }
        }
    }
}

/// A false literal is assigned.
proof fn lemma_false_assigned<E>(trail: Seq<AssertionInfo<E>>, l: Literal)
    requires
        is_false(trail, l),
    ensures
        is_assigned(trail, l),
{
    broadcast use Literal::lemma_negated;

    let k = choose|k: int| 0 <= k < trail.len() && k < NULL_ORDER as int && #[trigger] trail[k].predicate.spec_literal() == l.negated();
    assert(assigned_at(trail, l.spec_index(), k));
}

/// Each unassigned literal of `prefix` has its implication.
proof fn lemma_unassigned_complete<E, K>(prefix: Seq<Literal>, key: K, trail: Seq<AssertionInfo<E>>, m: int)
    requires
        0 <= m < prefix.len(),
        !is_assigned(trail, prefix[m]),
    ensures
        unassigned_implications(prefix, key, trail).contains(Implication::Literal(prefix[m], key, 0, 1)),
    decreases prefix.len(),
{
    let all = unassigned_implications(prefix, key, trail);
    let rest = prefix.drop_last();
    if m < prefix.len() - 1 {
        assert(rest[m] == prefix[m]);
        lemma_unassigned_complete(rest, key, trail, m);
        let earlier = unassigned_implications(rest, key, trail);
        let i = choose|i: int| 0 <= i < earlier.len() && earlier[i] == Implication::Literal(prefix[m], key, 0, 1);
        assert(all[i] == earlier[i]);
    } else {
        assert(all.last() == Implication::<K>::Literal(prefix[m], key, 0, 1));
    }
}

/// A row all of whose literals must hold finds a conflict for a false
/// literal and an implication for each unassigned one.
proof fn lemma_forced_complete<E, K>(literals: Seq<Literal>, key: K, trail: Seq<AssertionInfo<E>>, m: int)
    requires
        0 <= m < literals.len(),
    ensures
        is_false(trail, literals[m]) ==> forced_implications(literals, key, trail).contains(
            Implication::Conflict(key),
        ),
        !is_assigned(trail, literals[m]) ==> forced_implications(literals, key, trail).contains(
            Implication::Literal(literals[m], key, 0, 1),
        ),
    decreases literals.len(),
{
    let all = forced_implications(literals, key, trail);
    let rest = literals.drop_last();
    if is_false(trail, literals[m]) {
        lemma_false_assigned(trail, literals[m]);
    }
    if m < literals.len() - 1 {
        assert(rest[m] == literals[m]);
        lemma_forced_complete(rest, key, trail, m);
        let earlier = forced_implications(rest, key, trail);
        assert forall|i: int| 0 <= i < earlier.len() implies all[i] == earlier[i] by {}
        if is_false(trail, literals[m]) {
            let i = choose|i: int| 0 <= i < earlier.len() && earlier[i] == Implication::<K>::Conflict(key);
            assert(all[i] == earlier[i]);
        }
        if !is_assigned(trail, literals[m]) {
            let i = choose|i: int| 0 <= i < earlier.len() && earlier[i] == Implication::Literal(literals[m], key, 0, 1);
            assert(all[i] == earlier[i]);
        }
    } else {
        if is_false(trail, literals[m]) {
            assert(all.last() == Implication::<K>::Conflict(key));
        } else if !is_assigned(trail, literals[m]) {
            assert(all.last() == Implication::<K>::Literal(literals[m], key, 0, 1));
        }
    }
}

/// What a row in placement order finds when added is complete: a conflict
/// when fewer than `lower_bound` of its literals are not false, and, when
/// exactly `lower_bound` are, an implication for each unassigned literal.
pub proof fn lemma_initial_implications_complete<E, K>(
    literals: Seq<Literal>,
    lower_bound: int,
    key: K,
    trail: Seq<AssertionInfo<E>>,
)
    requires
        consistent(trail),
        placement_sorted(trail, literals),
        lower_bound > 0,
    ensures
        count_not_false(literals, trail) < lower_bound ==> initial_implications(
            literals,
            lower_bound,
            key,
            trail,
        ).contains(Implication::Conflict(key)),
        count_not_false(literals, trail) == lower_bound ==> forall|m: int|
            0 <= m < literals.len() && !is_assigned(trail, #[trigger] literals[m]) ==> initial_implications(
                literals,
                lower_bound,
                key,
                trail,
            ).contains(Implication::Literal(literals[m], key, 0, 1)),
{
    let found = initial_implications(literals, lower_bound, key, trail);
    let c = count_not_false(literals, trail);
    lemma_count_bounds(literals, trail);
    lemma_sorted_count(trail, literals);
    if literals.len() < lower_bound {
        assert(found[0] == Implication::<K>::Conflict(key));
    } else if literals.len() == lower_bound {
        if c < lower_bound {
            assert(is_false(trail, literals[c]));
            lemma_forced_complete(literals, key, trail, c);
        }
        assert forall|m: int| 0 <= m < literals.len() && !is_assigned(trail, #[trigger] literals[m]) implies found.contains(
            Implication::Literal(literals[m], key, 0, 1),
        ) by {
            lemma_forced_complete(literals, key, trail, m);
        }
    } else if is_false(trail, literals[lower_bound]) {
        let prefix = literals.take(lower_bound);
        let head: Seq<Implication<K>> = if literals.len() == 1 || is_false(trail, literals[lower_bound - 1]) {
            seq![Implication::Conflict(key)]
        } else {
            Seq::empty()
        };
        let tail = unassigned_implications(prefix, key, trail);
        assert(found == head + tail);
        if c < lower_bound {
            assert(is_false(trail, literals[lower_bound - 1]));
            assert(found[0] == Implication::<K>::Conflict(key));
        }
        if c == lower_bound {
            assert forall|m: int| 0 <= m < literals.len() && !is_assigned(trail, #[trigger] literals[m]) implies found.contains(
                Implication::Literal(literals[m], key, 0, 1),
            ) by {
                if is_false(trail, literals[m]) {
                    lemma_false_assigned(trail, literals[m]);
                }
                assert(prefix[m] == literals[m]);
                lemma_unassigned_complete(prefix, key, trail, m);
                let i = choose|i: int| 0 <= i < tail.len() && tail[i] == Implication::Literal(prefix[m], key, 0, 1);
                assert(found[head.len() + i] == tail[i]);
            }
        }
    } else {
    }
}

/// The watchers of `added_watchers` belong to `row_id`, watch positions
/// below `count` that hold the literal with bits `b`, and come in increasing
/// position order.
proof fn lemma_added_watchers(literals: Seq<Literal>, count: nat, row_id: RowId, b: int)
    requires
        count <= literals.len(),
        count <= usize::MAX,
    ensures
        forall|k: int|
            0 <= k < added_watchers(literals, count, row_id, b).len() ==> {
                let w = #[trigger] added_watchers(literals, count, row_id, b)[k];
                &&& w.0 == row_id
                &&& w.1 < count
                &&& literals[w.1 as int].spec_bits() == b
            },
        forall|i: int, j: int|
            0 <= i < j < added_watchers(literals, count, row_id, b).len() ==> (#[trigger] added_watchers(
                literals,
                count,
                row_id,
                b,
            )[i]).1 < (#[trigger] added_watchers(literals, count, row_id, b)[j]).1,
    decreases count,
{
    if count > 0 {
        lemma_added_watchers(literals, (count - 1) as nat, row_id, b);
        let all = added_watchers(literals, count, row_id, b);
        let earlier = added_watchers(literals, (count - 1) as nat, row_id, b);
        assert forall|k: int| 0 <= k < earlier.len() implies #[trigger] all[k] == earlier[k] by {}
        assert forall|k: int| 0 <= k < all.len() implies {
            let w = #[trigger] all[k];
            &&& w.0 == row_id
            &&& w.1 < count
            &&& literals[w.1 as int].spec_bits() == b
        } by {
            if k < earlier.len() {
                assert(all[k] == earlier[k]);
            }
        }
        assert forall|i: int, j: int| 0 <= i < j < all.len() implies (#[trigger] all[i]).1 < (#[trigger] all[j]).1 by {
            assert(all[i] == earlier[i]);
            if j < earlier.len() {
                assert(all[j] == earlier[j]);
            }
        }
    }
}

/// The literals of the rows are over the first `n` variables.
pub open spec fn literals_within(literals: Seq<Literal>, n: nat) -> bool {
    forall|k: int| 0 <= k < literals.len() ==> (#[trigger] literals[k]).spec_index() < n
}

/// The watcher `w`, found in the column of the literal with bits `b`, names
/// a row that holds that literal at a watched position.
pub open spec fn watches(slots: Seq<Option<CardinalityRow>>, w: (RowId, usize), b: int) -> bool {
    let i = w.0.spec_index() as int;
    &&& 0 <= i < slots.len()
    &&& slots[i] is Some
    &&& w.1 <= slots[i].unwrap().spec_bound()
    &&& slots[i].unwrap().spec_bound() < slots[i].unwrap().spec_literals().len()
    &&& slots[i].unwrap().spec_literals()[w.1 as int].spec_bits() == b
}

/// Updating one literal changes the count of literals not false by the
/// difference the two literals make.
proof fn lemma_count_update<E>(s: Seq<Literal>, i: int, x: Literal, trail: Seq<AssertionInfo<E>>)
    requires
        0 <= i < s.len(),
    ensures
        count_not_false(s.update(i, x), trail) == count_not_false(s, trail) - (if is_false(trail, s[i]) {
            0int
        } else {
            1int
        }) + (if is_false(trail, x) {
            0int
        } else {
            1int
        }),
    decreases s.len(),
{
    let t = s.update(i, x);
    if i == s.len() - 1 {
        assert(t.drop_last() =~= s.drop_last());
    } else {
        assert(t.drop_last() =~= s.drop_last().update(i, x));
        lemma_count_update(s.drop_last(), i, x, trail);
    }
}

/// Swapping two literals keeps the multiset of literals and the count of
/// those not false.
proof fn lemma_swap<E>(s: Seq<Literal>, i: int, j: int, trail: Seq<AssertionInfo<E>>)
    requires
        0 <= i < s.len(),
        0 <= j < s.len(),
    ensures
        s.update(i, s[j]).update(j, s[i]).len() == s.len(),
        s.update(i, s[j]).update(j, s[i]).to_multiset() == s.to_multiset(),
        count_not_false(s.update(i, s[j]).update(j, s[i]), trail) == count_not_false(s, trail),
{
    broadcast use vstd::multiset::group_multiset_axioms;

    let t1 = s.update(i, s[j]);
    let t = t1.update(j, s[i]);
    if i == j {
        assert(t =~= s);
    } else {
        lemma_count_update(s, i, s[j], trail);
        lemma_count_update(t1, j, s[i], trail);
        vstd::seq_lib::to_multiset_update(s, i, s[j]);
        vstd::seq_lib::to_multiset_update(t1, j, s[i]);
        vstd::seq_lib::to_multiset_contains(s, s[i]);
        vstd::seq_lib::to_multiset_contains(s, s[j]);
        assert(s.contains(s[i]));
        assert(s.contains(s[j]));
        assert(t.to_multiset() =~= s.to_multiset());
    }
}


/// The watchers of `watchers` whose row is not one of `row_ids`, in order.
pub open spec fn watchers_kept(watchers: Seq<(RowId, usize)>, row_ids: Seq<RowId>) -> Seq<(RowId, usize)>
    decreases watchers.len(),
{
    if watchers.len() == 0 {
        Seq::empty()
    } else {
        let rest = watchers_kept(watchers.drop_last(), row_ids);
        if is_removed(row_ids, watchers.last().0.spec_index() as int) {
            rest
        } else {
            rest.push(watchers.last())
        }
    }
}

/// The kept watchers are those whose row is not removed, each as often as
/// before.
proof fn lemma_watchers_kept(watchers: Seq<(RowId, usize)>, row_ids: Seq<RowId>)
    ensures
        forall|w: (RowId, usize)|
            #[trigger] watchers_kept(watchers, row_ids).contains(w) <==> (watchers.contains(w) && !is_removed(
                row_ids,
                w.0.spec_index() as int,
            )),
        watchers.no_duplicates() ==> watchers_kept(watchers, row_ids).no_duplicates(),
    decreases watchers.len(),
{
    broadcast use vstd::seq_lib::group_seq_properties;

    if watchers.len() > 0 {
        let rest = watchers.drop_last();
        let last = watchers.last();
        lemma_watchers_kept(rest, row_ids);
        assert(watchers =~= rest.push(last));
        let kept_rest = watchers_kept(rest, row_ids);
        if watchers.no_duplicates() && !is_removed(row_ids, last.0.spec_index() as int) {
            assert(!rest.contains(last)) by {
                if rest.contains(last) {
                    let k = choose|k: int| 0 <= k < rest.len() && rest[k] == last;
                    assert(watchers[k] == watchers[watchers.len() - 1]);
                }
            }
            assert(!kept_rest.contains(last));
        }
    }
}

/// The watchers of `column` whose row is not marked.
fn keep_watchers(column: &Vec<(RowId, usize)>, removed: &FxHashSet<usize>, Ghost(row_ids): Ghost<Seq<RowId>>) -> (kept: Vec<
    (RowId, usize),
>)
    requires
        forall|i: usize| #[trigger] removed@.contains(i) <==> is_removed(row_ids, i as int),
    ensures
        kept@ == watchers_kept(column@, row_ids),
{
    let mut kept: Vec<(RowId, usize)> = Vec::new();
    let mut k: usize = 0;
    while k < column.len()
        invariant
            k <= column@.len(),
            forall|i: usize| #[trigger] removed@.contains(i) <==> is_removed(row_ids, i as int),
            kept@ == watchers_kept(column@.take(k as int), row_ids),
        decreases column@.len() - k,
    {
        proof {
            assert(column@.take(k as int + 1).drop_last() =~= column@.take(k as int));
        }
        let i = column[k].0.index();
        let removed_row = contains_index(removed, i);
        if !removed_row {
            kept.push(column[k]);
        }
        k = k + 1;
    }
    proof {
        assert(column@.take(column@.len() as int) =~= column@);
    }
    kept
}

/// Removing the literal at `j` takes it out of the count.
proof fn lemma_count_remove<E>(literals: Seq<Literal>, trail: Seq<AssertionInfo<E>>, j: int)
    requires
        0 <= j < literals.len(),
    ensures
        count_not_false(literals, trail) == count_not_false(literals.remove(j), trail) + if is_false(
            trail,
            literals[j],
        ) {
            0int
        } else {
            1int
        },
    decreases literals.len(),
{
    if j == literals.len() - 1 {
        assert(literals.remove(j) =~= literals.drop_last());
    } else {
        lemma_count_remove(literals.drop_last(), trail, j);
        assert(literals.remove(j).drop_last() =~= literals.drop_last().remove(j));
        assert(literals.remove(j).last() == literals.last());
    }
}

/// The count of literals not false depends only on the literals counted
/// with multiplicity.
pub proof fn lemma_count_permutation<E>(s: Seq<Literal>, t: Seq<Literal>, trail: Seq<AssertionInfo<E>>)
    requires
        s.to_multiset() == t.to_multiset(),
    ensures
        count_not_false(s, trail) == count_not_false(t, trail),
    decreases s.len(),
{
    broadcast use vstd::multiset::group_multiset_axioms;

    vstd::seq_lib::to_multiset_len(s);
    vstd::seq_lib::to_multiset_len(t);
    if s.len() > 0 {
        let x = s.last();
        vstd::seq_lib::to_multiset_contains(s, x);
        vstd::seq_lib::to_multiset_contains(t, x);
        assert(s.contains(x)) by {
            assert(s[s.len() - 1] == x);
        }
        let j = choose|j: int| 0 <= j < t.len() && t[j] == x;
        vstd::seq_lib::to_multiset_remove(t, j);
        assert(s.drop_last().push(x) =~= s);
        vstd::seq_lib::to_multiset_build(s.drop_last(), x);
        assert(s.drop_last().to_multiset() =~= s.to_multiset().remove(x));
        lemma_count_permutation(s.drop_last(), t.remove(j), trail);
        lemma_count_remove(t, trail, j);
    }
}

/// A longer trail leaves no more literals not false.
pub proof fn lemma_count_extension<E>(literals: Seq<Literal>, trail: Seq<AssertionInfo<E>>, longer: Seq<AssertionInfo<E>>)
    requires
        trail.len() <= longer.len(),
        longer.take(trail.len() as int) == trail,
    ensures
        count_not_false(literals, longer) <= count_not_false(literals, trail),
    decreases literals.len(),
{
    if literals.len() > 0 {
        lemma_count_extension(literals.drop_last(), trail, longer);
        let x = literals.last();
        if is_false(trail, x) {
            let k = choose|k: int|
                0 <= k < trail.len() && k < NULL_ORDER as int && #[trigger] trail[k].predicate.spec_literal()
                    == x.negated();
            assert(longer[k] == longer.take(trail.len() as int)[k]);
            assert(longer[k].predicate.spec_literal() == x.negated());
        }
    }
}

/// Every literal of the row after its watched ones is false.
pub open spec fn suffix_false<E>(row: CardinalityRow, trail: Seq<AssertionInfo<E>>) -> bool {
    forall|q: int| row.spec_bound() < q < row.spec_literals().len() ==> is_false(trail, #[trigger] row.spec_literals()[q])
}

/// The row that the watcher `w` names has propagated: every literal after
/// its watched ones is false, and each unassigned watched literal has been
/// implied by it.
pub open spec fn propagated<E>(
    rows: Seq<Option<CardinalityRow>>,
    w: (RowId, usize),
    implications: Seq<Implication<CardinalityPropagatorExplainKey>>,
    trail: Seq<AssertionInfo<E>>,
) -> bool {
    let row = rows[w.0.spec_index() as int].unwrap();
    &&& suffix_false(row, trail)
    &&& forall|q: int|
        0 <= q <= row.spec_bound() && q < row.spec_literals().len() && !is_assigned(trail, #[trigger] row.spec_literals()[q])
            ==> implications.contains(Implication::Literal(row.spec_literals()[q], CardinalityPropagatorExplainKey::of(w.0), 0, 1))
}

/// The implication is sound (see `sound_for`) for the row behind its key.
pub open spec fn sound_in<E>(
    rows: Seq<Option<CardinalityRow>>,
    implication: Implication<CardinalityPropagatorExplainKey>,
    trail: Seq<AssertionInfo<E>>,
) -> bool {
    let key = match implication {
        Implication::Conflict(k) => k,
        Implication::Literal(_, k, _, _) => k,
    };
    let i = key.spec_row_id().spec_index() as int;
    &&& 0 <= i < rows.len()
    &&& rows[i] is Some
    &&& sound_for(implication, key, rows[i].unwrap().spec_literals(), rows[i].unwrap().spec_bound() as int, trail)
}

/// `b` holds the rows of `a` with their literals possibly reordered: the
/// same slots, bounds, flags and timestamps, the same literals counted with
/// multiplicity, and as many not false in `trail`; a row whose literals
/// after its watched ones are all false is unchanged.
pub open spec fn rows_reordered<E>(
    a: Seq<Option<CardinalityRow>>,
    b: Seq<Option<CardinalityRow>>,
    trail: Seq<AssertionInfo<E>>,
) -> bool {
    &&& a.len() == b.len()
    &&& forall|i: int| 0 <= i < a.len() ==> (#[trigger] b[i] is Some) == (a[i] is Some)
    &&& forall|i: int|
        0 <= i < a.len() && #[trigger] b[i] is Some ==> {
            let x = a[i].unwrap();
            let y = b[i].unwrap();
            &&& y.spec_literals().len() == x.spec_literals().len()
            &&& y.spec_literals().to_multiset() == x.spec_literals().to_multiset()
            &&& count_not_false(y.spec_literals(), trail) == count_not_false(x.spec_literals(), trail)
            &&& y.spec_bound() == x.spec_bound()
            &&& y.spec_is_learnt() == x.spec_is_learnt()
            &&& y.spec_last_involved() == x.spec_last_involved()
            &&& (suffix_false(x, trail) ==> y == x)
        }
}

/// Reordering is transitive.
proof fn lemma_rows_reordered_trans<E>(
    a: Seq<Option<CardinalityRow>>,
    b: Seq<Option<CardinalityRow>>,
    c: Seq<Option<CardinalityRow>>,
    trail: Seq<AssertionInfo<E>>,
)
    requires
        rows_reordered(a, b, trail),
        rows_reordered(b, c, trail),
    ensures
        rows_reordered(a, c, trail),
{
    assert forall|i: int| 0 <= i < a.len() implies (#[trigger] c[i] is Some) == (a[i] is Some) by {
        assert(b[i] is Some == a[i] is Some);
    }
    assert forall|i: int| 0 <= i < a.len() && #[trigger] c[i] is Some implies {
        let x = a[i].unwrap();
        let y = c[i].unwrap();
        &&& y.spec_literals().len() == x.spec_literals().len()
        &&& y.spec_literals().to_multiset() == x.spec_literals().to_multiset()
        &&& count_not_false(y.spec_literals(), trail) == count_not_false(x.spec_literals(), trail)
        &&& y.spec_bound() == x.spec_bound()
        &&& y.spec_is_learnt() == x.spec_is_learnt()
        &&& y.spec_last_involved() == x.spec_last_involved()
        &&& (suffix_false(x, trail) ==> y == x)
    } by {
        assert(b[i] is Some);
    }
}

/// Soundness only depends on the rows up to reordering.
proof fn lemma_sound_reordered<E>(
    a: Seq<Option<CardinalityRow>>,
    b: Seq<Option<CardinalityRow>>,
    implication: Implication<CardinalityPropagatorExplainKey>,
    trail: Seq<AssertionInfo<E>>,
)
    requires
        rows_reordered(a, b, trail),
        sound_in(a, implication, trail),
    ensures
        sound_in(b, implication, trail),
{
    let key = match implication {
        Implication::Conflict(k) => k,
        Implication::Literal(_, k, _, _) => k,
    };
    let i = key.spec_row_id().spec_index() as int;
    assert(b[i] is Some);
    let x = a[i].unwrap().spec_literals();
    let y = b[i].unwrap().spec_literals();
    match implication {
        Implication::Literal(l, _, _, _) => {
            vstd::seq_lib::to_multiset_contains(x, l);
            vstd::seq_lib::to_multiset_contains(y, l);
        },
        Implication::Conflict(_) => {},
    }
}

/// A propagated row stays propagated when the rows are only reordered and
/// implications only appended.
proof fn lemma_propagated_stable<E>(
    a: Seq<Option<CardinalityRow>>,
    b: Seq<Option<CardinalityRow>>,
    w: (RowId, usize),
    before: Seq<Implication<CardinalityPropagatorExplainKey>>,
    after: Seq<Implication<CardinalityPropagatorExplainKey>>,
    trail: Seq<AssertionInfo<E>>,
)
    requires
        rows_reordered(a, b, trail),
        0 <= w.0.spec_index() < a.len(),
        a[w.0.spec_index() as int] is Some,
        before.len() <= after.len(),
        after.take(before.len() as int) == before,
        propagated(a, w, before, trail),
    ensures
        propagated(b, w, after, trail),
{
    let i = w.0.spec_index() as int;
    assert(b[i] is Some);
    assert(b[i] == a[i]);
    let row = a[i].unwrap();
    assert forall|q: int|
        0 <= q <= row.spec_bound() && q < row.spec_literals().len() && !is_assigned(trail, #[trigger] row.spec_literals()[q])
            implies after.contains(Implication::Literal(row.spec_literals()[q], CardinalityPropagatorExplainKey::of(w.0), 0, 1)) by {
        let x = choose|x: int|
            0 <= x < before.len() && before[x] == Implication::Literal(row.spec_literals()[q], CardinalityPropagatorExplainKey::of(w.0), 0, 1);
        assert(after[x] == after.take(before.len() as int)[x]);
    }
}

/// The literals of the terms, in order.
fn literals_of(terms: &Vec<(Literal, u64)>) -> (literals: Vec<Literal>)
    ensures
        literals@ == term_literals(terms@),
{
    let mut literals: Vec<Literal> = Vec::new();
    let mut k: usize = 0;
    while k < terms.len()
        invariant
            k <= terms@.len(),
            literals@ == term_literals(terms@.take(k as int)),
        decreases terms@.len() - k,
    {
        literals.push(terms[k].0);
        k = k + 1;
        proof {
            assert(literals@ =~= term_literals(terms@.take(k as int)));
        }
    }
    proof {
        assert(terms@.take(terms@.len() as int) =~= terms@);
    }
    literals
}

/// The assertions of `trail` satisfy the row: at least its lower bound of
/// its literals are true.
pub open spec fn satisfied_by<E>(row: CardinalityRow, trail: Seq<AssertionInfo<E>>) -> bool {
    sum_where(row.spec_terms(), |l: Literal| asserted_before(trail, l, NULL_ORDER as int)) >= row.spec_bound()
}

/// The number of rows whose being learnt is `learnt`.
pub open spec fn count_learnt(rows: Seq<(RowId, CardinalityRow)>, learnt: bool) -> nat
    decreases rows.len(),
{
    if rows.len() == 0 {
        0
    } else {
        count_learnt(rows.drop_last(), learnt) + if rows.last().1.spec_is_learnt() == learnt {
            1nat
        } else {
            0nat
        }
    }
}

/// The identifiers of the rows that `trail` satisfies, in order.
pub open spec fn satisfied_ids<E>(rows: Seq<(RowId, CardinalityRow)>, trail: Seq<AssertionInfo<E>>) -> Seq<RowId>
    decreases rows.len(),
{
    if rows.len() == 0 {
        Seq::empty()
    } else {
        let rest = satisfied_ids(rows.drop_last(), trail);
        if satisfied_by(rows.last().1, trail) {
            rest.push(rows.last().0)
        } else {
            rest
        }
    }
}

/// How many reductions ago the row last took part in a conflict, at least 3.
pub open spec fn idle_span(reduction_count: usize, row: CardinalityRow) -> usize {
    let span = if reduction_count >= row.spec_last_involved() {
        (reduction_count - row.spec_last_involved()) as usize
    } else {
        0usize
    };
    if span > 3 {
        span
    } else {
        3
    }
}

/// The learnt rows that `trail` does not satisfy, each with its idle span,
/// in order.
pub open spec fn removal_candidates<E>(
    rows: Seq<(RowId, CardinalityRow)>,
    reduction_count: usize,
    trail: Seq<AssertionInfo<E>>,
) -> Seq<(usize, RowId)>
    decreases rows.len(),
{
    if rows.len() == 0 {
        Seq::empty()
    } else {
        let rest = removal_candidates(rows.drop_last(), reduction_count, trail);
        let row = rows.last().1;
        if row.spec_is_learnt() && !satisfied_by(row, trail) {
            rest.push((idle_span(reduction_count, row), rows.last().0))
        } else {
            rest
        }
    }
}

/// How many rows a reduction removes: a tenth of the learnt ones, at least
/// 1000.
pub open spec fn removal_quota(rows: Seq<(RowId, CardinalityRow)>) -> nat {
    if count_learnt(rows, true) / 10 > 1000 {
        count_learnt(rows, true) / 10
    } else {
        1000
    }
}

/// How many learnt rows must remain for a reduction to take place: a tenth
/// of the other rows, at least 1000, and 10 more per earlier reduction.
pub open spec fn retention_quota(rows: Seq<(RowId, CardinalityRow)>, reduction_count: usize) -> nat {
    (if count_learnt(rows, false) / 10 > 1000 {
        count_learnt(rows, false) / 10
    } else {
        1000
    }) + 10 * (reduction_count as nat)
}

/// How many unsatisfied learnt rows a reduction removes besides the
/// satisfied rows: as many as these fall short of the quota, or all of them.
pub open spec fn extra_removals<E>(
    rows: Seq<(RowId, CardinalityRow)>,
    reduction_count: usize,
    trail: Seq<AssertionInfo<E>>,
) -> nat {
    let short = if satisfied_ids(rows, trail).len() < removal_quota(rows) {
        (removal_quota(rows) - satisfied_ids(rows, trail).len()) as nat
    } else {
        0nat
    };
    if short < removal_candidates(rows, reduction_count, trail).len() {
        short
    } else {
        removal_candidates(rows, reduction_count, trail).len()
    }
}

/// `chosen` names `count` of the candidates, each idle at least as long as
/// every candidate not chosen (which of equally idle ones is left open).
pub open spec fn longest_idle(candidates: Seq<(usize, RowId)>, chosen: Seq<RowId>, count: nat) -> bool {
    exists|order: Seq<(usize, RowId)>|
        #[trigger] order.to_multiset() == candidates.to_multiset() && order.len() == candidates.len() && count
            <= order.len() && chosen == order.take(count as int).map_values(|c: (usize, RowId)| c.1) && (forall|
            i: int,
            j: int,
        | 0 <= i < count <= j < order.len() ==> (#[trigger] order[i]).0 >= (#[trigger] order[j]).0)
}

/// The terms of a row are its literals with coefficient 1, over the
/// propagator's variables, and sum to its number of literals.
proof fn lemma_unit_terms(row: CardinalityRow, n: nat)
    requires
        literals_within(row.spec_literals(), n),
        row.spec_literals().len() <= usize::MAX,
    ensures
        literals_in_range(row.spec_terms(), n),
        sum_coefficients(row.spec_terms()) <= u64::MAX,
{
    lemma_unit_sum(row.spec_literals());
}

/// Literals with coefficient 1 sum to their number.
proof fn lemma_unit_sum(literals: Seq<Literal>)
    ensures
        sum_coefficients(literals.map_values(|l: Literal| (l, 1u64))) == literals.len(),
    decreases literals.len(),
{
    if literals.len() > 0 {
        assert(literals.map_values(|l: Literal| (l, 1u64)).drop_last() =~= literals.drop_last().map_values(
            |l: Literal| (l, 1u64),
        ));
        lemma_unit_sum(literals.drop_last());
    }
}

/// Cardinality constraints watched by literal.
#[derive(Clone, Debug)]
pub struct CardinalityPropagator {
    rows: RowStorage<CardinalityRow>,
    columns: LiteralArray<Vec<(RowId, usize)>>,
    reduction_count: usize,
    unreflected_order: usize,
}

impl CardinalityPropagator {
    /// The rows, by slot.
    pub closed spec fn rows(&self) -> Seq<Option<CardinalityRow>> {
        self.rows.slots()
    }

    /// The free slots, in the order they are reused.
    pub closed spec fn vacant(&self) -> Seq<RowId> {
        self.rows.vacant()
    }

    /// The slot that the next row takes.
    pub closed spec fn next_row_id(&self) -> RowId {
        if self.rows.vacant().len() > 0 {
            self.rows.vacant()[0]
        } else {
            RowId::of(self.rows.slots().len() as usize)
        }
    }

    /// The watchers in the column of the literal with bits `b`: rows and
    /// positions.
    pub closed spec fn watchers(&self, b: int) -> Seq<(RowId, usize)> {
        self.columns@[b]@
    }

    /// The number of variables.
    pub closed spec fn spec_number_of_variables(&self) -> nat {
        self.columns@.len() / 2
    }

    /// The number of assertions already reflected.
    pub closed spec fn spec_unreflected_order(&self) -> usize {
        self.unreflected_order
    }

    /// The number of reductions of the learnt rows so far.
    pub closed spec fn spec_reduction_count(&self) -> usize {
        self.reduction_count
    }

    /// Watchers name rows that hold their literal at a watched position, no
    /// column lists a watcher twice, and the rows' literals are over the
    /// propagator's variables.
    pub closed spec fn wf(&self) -> bool {
        let slots = self.rows.slots();
        let n = self.columns@.len();
        &&& self.rows.wf()
        &&& n % 2 == 0
        &&& forall|i: int|
            0 <= i < slots.len() && (#[trigger] slots[i]) is Some ==> literals_within(
                slots[i].unwrap().spec_literals(),
                n / 2,
            )
        &&& forall|b: int| 0 <= b < n ==> (#[trigger] self.columns@[b])@.no_duplicates()
        &&& forall|b: int, k: int|
            0 <= b < n && 0 <= k < self.columns@[b]@.len() ==> watches(slots, #[trigger] self.columns@[b]@[k], b)
    }

    /// What adding a variable does: one more variable, whose two columns
    /// are empty; the rows and the other columns are kept.
    pub open spec fn variable_added(before: Self, after: Self) -> bool {
        &&& after.wf()
        &&& after.spec_number_of_variables() == before.spec_number_of_variables() + 1
        &&& after.rows() == before.rows()
        &&& after.vacant() == before.vacant()
        &&& forall|b: int|
            0 <= b < 2 * before.spec_number_of_variables() ==> #[trigger] after.watchers(b) == before.watchers(b)
        &&& after.watchers(2 * before.spec_number_of_variables() as int) == Seq::<(RowId, usize)>::empty()
        &&& after.watchers(2 * before.spec_number_of_variables() as int + 1) == Seq::<(RowId, usize)>::empty()
        &&& after.spec_unreflected_order() == before.spec_unreflected_order()
        &&& after.spec_reduction_count() == before.spec_reduction_count()
    }

    /// What adding a constraint with `terms` and lower bound `bound` does
    /// (see `add_constraint`): with lower bound 0 nothing; otherwise a new
    /// row in the next free slot, with the constraint's literals in
    /// placement order, watched when it has more literals than its lower
    /// bound, and what it implies right away appended to the implications.
    pub open spec fn constraint_added<E>(
        before: Self,
        after: Self,
        terms: Seq<(Literal, u64)>,
        bound: u64,
        is_learnt: bool,
        trail: Seq<AssertionInfo<E>>,
        events_before: Seq<Implication<CardinalityPropagatorExplainKey>>,
        events_after: Seq<Implication<CardinalityPropagatorExplainKey>>,
    ) -> bool {
        &&& after.wf()
        &&& after.spec_number_of_variables() == before.spec_number_of_variables()
        &&& after.spec_unreflected_order() == before.spec_unreflected_order()
        &&& after.spec_reduction_count() == before.spec_reduction_count()
        &&& bound == 0 ==> after.rows() == before.rows() && after.vacant() == before.vacant() && (forall|b: int|
            #[trigger] after.watchers(b) == before.watchers(b)) && events_after == events_before
        &&& bound > 0 ==> {
            let id = before.next_row_id();
            let i = id.spec_index() as int;
            let row = after.rows()[i].unwrap();
            let lower_bound = bound as int;
            &&& i <= before.rows().len()
            &&& after.rows() == if i < before.rows().len() {
                before.rows().update(i, Some(row))
            } else {
                before.rows().push(Some(row))
            }
            &&& after.vacant() == if before.vacant().len() > 0 {
                before.vacant().drop_first()
            } else {
                before.vacant()
            }
            &&& row.spec_literals().to_multiset() == term_literals(terms).to_multiset()
            &&& placement_sorted(trail, row.spec_literals())
            &&& row.spec_bound() == lower_bound
            &&& row.spec_is_learnt() == is_learnt
            &&& row.spec_last_involved() == before.spec_reduction_count()
            &&& events_after =~= events_before + initial_implications(
                row.spec_literals(),
                lower_bound,
                CardinalityPropagatorExplainKey::of(id),
                trail,
            )
            &&& forall|b: int|
                0 <= b < 2 * before.spec_number_of_variables() ==> #[trigger] after.watchers(b) == before.watchers(b)
                    + if row.spec_literals().len() > lower_bound {
                    added_watchers(row.spec_literals(), (lower_bound + 1) as nat, id, b)
                } else {
                    Seq::empty()
                }
        }
    }

    /// What propagation does (see `propagate`): every assertion is
    /// reflected; the rows keep their slots and are at most reordered; the
    /// implications are extended, every one of them sound; and every row
    /// that watches the negation of a newly reflected assertion has
    /// propagated.
    pub open spec fn propagation_done<E>(
        before: Self,
        after: Self,
        trail: Seq<AssertionInfo<E>>,
        events_before: Seq<Implication<CardinalityPropagatorExplainKey>>,
        events_after: Seq<Implication<CardinalityPropagatorExplainKey>>,
    ) -> bool {
        &&& after.wf()
        &&& after.spec_number_of_variables() == before.spec_number_of_variables()
        &&& after.vacant() == before.vacant()
        &&& after.spec_reduction_count() == before.spec_reduction_count()
        &&& after.spec_unreflected_order() == trail.len()
        &&& rows_reordered(before.rows(), after.rows(), trail)
        &&& events_before.len() <= events_after.len()
        &&& events_after.take(events_before.len() as int) =~= events_before
        &&& forall|m: int| 0 <= m < events_after.len() ==> sound_in(after.rows(), #[trigger] events_after[m], trail)
        &&& forall|o: int, m: int|
            before.spec_unreflected_order() <= o < trail.len() && 0 <= m < after.watchers(
                trail[o].predicate.spec_literal().negated().spec_bits() as int,
            ).len() ==> propagated(
                after.rows(),
                #[trigger] after.watchers(trail[o].predicate.spec_literal().negated().spec_bits() as int)[m],
                events_after,
                trail,
            )
    }

    /// What a backjump to `backjump_level` does (see `backjump`): the next
    /// propagation starts from the first assertion after that level;
    /// everything else is kept.
    pub open spec fn backjumped<E: Copy>(
        before: Self,
        after: Self,
        backjump_level: usize,
        state: AssertionStack<E>,
    ) -> bool {
        &&& after.wf()
        &&& after.rows() == before.rows()
        &&& after.vacant() == before.vacant()
        &&& after.spec_number_of_variables() == before.spec_number_of_variables()
        &&& forall|b: int| #[trigger] after.watchers(b) == before.watchers(b)
        &&& after.spec_reduction_count() == before.spec_reduction_count()
        &&& after.spec_unreflected_order() == if backjump_level < state.decisions().len() {
            state.decisions()[backjump_level as int] as int
        } else {
            state.trail().len() as int
        }
    }

    /// What receiving the keys of the constraints involved in a conflict
    /// does (see `receive_involved_constraints`): the rows behind `keys` are
    /// stamped with the current reduction count; nothing else changes.
    pub open spec fn involvement_received(before: Self, after: Self, keys: Seq<CardinalityPropagatorExplainKey>) -> bool {
        &&& after.wf()
        &&& after.rows().len() == before.rows().len()
        &&& after.vacant() == before.vacant()
        &&& after.spec_number_of_variables() == before.spec_number_of_variables()
        &&& forall|b: int| #[trigger] after.watchers(b) == before.watchers(b)
        &&& after.spec_reduction_count() == before.spec_reduction_count()
        &&& after.spec_unreflected_order() == before.spec_unreflected_order()
        &&& forall|i: int|
            0 <= i < after.rows().len() ==> (#[trigger] after.rows()[i]) is Some == before.rows()[i] is Some
        &&& forall|i: int|
            0 <= i < after.rows().len() && #[trigger] after.rows()[i] is Some ==> {
                let row = after.rows()[i].unwrap();
                let prior = before.rows()[i].unwrap();
                &&& row.spec_literals() == prior.spec_literals()
                &&& row.spec_bound() == prior.spec_bound()
                &&& row.spec_is_learnt() == prior.spec_is_learnt()
                &&& row.spec_last_involved() == if exists|k: int|
                    0 <= k < keys.len() && (#[trigger] keys[k]).spec_row_id().spec_index() == i {
                    before.spec_reduction_count()
                } else {
                    prior.spec_last_involved()
                }
            }
    }

    /// The slot that the next row takes is past the last slot or free.
    pub proof fn lemma_next_row_free(&self)
        requires
            self.wf(),
        ensures
            self.next_row_id().spec_index() <= self.rows().len(),
            self.next_row_id().spec_index() < self.rows().len() ==> self.rows()[self.next_row_id().spec_index() as int] is None,
    {
        broadcast use RowId::lemma_of;

        self.rows.lemma_slots_len();
        if self.rows.vacant().len() > 0 {
            assert(self.rows.vacant()[0].spec_index() < self.rows.slots().len());
        }
    }

    /// The literals of every row are over the propagator's variables.
    pub proof fn lemma_row_within(&self, i: int)
        requires
            self.wf(),
            0 <= i < self.rows().len(),
            self.rows()[i] is Some,
        ensures
            literals_within(self.rows()[i].unwrap().spec_literals(), self.spec_number_of_variables()),
    {
    }

    /// A literal over the first `n` variables has bits below `2 * n`.
    proof fn lemma_bits_within(literal: Literal, n: nat)
        requires
            literal.spec_index() < n,
        ensures
            literal.spec_bits() < 2 * n,
            literal.negated().spec_bits() < 2 * n,
    {
        broadcast use Literal::lemma_negated;

        assert(literal.negated().spec_index() == literal.spec_index());
    }

    /// What reducing the learnt rows over `trail` does (see
    /// `reduce_learnt_constraints`): with `learnt` learnt rows and `others`
    /// other ones, to remove is `max(1000, learnt / 10)` and to keep at
    /// least `max(1000, others / 10) + 10 * reduction_count`; when the
    /// learnt rows are fewer than both together nothing changes. Otherwise
    /// every row the assertions satisfy is removed and, when those are
    /// fewer than to remove, as many more of the unsatisfied learnt rows
    /// as are missing (or all of them), those idle longest (see
    /// `longest_idle`); the columns drop their watchers; and the reduction
    /// count goes up by one.
    pub open spec fn learnt_reduced<E>(before: Self, after: Self, trail: Seq<AssertionInfo<E>>) -> bool {
        let rows = occupied_rows(before.rows());
        let count = before.spec_reduction_count();
        if count_learnt(rows, true) < removal_quota(rows) + retention_quota(rows, count) {
            after == before
        } else {
            exists|chosen: Seq<RowId>|
                #[trigger] longest_idle(removal_candidates(rows, count, trail), chosen, extra_removals(rows, count, trail))
                    && Self::rows_removed(before, after, satisfied_ids(rows, trail) + chosen)
        }
    }

    /// A reduction keeps the variables and the reflected order.
    pub proof fn lemma_reduced_keeps<E>(before: Self, after: Self, trail: Seq<AssertionInfo<E>>)
        requires
            Self::learnt_reduced(before, after, trail),
        ensures
            after.spec_number_of_variables() == before.spec_number_of_variables(),
            after.spec_unreflected_order() == before.spec_unreflected_order(),
    {
        let rows = occupied_rows(before.rows());
        let count = before.spec_reduction_count();
        if !(count_learnt(rows, true) < removal_quota(rows) + retention_quota(rows, count)) {
            let chosen = choose|chosen: Seq<RowId>|
                #[trigger] longest_idle(removal_candidates(rows, count, trail), chosen, extra_removals(rows, count, trail))
                    && Self::rows_removed(before, after, satisfied_ids(rows, trail) + chosen);
        }
    }

    /// The rows of `ids` were removed from `before`, giving `after`, their
    /// slots freed and the watchers on them dropped (see
    /// `remove_rows`), and the reduction count went up by one.
    pub open spec fn rows_removed(before: Self, after: Self, ids: Seq<RowId>) -> bool {
        &&& after.wf()
        &&& after.spec_number_of_variables() == before.spec_number_of_variables()
        &&& after.spec_unreflected_order() == before.spec_unreflected_order()
        &&& after.spec_reduction_count() == before.spec_reduction_count() + 1
        &&& after.rows() == emptied(before.rows(), ids)
        &&& after.vacant() == before.vacant() + freed(before.rows(), ids)
        &&& forall|b: int|
            0 <= b < 2 * before.spec_number_of_variables() ==> #[trigger] after.watchers(b) == watchers_kept(
                before.watchers(b),
                ids,
            )
    }

    /// The number of reductions of the learnt rows so far.
    pub fn reduction_count(&self) -> (count: usize)
        ensures
            count == self.spec_reduction_count(),
    {
        self.reduction_count
    }

    /// A propagator with no variable and no row.
    pub fn new() -> (propagator: Self)
        ensures
            propagator.wf(),
            propagator.rows() == Seq::<Option<CardinalityRow>>::empty(),
            propagator.vacant() == Seq::<RowId>::empty(),
            propagator.spec_number_of_variables() == 0,
            propagator.spec_unreflected_order() == 0,
            propagator.spec_reduction_count() == 0,
    {
        Self { rows: RowStorage::new(), columns: LiteralArray::new(), reduction_count: 0, unreflected_order: 0 }
    }

    /// Adds a variable, with no watcher.
    pub fn add_variable(&mut self)
        requires
            old(self).wf(),
        ensures
            Self::variable_added(*old(self), *final(self)),
    {
        self.columns.push(Vec::new(), Vec::new());
        proof {
            let n = old(self).columns@.len();
            assert forall|b: int| 0 <= b < self.columns@.len() implies (#[trigger] self.columns@[b])@.no_duplicates() by {
                if b < n {
                    assert(self.columns@[b] == old(self).columns@[b]);
                }
            }
            assert forall|b: int, k: int|
                0 <= b < self.columns@.len() && 0 <= k < self.columns@[b]@.len() implies watches(
                self.rows.slots(),
                #[trigger] self.columns@[b]@[k],
                b,
            ) by {
                assert(b < n);
                assert(self.columns@[b] == old(self).columns@[b]);
            }
            assert forall|i: int|
                0 <= i < self.rows.slots().len() && (#[trigger] self.rows.slots()[i]) is Some implies literals_within(
                self.rows.slots()[i].unwrap().spec_literals(),
                self.columns@.len() / 2,
            ) by {
                assert(literals_within(self.rows.slots()[i].unwrap().spec_literals(), n / 2));
            }
        }
    }

    /// Whether a row stands behind `explain_key`.
    pub fn holds_row(&self, explain_key: CardinalityPropagatorExplainKey) -> (holds: bool)
        ensures
            holds == (explain_key.spec_row_id().spec_index() < self.rows().len()
                && self.rows()[explain_key.spec_row_id().spec_index() as int] is Some),
    {
        self.rows.holds(explain_key.row_id())
    }

    /// The row behind `explain_key`.
    pub fn explain(&self, explain_key: CardinalityPropagatorExplainKey) -> (row: &CardinalityRow)
        requires
            explain_key.spec_row_id().spec_index() < self.rows().len(),
            self.rows()[explain_key.spec_row_id().spec_index() as int] is Some,
        ensures
            Some(*row) == self.rows()[explain_key.spec_row_id().spec_index() as int],
    {
        self.rows.get(explain_key.row_id()).unwrap()
    }

    /// Forgets the assertions above `backjump_level`: the next propagation
    /// starts from the first assertion after that level.
    pub fn backjump<E: Copy>(&mut self, backjump_level: usize, state: &AssertionStack<E>)
        requires
            old(self).wf(),
            backjump_level <= state.decisions().len(),
        ensures
            Self::backjumped(*old(self), *final(self), backjump_level, *state),
    {
        let range = state.order_range(backjump_level);
        self.unreflected_order = range.end;
    }

    /// Removes the rows of `row_ids` and every watcher of them; the freed
    /// slots are reused in the order of `row_ids`.
    pub fn remove_rows(&mut self, row_ids: &[RowId])
        requires
            old(self).wf(),
            forall|k: int| 0 <= k < row_ids@.len() ==> (#[trigger] row_ids@[k]).spec_index() < old(self).rows().len(),
        ensures
            final(self).wf(),
            final(self).spec_number_of_variables() == old(self).spec_number_of_variables(),
            final(self).spec_unreflected_order() == old(self).spec_unreflected_order(),
            final(self).spec_reduction_count() == old(self).spec_reduction_count(),
            final(self).rows() == emptied(old(self).rows(), row_ids@),
            final(self).vacant() == old(self).vacant() + freed(old(self).rows(), row_ids@),
            forall|b: int|
                0 <= b < 2 * old(self).spec_number_of_variables() ==> #[trigger] final(self).watchers(b)
                    == watchers_kept(old(self).watchers(b), row_ids@),
    {
        proof {
            self.rows.lemma_slots_len();
        }
        let removed = removal_set(row_ids);
        self.rows.deallocate_all(row_ids);
        let ghost slots0 = old(self).rows.slots();
        let ghost slots = self.rows.slots();
        let ghost columns0 = old(self).columns@;
        let n = self.columns.len();
        let mut b: usize = 0;
        while b < n
            invariant
                b <= n,
                n == columns0.len(),
                self.columns@.len() == n,
                self.rows.slots() == slots,
                self.rows.wf(),
                self.rows.vacant() == old(self).rows.vacant() + freed(slots0, row_ids@),
                self.unreflected_order == old(self).unreflected_order,
                self.reduction_count == old(self).reduction_count,
                forall|i: usize| #[trigger] removed@.contains(i) <==> is_removed(row_ids@, i as int),
                forall|c: int| 0 <= c < b ==> (#[trigger] self.columns@[c])@ == watchers_kept(columns0[c]@, row_ids@),
                forall|c: int| b <= c < n ==> #[trigger] self.columns@[c] == columns0[c],
            decreases n - b,
        {
            let literal = Literal::from_bits(b);
            let kept = keep_watchers(self.columns.get(literal), &removed, Ghost(row_ids@));
            self.columns.set(literal, kept);
            b = b + 1;
        }
        proof {
            assert forall|i: int|
                0 <= i < slots.len() && (#[trigger] slots[i]) is Some implies literals_within(
                slots[i].unwrap().spec_literals(),
                self.columns@.len() / 2,
            ) by {
                assert(slots0[i] is Some);
            }
            assert forall|c: int| 0 <= c < n implies (#[trigger] self.columns@[c])@.no_duplicates() by {
                lemma_watchers_kept(columns0[c]@, row_ids@);
            }
            assert forall|c: int, k: int|
                0 <= c < n && 0 <= k < self.columns@[c]@.len() implies watches(
                slots,
                #[trigger] self.columns@[c]@[k],
                c,
            ) by {
                let w = self.columns@[c]@[k];
                lemma_watchers_kept(columns0[c]@, row_ids@);
                assert(self.columns@[c]@.contains(w));
                let m = choose|m: int| 0 <= m < columns0[c]@.len() && columns0[c]@[m] == w;
                assert(watches(slots0, columns0[c]@[m], c));
            }
        }
    }

    /// Marks the rows behind `involved_constraints` as taking part in a
    /// conflict now.
    pub fn receive_involved_constraints(&mut self, involved_constraints: &[CardinalityPropagatorExplainKey])
        requires
            old(self).wf(),
            forall|k: int|
                0 <= k < involved_constraints@.len() ==> (#[trigger] involved_constraints@[k]).spec_row_id().spec_index()
                    < old(self).rows().len() && old(self).rows()[involved_constraints@[k].spec_row_id().spec_index() as int] is Some,
        ensures
            Self::involvement_received(*old(self), *final(self), involved_constraints@),
    {
        let mut k: usize = 0;
        while k < involved_constraints.len()
            invariant
                self.wf(),
                k <= involved_constraints@.len(),
                self.rows().len() == old(self).rows().len(),
                self.vacant() == old(self).vacant(),
                self.columns == old(self).columns,
                self.reduction_count == old(self).reduction_count,
                self.unreflected_order == old(self).unreflected_order,
                forall|j: int|
                    0 <= j < involved_constraints@.len() ==> (#[trigger] involved_constraints@[j]).spec_row_id().spec_index()
                        < old(self).rows().len() && old(self).rows()[involved_constraints@[j].spec_row_id().spec_index() as int] is Some,
                forall|i: int| 0 <= i < self.rows().len() ==> (#[trigger] self.rows()[i]) is Some == old(self).rows()[i] is Some,
                forall|i: int|
                    0 <= i < self.rows().len() && #[trigger] self.rows()[i] is Some ==> {
                        let row = self.rows()[i].unwrap();
                        let before = old(self).rows()[i].unwrap();
                        &&& row.spec_literals() == before.spec_literals()
                        &&& row.spec_bound() == before.spec_bound()
                        &&& row.spec_is_learnt() == before.spec_is_learnt()
                        &&& row.spec_last_involved() == if exists|j: int|
                            0 <= j < k && (#[trigger] involved_constraints@[j]).spec_row_id().spec_index() == i {
                            old(self).spec_reduction_count()
                        } else {
                            before.spec_last_involved()
                        }
                    },
            decreases involved_constraints@.len() - k,
        {
            let row_id = involved_constraints[k].row_id();
            let ghost slots0 = self.rows.slots();
            let ghost columns0 = self.columns@;
            let timestamp = self.reduction_count;
            match self.rows.get_mut(row_id) {
                Some(row) => {
                    row.last_involved_timestamp = timestamp;
                },
                None => {},
            }
            proof {
                let r = row_id.spec_index() as int;
                assert forall|i: int|
                    0 <= i < self.rows().len() && #[trigger] self.rows()[i] is Some implies {
                        let row = self.rows()[i].unwrap();
                        let before = old(self).rows()[i].unwrap();
                        &&& row.spec_literals() == before.spec_literals()
                        &&& row.spec_bound() == before.spec_bound()
                        &&& row.spec_is_learnt() == before.spec_is_learnt()
                        &&& row.spec_last_involved() == if exists|j: int|
                            0 <= j < k + 1 && (#[trigger] involved_constraints@[j]).spec_row_id().spec_index() == i {
                            old(self).spec_reduction_count()
                        } else {
                            before.spec_last_involved()
                        }
                    } by {
                    if i == r {
                        assert(involved_constraints@[k as int].spec_row_id().spec_index() == i);
                    } else {
                        assert(self.rows()[i] == slots0[i]);
                        if exists|j: int| 0 <= j < k + 1 && (#[trigger] involved_constraints@[j]).spec_row_id().spec_index() == i {
                            let j = choose|j: int| 0 <= j < k + 1 && (#[trigger] involved_constraints@[j]).spec_row_id().spec_index() == i;
                            assert(j < k);
                        }
                    }
                }
                assert forall|b: int, m: int|
                    0 <= b < self.columns@.len() && 0 <= m < self.columns@[b]@.len() implies watches(
                    self.rows.slots(),
                    #[trigger] self.columns@[b]@[m],
                    b,
                ) by {
                    assert(watches(slots0, columns0[b]@[m], b));
                }
                assert forall|i: int|
                    0 <= i < self.rows.slots().len() && (#[trigger] self.rows.slots()[i]) is Some implies literals_within(
                    self.rows.slots()[i].unwrap().spec_literals(),
                    self.columns@.len() / 2,
                ) by {
                    assert(slots0[i] is Some);
                }
            }
            k = k + 1;
        }
    }

    /// Adds the constraint `at least lower_bound of its literals hold`, whose
    /// coefficients are all 1, as a new row: its literals in placement order
    /// (see `placement_sorted`), watched when it has more literals than its
    /// lower bound; appends to `implications` what the row finds right away
    /// (see `initial_implications`). A constraint with lower bound 0 always
    /// holds and is not added.
    #[verifier::rlimit(40)]
    #[verifier::spinoff_prover]
    pub fn add_constraint<C: Constraint, E: Copy>(
        &mut self,
        constraint: &C,
        is_learnt: bool,
        state: &AssertionStack<E>,
        implications: &mut Vec<Implication<CardinalityPropagatorExplainKey>>,
    )
        requires
            old(self).wf(),
            state.wf(),
            old(self).spec_unreflected_order() == state.trail().len(),
            old(self).spec_number_of_variables() <= state.spec_number_of_variables(),
            literals_in_range(constraint.spec_terms(), old(self).spec_number_of_variables()),
            forall|k: int| 0 <= k < constraint.spec_terms().len() ==> (#[trigger] constraint.spec_terms()[k]).1 == 1,
            constraint.spec_lower_bound() <= usize::MAX,
        ensures
            Self::constraint_added(
                *old(self),
                *final(self),
                constraint.spec_terms(),
                constraint.spec_lower_bound(),
                is_learnt,
                state.trail(),
                old(implications)@,
                final(implications)@,
            ),
    {
        let lower_bound = constraint.lower_bound();
        if lower_bound == 0 {
            return;
        }
        let terms = constraint.iter_terms();
        let unsorted = literals_of(&terms);
        proof {
            assert forall|k: int| 0 <= k < unsorted@.len() implies (#[trigger] unsorted@[k]).spec_index()
                < state.spec_number_of_variables() by {
                assert(unsorted@[k] == terms@[k].0);
            }
        }
        let literals = sort_for_watching(&unsorted, state);
        let bound = lower_bound as usize;
        let ghost id = self.next_row_id();
        let ghost slots0 = self.rows.slots();
        let ghost columns0 = self.columns@;
        let ghost sorted = literals@;
        proof {
            assert forall|k: int| 0 <= k < sorted.len() implies (#[trigger] sorted[k]).spec_index()
                < self.spec_number_of_variables() by {
                vstd::seq_lib::to_multiset_contains(sorted, sorted[k]);
                vstd::seq_lib::to_multiset_contains(unsorted@, sorted[k]);
                assert(sorted.contains(sorted[k]));
                assert(unsorted@.contains(sorted[k]));
                let m = choose|m: int| 0 <= m < unsorted@.len() && unsorted@[m] == sorted[k];
                assert(unsorted@[m] == terms@[m].0);
            }
        }
        let row_id = self.rows.allocate(
            CardinalityRow {
                literals,
                lower_bound: bound,
                is_learnt,
                last_involved_timestamp: self.reduction_count,
            },
        );
        proof {
            broadcast use {RowId::lemma_of, RowId::lemma_index};

            assert(row_id == id);
        }
        let key = CardinalityPropagatorExplainKey::new(row_id);
        let ghost rows1 = self.rows;
        proof {
            if old(self).rows.vacant().len() > 0 {
                assert(old(self).rows.vacant()[0].spec_index() < slots0.len());
            }
        }
        let row = self.rows.get(row_id).unwrap();
        let length = row.literals.len();
        let ghost trail = state.trail();
        let ghost r = row_id.spec_index() as int;
        proof {
            assert(row.literals@ == sorted);
            // No watcher names the new row.
            assert forall|b: int, k: int| 0 <= b < columns0.len() && 0 <= k < columns0[b]@.len() implies (
            #[trigger] columns0[b]@[k]).0 != row_id by {
                assert(watches(slots0, columns0[b]@[k], b));
            }
        }
        if length < bound {
            implications.push(Implication::Conflict(key));
            proof {
                assert(initial_implications(sorted, bound as int, key, trail) == seq![Implication::Conflict(key)]);
            }
        } else if length == bound {
            let mut q: usize = 0;
            while q < length
                invariant
                    state.wf(),
                    trail == state.trail(),
                    row.literals@ == sorted,
                    length == sorted.len(),
                    literals_within(sorted, self.spec_number_of_variables()),
                    self.spec_number_of_variables() <= state.spec_number_of_variables(),
                    q <= length,
                    implications@ == old(implications)@ + forced_implications(sorted.take(q as int), key, trail),
                decreases length - q,
            {
                let literal = row.literals[q];
                let literal_state = state.literal_state(literal);
                proof {
                    assert(sorted.take(q as int + 1).drop_last() =~= sorted.take(q as int));
                    assert(sorted.take(q as int + 1).last() == literal);
                    assert(literal.spec_index() < state.spec_number_of_variables());
                }
                if literal_state.is_false() {
                    implications.push(Implication::Conflict(key));
                } else if !literal_state.is_assigned() {
                    implications.push(Implication::Literal(literal, key, 0, 1));
                }
                q = q + 1;
                proof {
                    assert(implications@ =~= old(implications)@ + forced_implications(sorted.take(q as int), key, trail));
                }
            }
            proof {
                assert(sorted.take(length as int) =~= sorted);
            }
        } else {
            let watching = bound + 1;
            let mut q: usize = 0;
            while q < watching
                invariant
                    row.literals@ == sorted,
                    length == sorted.len(),
                    bound < length,
                    watching == bound + 1,
                    q <= watching,
                    self.rows == rows1,
                    self.reduction_count == old(self).reduction_count,
                    self.unreflected_order == old(self).unreflected_order,
                    literals_within(sorted, self.spec_number_of_variables()),
                    self.columns@.len() == columns0.len(),
                    self.columns@.len() == 2 * self.spec_number_of_variables(),
                    forall|b: int|
                        0 <= b < columns0.len() ==> #[trigger] self.columns@[b]@ == columns0[b]@ + added_watchers(
                            sorted,
                            q as nat,
                            row_id,
                            b,
                        ),
                decreases watching - q,
            {
                let literal = row.literals[q];
                proof {
                    Self::lemma_bits_within(literal, self.spec_number_of_variables());
                }
                let column = self.columns.get_mut(literal);
                column.push((row_id, q));
                q = q + 1;
                proof {
                    assert forall|b: int| 0 <= b < columns0.len() implies #[trigger] self.columns@[b]@ == columns0[b]@
                        + added_watchers(sorted, q as nat, row_id, b) by {
                        assert(columns0[b]@ + added_watchers(sorted, q as nat, row_id, b) =~= if b == literal.spec_bits() {
                            (columns0[b]@ + added_watchers(sorted, (q - 1) as nat, row_id, b)).push((row_id, (q - 1) as usize))
                        } else {
                            columns0[b]@ + added_watchers(sorted, (q - 1) as nat, row_id, b)
                        });
                    }
                }
            }
            let last = row.literals[bound];
            proof {
                assert(last.spec_index() < state.spec_number_of_variables());
            }
            if state.literal_state(last).is_false() {
                let before_last = row.literals[bound - 1];
                proof {
                    assert(before_last.spec_index() < state.spec_number_of_variables());
                }
                if length == 1 || state.literal_state(before_last).is_false() {
                    implications.push(Implication::Conflict(key));
                }
                let ghost head = implications@;
                let mut q: usize = 0;
                while q < bound
                    invariant
                        state.wf(),
                        trail == state.trail(),
                        row.literals@ == sorted,
                        bound < sorted.len(),
                        literals_within(sorted, self.spec_number_of_variables()),
                        self.spec_number_of_variables() <= state.spec_number_of_variables(),
                        q <= bound,
                        implications@ == head + unassigned_implications(sorted.take(q as int), key, trail),
                    decreases bound - q,
                {
                    let literal = row.literals[q];
                    proof {
                        assert(sorted.take(q as int + 1).drop_last() =~= sorted.take(q as int));
                        assert(sorted.take(q as int + 1).last() == literal);
                        assert(literal.spec_index() < state.spec_number_of_variables());
                    }
                    if !state.literal_state(literal).is_assigned() {
                        implications.push(Implication::Literal(literal, key, 0, 1));
                    }
                    q = q + 1;
                    proof {
                        assert(implications@ =~= head + unassigned_implications(sorted.take(q as int), key, trail));
                    }
                }
                proof {
                    assert(implications@ =~= old(implications)@ + initial_implications(sorted, bound as int, key, trail));
                }
            } else {
                proof {
                    assert(implications@ =~= old(implications)@ + initial_implications(sorted, bound as int, key, trail));
                }
            }
        }
        proof {
            let slots = self.rows.slots();
            let n = self.columns@.len();
            assert(slots == if r < slots0.len() {
                slots0.update(r, slots[r])
            } else {
                slots0.push(slots[r])
            });
            assert forall|i: int| 0 <= i < slots.len() && (#[trigger] slots[i]) is Some implies literals_within(
                slots[i].unwrap().spec_literals(),
                n / 2,
            ) by {
                if i != r {
                    assert(slots[i] == slots0[i]);
                }
            }
            assert forall|b: int| 0 <= b < n implies #[trigger] self.watchers(b) == old(self).watchers(b) + if sorted.len() > bound {
                added_watchers(sorted, (bound + 1) as nat, row_id, b)
            } else {
                Seq::empty()
            } by {
                if sorted.len() <= bound {
                    assert(self.watchers(b) =~= old(self).watchers(b) + Seq::<(RowId, usize)>::empty());
                }
            }
            assert forall|b: int| 0 <= b < n implies (#[trigger] self.columns@[b])@.no_duplicates() by {
                let all = self.columns@[b]@;
                let old_part = columns0[b]@;
                if sorted.len() > bound {
                    lemma_added_watchers(sorted, (bound + 1) as nat, row_id, b);
                    let added = added_watchers(sorted, (bound + 1) as nat, row_id, b);
                    assert(all == old_part + added);
                    assert forall|x: int, y: int| 0 <= x < all.len() && 0 <= y < all.len() && x != y implies all[x] != all[y] by {
                        if x < old_part.len() && y < old_part.len() {
                        } else if x < old_part.len() {
                            assert(all[y] == added[y - old_part.len()]);
                        } else if y < old_part.len() {
                            assert(all[x] == added[x - old_part.len()]);
                        } else {
                            assert(all[x] == added[x - old_part.len()]);
                            assert(all[y] == added[y - old_part.len()]);
                            if x < y {
                                assert(added[x - old_part.len()].1 < added[y - old_part.len()].1);
                            } else {
                                assert(added[y - old_part.len()].1 < added[x - old_part.len()].1);
                            }
                        }
                    }
                } else {
                    assert(all == old_part);
                }
            }
            assert forall|b: int, k: int| 0 <= b < n && 0 <= k < self.columns@[b]@.len() implies watches(
                slots,
                #[trigger] self.columns@[b]@[k],
                b,
            ) by {
                let old_part = columns0[b]@;
                if k < old_part.len() {
                    let w = old_part[k];
                    assert(self.columns@[b]@[k] == w);
                    assert(watches(slots0, w, b));
                    assert(w.0 != row_id);
                    assert(w.0.spec_index() != r) by {
                        broadcast use RowId::lemma_index;

                    }
                    assert(slots[w.0.spec_index() as int] == slots0[w.0.spec_index() as int]);
                } else {
                    lemma_added_watchers(sorted, (bound + 1) as nat, row_id, b);
                    let added = added_watchers(sorted, (bound + 1) as nat, row_id, b);
                    assert(self.columns@[b]@[k] == added[k - old_part.len()]);
                }
            }
            lemma_consistent(*state);
        }
    }

    /// Reflects the assertion of `literal`: each row watching its negation
    /// moves that watch to the first literal after its watched ones that is
    /// not false; a row with none left implies its unassigned watched
    /// literals, appended to `implications`. Afterwards every row still
    /// watching the negation has propagated (see `propagated`).
    fn reflect_literal_assertion<E: Copy>(
        &mut self,
        literal: Literal,
        state: &AssertionStack<E>,
        implications: &mut Vec<Implication<CardinalityPropagatorExplainKey>>,
    )
        requires
            old(self).wf(),
            state.wf(),
            literal.spec_index() < old(self).spec_number_of_variables(),
            old(self).spec_number_of_variables() <= state.spec_number_of_variables(),
            is_true(state.trail(), literal),
            forall|m: int|
                0 <= m < old(implications)@.len() ==> sound_in(old(self).rows(), #[trigger] old(implications)@[m], state.trail()),
        ensures
            final(self).wf(),
            final(self).spec_number_of_variables() == old(self).spec_number_of_variables(),
            final(self).vacant() == old(self).vacant(),
            final(self).spec_unreflected_order() == old(self).spec_unreflected_order(),
            final(self).spec_reduction_count() == old(self).spec_reduction_count(),
            rows_reordered(old(self).rows(), final(self).rows(), state.trail()),
            old(implications)@.len() <= final(implications)@.len(),
            final(implications)@.take(old(implications)@.len() as int) == old(implications)@,
            forall|m: int|
                0 <= m < final(implications)@.len() ==> sound_in(final(self).rows(), #[trigger] final(implications)@[m], state.trail()),
            forall|m: int|
                0 <= m < final(self).watchers(literal.negated().spec_bits() as int).len() ==> propagated(
                    final(self).rows(),
                    #[trigger] final(self).watchers(literal.negated().spec_bits() as int)[m],
                    final(implications)@,
                    state.trail(),
                ),
            forall|b: int|
                0 <= b < 2 * old(self).spec_number_of_variables() && b != literal.negated().spec_bits() && is_false(
                    state.trail(),
                    Literal::from_bits_spec(b as usize),
                ) ==> #[trigger] final(self).watchers(b) == old(self).watchers(b),
    {
        broadcast use Literal::lemma_negated;
        broadcast use Literal::lemma_bits_determine;
        broadcast use Literal::lemma_from_bits_spec;
        broadcast use {RowId::lemma_of, RowId::lemma_index};
        broadcast use CardinalityPropagatorExplainKey::lemma_of;

        let ghost trail = state.trail();
        let negation = literal.negation();
        proof {
            Self::lemma_bits_within(literal, self.spec_number_of_variables());
            assert(is_false(trail, negation));
        }
        let ghost nb = negation.spec_bits() as int;
        let ghost w0 = self.columns@[nb]@;
        let ghost n = self.columns@.len();
        let mut k: usize = self.columns.get(negation).len();
        proof {
            assert(self.columns@[nb]@.take(k as int) =~= w0.take(k as int));
        }
        while k > 0
            invariant
                self.wf(),
                state.wf(),
                trail == state.trail(),
                self.spec_number_of_variables() <= state.spec_number_of_variables(),
                self.columns@.len() == n,
                n == 2 * old(self).spec_number_of_variables(),
                0 <= nb < n,
                nb == negation.spec_bits(),
                negation == literal.negated(),
                is_false(trail, negation),
                k <= self.columns@[nb]@.len(),
                k <= w0.len(),
                self.columns@[nb]@.take(k as int) == w0.take(k as int),
                self.rows.vacant() == old(self).rows.vacant(),
                self.reduction_count == old(self).reduction_count,
                self.unreflected_order == old(self).unreflected_order,
                rows_reordered(old(self).rows(), self.rows(), trail),
                old(implications)@.len() <= implications@.len(),
                implications@.take(old(implications)@.len() as int) == old(implications)@,
                forall|m: int| 0 <= m < implications@.len() ==> sound_in(self.rows(), #[trigger] implications@[m], trail),
                forall|m: int|
                    k <= m < self.columns@[nb]@.len() ==> propagated(self.rows(), #[trigger] self.columns@[nb]@[m], implications@, trail),
                forall|b: int|
                    0 <= b < n && b != nb && is_false(trail, Literal::from_bits_spec(b as usize)) ==> #[trigger] self.columns@[b]
                        == old(self).columns@[b],
            decreases k,
        {
            k = k - 1;
            let (row_id, position) = self.columns.get(negation)[k];
            let ghost watcher = (row_id, position);
            let ghost i = row_id.spec_index() as int;
            let ghost slots0 = self.rows.slots();
            let ghost columns0 = self.columns@;
            let ghost implications0 = implications@;
            proof {
                assert(watches(slots0, columns0[nb]@[k as int], nb));
            }
            proof {
                assert(watcher == columns0[nb]@[k as int]);
            }
            let row = self.rows.get(row_id).unwrap();
            let ghost literals0 = row.literals@;
            proof {
                assert(slots0[i] == Some(*row));
                assert(row.lower_bound < row.literals@.len());
            }
            let length = row.literals.len();
            proof {
                assert(watches(slots0, watcher, nb));
                assert(slots0[i].unwrap() == *row);
                assert(row.lower_bound == slots0[i].unwrap().spec_bound());
                assert(literals0 == slots0[i].unwrap().spec_literals());
                assert(literals0[position as int].spec_bits() == negation.spec_bits());
                Literal::lemma_bits_determine(literals0[position as int], negation);
            }
            let watching = row.lower_bound + 1;
            proof {
                assert(literals0[position as int] == negation);
                assert(literals_within(literals0, self.spec_number_of_variables()));
            }
            let mut p: usize = watching;
            while p < length && state.literal_state(row.literals[p]).is_false()
                invariant
                    state.wf(),
                    trail == state.trail(),
                    row.literals@ == literals0,
                    length == literals0.len(),
                    watching <= p <= length,
                    literals_within(literals0, state.spec_number_of_variables()),
                    forall|q: int| watching <= q < p ==> is_false(trail, #[trigger] literals0[q]),
                decreases length - p,
            {
                p = p + 1;
            }
            if p < length {
                let replacement = row.literals[p];
                proof {
                    assert(!is_false(trail, replacement));
                    assert(replacement != negation);
                    Literal::lemma_bits_determine(replacement, negation);
                    Self::lemma_bits_within(replacement, self.spec_number_of_variables());
                    lemma_swap(literals0, position as int, p as int, trail);
                }
                match self.rows.get_mut(row_id) {
                    Some(r) => {
                        r.literals.set(position, replacement);
                        r.literals.set(p, negation);
                    },
                    None => {},
                }
                let ghost swapped = literals0.update(position as int, literals0[p as int]).update(p as int, literals0[position as int]);
                let ghost column1 = self.columns@[nb]@;
                self.columns.get_mut(negation).swap_remove(k);
                let ghost column2 = self.columns@[nb]@;
                self.columns.get_mut(replacement).push((row_id, position));
                proof {
                    let slots = self.rows.slots();
                    let rb = replacement.spec_bits() as int;
                    assert(slots[i].unwrap().spec_literals() == swapped);
                    assert(slots == slots0.update(i, slots[i]));
                    assert(column2 == column1.update(k as int, column1.last()).drop_last());
                    assert(self.columns@[nb]@ == column2);
                    assert(self.columns@[rb]@ == columns0[rb]@.push(watcher));
                    assert(!suffix_false(slots0[i].unwrap(), trail));
                    // The rows are reordered.
                    assert(rows_reordered(slots0, slots, trail)) by {
                        assert forall|j: int| 0 <= j < slots0.len() && #[trigger] slots[j] is Some implies {
                            let x = slots0[j].unwrap();
                            let y = slots[j].unwrap();
                            &&& y.spec_literals().len() == x.spec_literals().len()
                            &&& y.spec_literals().to_multiset() == x.spec_literals().to_multiset()
                            &&& count_not_false(y.spec_literals(), trail) == count_not_false(x.spec_literals(), trail)
                            &&& y.spec_bound() == x.spec_bound()
                            &&& y.spec_is_learnt() == x.spec_is_learnt()
                            &&& y.spec_last_involved() == x.spec_last_involved()
                            &&& (suffix_false(x, trail) ==> y == x)
                        } by {
                            if j != i {
                                assert(slots[j] == slots0[j]);
                            }
                        }
                    }
                    lemma_rows_reordered_trans(old(self).rows(), slots0, slots, trail);
                    assert forall|m: int| 0 <= m < implications@.len() implies sound_in(slots, #[trigger] implications@[m], trail) by {
                        lemma_sound_reordered(slots0, slots, implications@[m], trail);
                    }
                    // Rows of propagated watchers are untouched.
                    assert forall|m: int| k <= m < self.columns@[nb]@.len() implies propagated(
                        slots,
                        #[trigger] self.columns@[nb]@[m],
                        implications@,
                        trail,
                    ) by {
                        let w = self.columns@[nb]@[m];
                        let m0 = if m == k { column1.len() - 1 } else { m };
                        assert(w == column1[m0]);
                        assert(m0 > k);
                        assert(propagated(slots0, column1[m0], implications@, trail));
                        if w.0.spec_index() == i {
                            assert(suffix_false(slots0[i].unwrap(), trail));
                        }
                        assert(slots[w.0.spec_index() as int] == slots0[w.0.spec_index() as int]);
                    }
                    // The unprocessed watchers stay in place.
                    assert(self.columns@[nb]@.take(k as int) =~= w0.take(k as int)) by {
                        assert forall|m: int| 0 <= m < k implies self.columns@[nb]@[m] == w0[m] by {
                            assert(column1.take(k as int + 1)[m] == w0.take(k as int + 1)[m]);
                        }
                    }
                    // Other false literals' columns are unchanged.
                    assert forall|b: int|
                        0 <= b < n && b != nb && is_false(trail, Literal::from_bits_spec(b as usize)) implies #[trigger] self.columns@[b]
                            == old(self).columns@[b] by {
                        if b == rb {
                            Literal::lemma_from_bits_spec(b as usize);
                            Literal::lemma_bits_determine(Literal::from_bits_spec(b as usize), replacement);
                            assert(Literal::from_bits_spec(b as usize) == replacement);
                        }
                        assert(self.columns@[b] == columns0[b]);
                    }
                    // Well-formedness.
                    assert forall|j: int| 0 <= j < slots.len() && (#[trigger] slots[j]) is Some implies literals_within(
                        slots[j].unwrap().spec_literals(),
                        n / 2,
                    ) by {
                        if j == i {
                            assert forall|q: int| 0 <= q < swapped.len() implies (#[trigger] swapped[q]).spec_index() < n / 2 by {
                                assert(literals_within(literals0, n / 2));
                            }
                        } else {
                            assert(slots[j] == slots0[j]);
                        }
                    }
                    assert forall|b: int| 0 <= b < n implies (#[trigger] self.columns@[b])@.no_duplicates() by {
                        let c = self.columns@[b]@;
                        if b == nb {
                            assert(column1.no_duplicates());
                            assert forall|x: int, y: int| 0 <= x < c.len() && 0 <= y < c.len() && x != y implies c[x] != c[y] by {
                                let x0 = if x == k { column1.len() - 1 } else { x };
                                let y0 = if y == k { column1.len() - 1 } else { y };
                                assert(c[x] == column1[x0]);
                                assert(c[y] == column1[y0]);
                            }
                        } else if b == rb {
                            let c0 = columns0[rb]@;
                            assert(c0.no_duplicates());
                            assert forall|x: int| 0 <= x < c0.len() implies c0[x] != watcher by {
                                assert(watches(slots0, c0[x], rb));
                                if c0[x] == watcher {
                                    assert(literals0[position as int].spec_bits() == rb);
                                }
                            }
                            assert forall|x: int, y: int| 0 <= x < c.len() && 0 <= y < c.len() && x != y implies c[x] != c[y] by {
                                if x < c0.len() && y < c0.len() {
                                    assert(c[x] == c0[x]);
                                    assert(c[y] == c0[y]);
                                } else if x < c0.len() {
                                    assert(c[x] == c0[x]);
                                } else if y < c0.len() {
                                    assert(c[y] == c0[y]);
                                }
                            }
                        } else {
                            assert(self.columns@[b] == columns0[b]);
                        }
                    }
                    assert forall|b: int, m: int| 0 <= b < n && 0 <= m < self.columns@[b]@.len() implies watches(
                        slots,
                        #[trigger] self.columns@[b]@[m],
                        b,
                    ) by {
                        let w = self.columns@[b]@[m];
                        if b == rb && m == self.columns@[b]@.len() - 1 {
                            assert(w == watcher);
                            assert(swapped[position as int] == replacement);
                        } else {
                            let w_old = if b == nb {
                                let m0 = if m == k { column1.len() - 1 } else { m };
                                column1[m0]
                            } else {
                                columns0[b]@[m]
                            };
                            if b == nb {
                                let m0 = if m == k { column1.len() - 1 } else { m };
                                assert(w == column1[m0]);
                                assert(m0 != k);
                                assert(column1[m0] != column1[k as int]);
                            } else if b == rb {
                                assert(self.columns@[b]@[m] == columns0[b]@[m]);
                            } else {
                                assert(self.columns@[b] == columns0[b]);
                            }
                            assert(w == w_old);
                            assert(watches(slots0, w_old, b));
                            if w.0.spec_index() == i {
                                let q = w.1 as int;
                                assert(q <= slots0[i].unwrap().spec_bound());
                                assert(q != p);
                                if q == position {
                                    assert(literals0[q].spec_bits() == b);
                                    assert(b == nb);
                                    RowId::lemma_index(w.0);
                                    RowId::lemma_index(row_id);
                                    assert(w.0 == row_id);
                                    assert(w.1 == position);
                                    assert(w == watcher);
                                }
                                assert(swapped[q] == literals0[q]);
                            } else {
                                assert(slots[w.0.spec_index() as int] == slots0[w.0.spec_index() as int]);
                            }
                        }
                    }
                }
            } else {
                let key = CardinalityPropagatorExplainKey::new(row_id);
                proof {
                    let x = slots0[i].unwrap();
                    assert(suffix_false(x, trail));
                    lemma_count_false_suffix(literals0, trail, watching as int);
                    assert(literals0.take(watching as int)[position as int] == negation);
                    lemma_count_with_false(literals0.take(watching as int), trail, position as int);
                    assert(count_not_false(literals0, trail) <= x.spec_bound());
                }
                let mut q: usize = 0;
                while q < watching
                    invariant
                        state.wf(),
                        trail == state.trail(),
                        row.literals@ == literals0,
                        length == literals0.len(),
                        watching <= length,
                        q <= watching,
                        literals_within(literals0, state.spec_number_of_variables()),
                        implications@.len() >= implications0.len(),
                        implications@.take(implications0.len() as int) == implications0,
                        self.rows.slots() == slots0,
                        self.columns@ == columns0,
                        0 <= i < slots0.len(),
                        slots0[i] is Some,
                        slots0[i].unwrap().spec_literals() == literals0,
                        watching == slots0[i].unwrap().spec_bound() + 1,
                        count_not_false(literals0, trail) <= slots0[i].unwrap().spec_bound(),
                        key == CardinalityPropagatorExplainKey::of(row_id),
                        i == row_id.spec_index(),
                        forall|m: int| 0 <= m < implications@.len() ==> sound_in(slots0, #[trigger] implications@[m], trail),
                        forall|j: int|
                            0 <= j < q && !is_assigned(trail, #[trigger] literals0[j]) ==> implications@.contains(
                                Implication::Literal(literals0[j], key, 0, 1),
                            ),
                    decreases watching - q,
                {
                    let l = row.literals[q];
                    if !state.literal_state(l).is_assigned() {
                        let ghost before = implications@;
                        implications.push(Implication::Literal(l, key, 0, 1));
                        proof {
                            assert(implications@[before.len() as int] == Implication::Literal(l, key, 0, 1));
                            assert(literals0[q as int] == l);
                            assert(literals0.contains(l));
                            assert forall|m: int| 0 <= m < implications@.len() implies sound_in(slots0, #[trigger] implications@[m], trail) by {
                                if m < before.len() {
                                    assert(implications@[m] == before[m]);
                                } else {
                                    CardinalityPropagatorExplainKey::lemma_of(row_id);
                                    assert(key.spec_row_id() == row_id);
                                    assert(!is_assigned(trail, l));
                                    assert(sound_for(
                                        Implication::Literal(l, key, 0, 1),
                                        key,
                                        slots0[i].unwrap().spec_literals(),
                                        slots0[i].unwrap().spec_bound() as int,
                                        trail,
                                    ));
                                }
                            }
                            assert(implications@.take(implications0.len() as int) =~= before.take(implications0.len() as int));
                            assert forall|j: int|
                                0 <= j < q + 1 && !is_assigned(trail, #[trigger] literals0[j]) implies implications@.contains(
                                Implication::Literal(literals0[j], key, 0, 1),
                            ) by {
                                if j < q {
                                    let x = choose|x: int| 0 <= x < before.len() && before[x] == Implication::Literal(literals0[j], key, 0, 1);
                                    assert(implications@[x] == before[x]);
                                }
                            }
                        }
                    }
                    q = q + 1;
                }
                proof {
                    let slots = self.rows.slots();
                    assert forall|m: int| k <= m < self.columns@[nb]@.len() implies propagated(
                        slots,
                        #[trigger] self.columns@[nb]@[m],
                        implications@,
                        trail,
                    ) by {
                        let w = self.columns@[nb]@[m];
                        let rw = slots[w.0.spec_index() as int].unwrap();
                        assert forall|j: int|
                            0 <= j <= rw.spec_bound() && j < rw.spec_literals().len() && !is_assigned(trail, #[trigger] rw.spec_literals()[j])
                                implies implications@.contains(Implication::Literal(rw.spec_literals()[j], CardinalityPropagatorExplainKey::of(w.0), 0, 1)) by {
                            if m > k {
                                assert(propagated(slots0, w, implications0, trail));
                                let x = choose|x: int| 0 <= x < implications0.len() && implications0[x] == Implication::Literal(
                                    rw.spec_literals()[j],
                                    CardinalityPropagatorExplainKey::of(w.0),
                                    0,
                                    1,
                                );
                                assert(implications@[x] == implications0[x]);
                            } else {
                                assert(w == watcher);
                            }
                        }
                    }
                    assert(self.columns@[nb]@.take(k as int) =~= w0.take(k as int)) by {
                        assert forall|m: int| 0 <= m < k implies self.columns@[nb]@[m] == w0[m] by {
                            assert(self.columns@[nb]@.take(k as int + 1)[m] == w0.take(k as int + 1)[m]);
                        }
                    }
                    assert(implications@.take(old(implications)@.len() as int) =~= old(implications)@) by {
                        assert forall|m: int| 0 <= m < old(implications)@.len() implies implications@[m] == old(implications)@[m] by {
                            assert(implications@[m] == implications0[m]);
                            assert(implications0.take(old(implications)@.len() as int)[m] == old(implications)@[m]);
                        }
                    }
                }
            }
        }
    }

    /// Reflects the assertions not reflected yet, in order (see
    /// `reflect_literal_assertion`), appending what they imply to
    /// `implications`. Afterwards every row that watches the negation of one
    /// of those assertions has propagated.
    pub fn propagate<E: Copy>(
        &mut self,
        state: &AssertionStack<E>,
        implications: &mut Vec<Implication<CardinalityPropagatorExplainKey>>,
    )
        requires
            old(self).wf(),
            state.wf(),
            old(self).spec_number_of_variables() == state.spec_number_of_variables(),
            old(self).spec_unreflected_order() <= state.trail().len(),
            forall|m: int|
                0 <= m < old(implications)@.len() ==> sound_in(old(self).rows(), #[trigger] old(implications)@[m], state.trail()),
        ensures
            Self::propagation_done(*old(self), *final(self), state.trail(), old(implications)@, final(implications)@),
    {
        broadcast use Literal::lemma_negated;
        broadcast use Literal::lemma_bits_determine;
        broadcast use Literal::lemma_from_bits_spec;

        let ghost trail = state.trail();
        let ghost start = self.unreflected_order as int;
        let ghost rows0 = self.rows();
        proof {
            assert(rows_reordered(rows0, rows0, trail));
            assert(implications@.take(implications@.len() as int) =~= implications@);
        }
        while self.unreflected_order < state.number_of_assertions()
            invariant
                self.wf(),
                state.wf(),
                trail == state.trail(),
                self.spec_number_of_variables() == state.spec_number_of_variables(),
                self.spec_number_of_variables() == old(self).spec_number_of_variables(),
                self.vacant() == old(self).vacant(),
                self.reduction_count == old(self).reduction_count,
                start == old(self).unreflected_order,
                start <= self.unreflected_order <= trail.len(),
                rows0 == old(self).rows(),
                rows_reordered(rows0, self.rows(), trail),
                old(implications)@.len() <= implications@.len(),
                implications@.take(old(implications)@.len() as int) == old(implications)@,
                forall|m: int| 0 <= m < implications@.len() ==> sound_in(self.rows(), #[trigger] implications@[m], trail),
                forall|o: int, m: int|
                    start <= o < self.unreflected_order && 0 <= m < self.watchers(
                        trail[o].predicate.spec_literal().negated().spec_bits() as int,
                    ).len() ==> propagated(
                        self.rows(),
                        #[trigger] self.watchers(trail[o].predicate.spec_literal().negated().spec_bits() as int)[m],
                        implications@,
                        trail,
                    ),
            decreases trail.len() - self.unreflected_order,
        {
            let order = self.unreflected_order;
            let predicate = state.assertion(order);
            let literal = predicate.literal();
            let ghost rows1 = self.rows();
            let ghost implications1 = implications@;
            let ghost watchers1 = self.columns@;
            let ghost self1 = *self;
            proof {
                state.lemma_trail_bound();
                assert(literal.spec_index() < state.spec_number_of_variables()) by {
                    assert(crate::assertion_state::assigned_at(trail, literal.spec_index(), order as int));
                    state.lemma_assigned_once(literal.spec_index(), order as int);
                }
                assert(is_true(trail, literal)) by {
                    assert(trail[order as int].predicate.spec_literal() == literal);
                }
            }
            self.reflect_literal_assertion(literal, state, implications);
            let ghost self2 = *self;
            self.unreflected_order = order + 1;
            proof {
                lemma_rows_reordered_trans(rows0, rows1, self.rows(), trail);
                assert(implications@.take(old(implications)@.len() as int) =~= old(implications)@) by {
                    assert forall|m: int| 0 <= m < old(implications)@.len() implies implications@[m] == old(implications)@[m] by {
                        assert(implications@.take(implications1.len() as int)[m] == implications1[m]);
                        assert(implications1.take(old(implications)@.len() as int)[m] == old(implications)@[m]);
                    }
                }
                assert forall|o: int, m: int|
                    start <= o < self.unreflected_order && 0 <= m < self.watchers(
                        trail[o].predicate.spec_literal().negated().spec_bits() as int,
                    ).len() implies propagated(
                        self.rows(),
                        #[trigger] self.watchers(trail[o].predicate.spec_literal().negated().spec_bits() as int)[m],
                        implications@,
                        trail,
                    ) by {
                    if o < order {
                        let l = trail[o].predicate.spec_literal();
                        let b = l.negated().spec_bits() as int;
                        assert(crate::assertion_state::assigned_at(trail, l.spec_index(), o));
                        state.lemma_assigned_once(l.spec_index(), o);
                        Self::lemma_bits_within(l, self.spec_number_of_variables());
                        assert(l != literal) by {
                            if l == literal {
                                assert(crate::assertion_state::assigned_at(trail, l.spec_index(), o));
                                assert(crate::assertion_state::assigned_at(trail, l.spec_index(), order as int));
                                state.lemma_assigned_once(l.spec_index(), o);
                            }
                        }
                        assert(l.negated() != literal.negated()) by {
                            l.lemma_negated();
                            literal.lemma_negated();
                            if l.negated() == literal.negated() {
                                assert(l == l.negated().negated());
                                assert(literal == literal.negated().negated());
                            }
                        }
                        Literal::lemma_bits_determine(l.negated(), literal.negated());
                        assert(b != literal.negated().spec_bits());
                        assert(is_false(trail, Literal::from_bits_spec(b as usize))) by {
                            Literal::lemma_from_bits_spec(b as usize);
                            Literal::lemma_bits_determine(Literal::from_bits_spec(b as usize), l.negated());
                            assert(Literal::from_bits_spec(b as usize) == l.negated());
                            l.lemma_negated();
                            assert(l.negated().negated() == l);
                            assert(trail[o].predicate.spec_literal() == l);
                            assert(o < NULL_ORDER);
                        }
                        assert(0 <= b < 2 * self1.spec_number_of_variables());
                        assert(self2.watchers(b) == self1.watchers(b));
                        assert(self.watchers(b) == self2.watchers(b));
                        let w = self.watchers(b)[m];
                        assert(w == self1.watchers(trail[o].predicate.spec_literal().negated().spec_bits() as int)[m]);
                        assert(propagated(rows1, w, implications1, trail));
                        assert(watches(rows1, w, b));
                        lemma_propagated_stable(rows1, self.rows(), w, implications1, implications@, trail);
                    } else {
                        assert(o == order);
                        assert(trail[o].predicate.spec_literal() == literal);
                        let b = literal.negated().spec_bits() as int;
                        assert(self.watchers(b) == self2.watchers(b));
                        assert(propagated(self2.rows(), self2.watchers(b)[m], implications@, trail));
                    }
                }
            }
        }
    }
    /// Removes the rows that the assertions satisfy and, when there are too
    /// many learnt rows, the learnt rows idle longest; then counts one more
    /// reduction (see `learnt_reduced`). Only at decision level 0.
    #[verifier::rlimit(60)]
    #[verifier::spinoff_prover]
    pub fn reduce_learnt_constraints<E: Copy>(&mut self, state: &AssertionStack<E>)
        requires
            old(self).wf(),
            state.wf(),
            state.decisions().len() == 0,
            old(self).spec_number_of_variables() <= state.spec_number_of_variables(),
            old(self).spec_reduction_count() < usize::MAX,
        ensures
            Self::learnt_reduced(*old(self), *final(self), state.trail()),
    {
        let ghost trail = state.trail();
        let ghost occ = occupied_rows(self.rows());
        proof {
            self.rows.lemma_slots_len();
            lemma_occupied(self.rows.slots());
        }
        let rows = self.rows.iter();
        let mut learnt: usize = 0;
        let mut others: usize = 0;
        let mut k: usize = 0;
        while k < rows.len()
            invariant
                k <= rows@.len(),
                rows@.len() == occ.len(),
                forall|j: int| 0 <= j < rows@.len() ==> (#[trigger] rows@[j]).0 == occ[j].0 && *rows@[j].1 == occ[j].1,
                learnt == count_learnt(occ.take(k as int), true),
                others == count_learnt(occ.take(k as int), false),
                learnt + others == k,
            decreases rows@.len() - k,
        {
            proof {
                assert(occ.take(k as int + 1).drop_last() =~= occ.take(k as int));
            }
            if rows[k].1.is_learnt {
                learnt = learnt + 1;
            } else {
                others = others + 1;
            }
            k = k + 1;
        }
        proof {
            assert(occ.take(occ.len() as int) =~= occ);
        }
        let removing: usize = if learnt / 10 > 1000 {
            learnt / 10
        } else {
            1000
        };
        let other_share: usize = if others / 10 > 1000 {
            others / 10
        } else {
            1000
        };
        let retaining: u128 = other_share as u128 + 10 * (self.reduction_count as u128);
        if (learnt as u128) < removing as u128 + retaining {
            return;
        }
        let count = self.reduction_count;
        let mut removing_ids: Vec<RowId> = Vec::new();
        let mut candidates: Vec<(usize, RowId)> = Vec::new();
        k = 0;
        while k < rows.len()
            invariant
                k <= rows@.len(),
                rows@.len() == occ.len(),
                forall|j: int| 0 <= j < rows@.len() ==> (#[trigger] rows@[j]).0 == occ[j].0 && *rows@[j].1 == occ[j].1,
                self.wf(),
                occ == occupied_rows(self.rows()),
                self.rows().len() <= usize::MAX,
                forall|j: int|
                    0 <= j < occ.len() ==> {
                        let i = (#[trigger] occ[j]).0.spec_index() as int;
                        &&& 0 <= i < self.rows().len()
                        &&& self.rows()[i] == Some(occ[j].1)
                    },
                state.wf(),
                trail == state.trail(),
                self.spec_number_of_variables() <= state.spec_number_of_variables(),
                count == self.spec_reduction_count(),
                removing_ids@ == satisfied_ids(occ.take(k as int), trail),
                candidates@ == removal_candidates(occ.take(k as int), count, trail),
                forall|j: int| 0 <= j < removing_ids@.len() ==> (#[trigger] removing_ids@[j]).spec_index() < self.rows().len(),
                forall|j: int| 0 <= j < candidates@.len() ==> (#[trigger] candidates@[j]).1.spec_index() < self.rows().len(),
            decreases rows@.len() - k,
        {
            proof {
                assert(occ.take(k as int + 1).drop_last() =~= occ.take(k as int));
                let i = occ[k as int].0.spec_index() as int;
                self.lemma_row_within(i);
            }
            let row = rows[k].1;
            let number_of_literals = row.literals.len();
            proof {
                assert(number_of_literals == row.spec_literals().len());
                lemma_unit_terms(*row, state.spec_number_of_variables());
            }
            let inf = row.inf_literal_terms(state);
            if inf >= row.lower_bound as u64 {
                removing_ids.push(rows[k].0);
            } else if row.is_learnt {
                let span: usize = if count >= row.last_involved_timestamp {
                    count - row.last_involved_timestamp
                } else {
                    0
                };
                let span: usize = if span > 3 {
                    span
                } else {
                    3
                };
                candidates.push((span, rows[k].0));
            }
            k = k + 1;
        }
        proof {
            assert(occ.take(occ.len() as int) =~= occ);
        }
        let ghost satisfied = removing_ids@;
        let ghost cands0 = candidates@;
        let needed: usize = if removing_ids.len() < removing {
            removing - removing_ids.len()
        } else {
            0
        };
        let chosen_count: usize = if needed < candidates.len() {
            needed
        } else {
            candidates.len()
        };
        let ghost bound = self.rows().len();
        let mut i: usize = 0;
        while i < chosen_count
            invariant
                chosen_count <= candidates@.len(),
                i <= chosen_count,
                candidates@.len() == cands0.len(),
                candidates@.to_multiset() == cands0.to_multiset(),
                forall|j: int| 0 <= j < candidates@.len() ==> (#[trigger] candidates@[j]).1.spec_index() < bound,
                forall|a: int, b: int|
                    0 <= a < i && a < b < candidates@.len() ==> (#[trigger] candidates@[a]).0 >= (#[trigger] candidates@[b]).0,
            decreases chosen_count - i,
        {
            let mut best: usize = i;
            let mut j: usize = i + 1;
            while j < candidates.len()
                invariant
                    i < chosen_count <= candidates@.len(),
                    i <= best < candidates@.len(),
                    i < j <= candidates@.len(),
                    forall|b: int| i <= b < j ==> candidates@[best as int].0 >= (#[trigger] candidates@[b]).0,
                decreases candidates@.len() - j,
            {
                if candidates[j].0 > candidates[best].0 {
                    best = j;
                }
                j = j + 1;
            }
            let ghost before = candidates@;
            swap_elements(&mut candidates, i, best);
            proof {
                assert(candidates@ == swapped(before, i as int, best as int));
                assert forall|a: int, b: int|
                    0 <= a < i + 1 && a < b < candidates@.len() implies (#[trigger] candidates@[a]).0
                        >= (#[trigger] candidates@[b]).0 by {
                    let ob = if b == best as int {
                        i as int
                    } else if b == i as int {
                        best as int
                    } else {
                        b
                    };
                    assert(candidates@[b] == before[ob]);
                    if a < i {
                        assert(candidates@[a] == before[a]);
                    } else {
                        assert(candidates@[a] == before[best as int]);
                    }
                }
                assert forall|j: int| 0 <= j < candidates@.len() implies (#[trigger] candidates@[j]).1.spec_index() < bound by {
                    if j == i as int {
                        assert(candidates@[j] == before[best as int]);
                    } else if j == best as int {
                        assert(candidates@[j] == before[i as int]);
                    } else {
                        assert(candidates@[j] == before[j]);
                    }
                }
            }
            i = i + 1;
        }
        let ghost order = candidates@;
        let mut m: usize = 0;
        while m < chosen_count
            invariant
                chosen_count <= order.len(),
                m <= chosen_count,
                candidates@ == order,
                removing_ids@ == satisfied + order.take(m as int).map_values(|c: (usize, RowId)| c.1),
                forall|j: int| 0 <= j < order.len() ==> (#[trigger] order[j]).1.spec_index() < bound,
                forall|j: int| 0 <= j < satisfied.len() ==> (#[trigger] satisfied[j]).spec_index() < bound,
            decreases chosen_count - m,
        {
            removing_ids.push(candidates[m].1);
            m = m + 1;
            proof {
                assert(removing_ids@ =~= satisfied + order.take(m as int).map_values(|c: (usize, RowId)| c.1));
            }
        }
        let ghost chosen = order.take(chosen_count as int).map_values(|c: (usize, RowId)| c.1);
        proof {
            assert(longest_idle(cands0, chosen, chosen_count as nat));
            assert forall|j: int| 0 <= j < removing_ids@.len() implies (#[trigger] removing_ids@[j]).spec_index() < bound by {
                if j >= satisfied.len() {
                    assert(removing_ids@[j] == order[j - satisfied.len()].1);
                } else {
                    assert(removing_ids@[j] == satisfied[j]);
                }
            }
        }
        let ghost before = *self;
        self.remove_rows(&removing_ids);
        let ghost mid = *self;
        self.reduction_count = self.reduction_count + 1;
        proof {
            let ids = satisfied + chosen;
            assert forall|b: int|
                0 <= b < 2 * old(self).spec_number_of_variables() implies #[trigger] self.watchers(b) == watchers_kept(
                old(self).watchers(b),
                ids,
            ) by {
                assert(self.watchers(b) == mid.watchers(b));
            }
            assert(satisfied == satisfied_ids(occ, trail));
            assert(cands0 == removal_candidates(occ, old(self).spec_reduction_count(), trail));
            assert(Self::rows_removed(*old(self), *self, ids));
            assert(!(count_learnt(occ, true) < removal_quota(occ) + retention_quota(
                occ,
                old(self).spec_reduction_count(),
            )));
            assert(extra_removals(occ, old(self).spec_reduction_count(), trail) == chosen_count);
            assert(longest_idle(cands0, chosen, chosen_count as nat));
        }
    }
}

} // verus!
