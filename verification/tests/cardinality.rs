use ppb_cdcl2::assertion_state::{AssertionStack, Predicate, Reason};
use ppb_cdcl2::cardinality_propagator::CardinalityPropagator;
use ppb_cdcl2::constraint::{Constraint, ConstraintView};
use ppb_cdcl2::explain::{CardinalityPropagatorExplainKey, Implication};
use ppb_cdcl2::literal::Literal;

fn x(i: usize) -> Literal {
    Literal::new(i, true)
}

fn not_x(i: usize) -> Literal {
    Literal::new(i, false)
}

fn setup(n: usize) -> (CardinalityPropagator, AssertionStack<u32>) {
    let mut propagator = CardinalityPropagator::new();
    let mut state: AssertionStack<u32> = AssertionStack::new();
    for _ in 0..n {
        propagator.add_variable();
        state.add_variable(false);
    }
    (propagator, state)
}

fn at_least(literals: &[Literal], lower_bound: u64) -> ConstraintView {
    ConstraintView::new(literals.iter().map(|&l| (l, 1)).collect(), lower_bound)
}

#[test]
fn cardinality_add_constraint_implies_watched_literals() {
    let (mut propagator, mut state) = setup(3);
    state.assert_predicate(Predicate::Literal(not_x(0)), Reason::Decision);
    propagator.propagate(&state, &mut Vec::new());
    let mut implications: Vec<Implication<CardinalityPropagatorExplainKey>> = Vec::new();
    propagator.add_constraint(&at_least(&[x(0), x(1), x(2)], 2), false, &state, &mut implications);
    assert_eq!(implications.len(), 2);
    assert!(matches!(implications[0], Implication::Literal(l, _, 0, 1) if l == x(1)));
    assert!(matches!(implications[1], Implication::Literal(l, _, 0, 1) if l == x(2)));
    let Implication::Literal(_, key, _, _) = implications[0] else { panic!() };
    let row = propagator.explain(key);
    assert_eq!(row.lower_bound(), 2);
    assert_eq!(row.iter_terms(), vec![(x(1), 1), (x(2), 1), (x(0), 1)]);
}

#[test]
fn cardinality_add_constraint_reports_conflicts() {
    let (mut propagator, mut state) = setup(2);
    let mut implications: Vec<Implication<CardinalityPropagatorExplainKey>> = Vec::new();
    propagator.add_constraint(&at_least(&[x(0), x(1)], 3), false, &state, &mut implications);
    assert_eq!(implications.len(), 1);
    assert!(matches!(implications[0], Implication::Conflict(_)));

    state.assert_predicate(Predicate::Literal(not_x(0)), Reason::Decision);
    propagator.propagate(&state, &mut implications);
    let mut forced: Vec<Implication<CardinalityPropagatorExplainKey>> = Vec::new();
    propagator.add_constraint(&at_least(&[x(0), x(1)], 2), true, &state, &mut forced);
    assert_eq!(forced.len(), 2);
    assert!(matches!(forced[0], Implication::Literal(l, _, 0, 1) if l == x(1)));
    assert!(matches!(forced[1], Implication::Conflict(_)));

    let mut none: Vec<Implication<CardinalityPropagatorExplainKey>> = Vec::new();
    propagator.add_constraint(&at_least(&[x(0), x(1)], 0), false, &state, &mut none);
    assert!(none.is_empty());
}

#[test]
fn cardinality_propagate_moves_watches_then_implies() {
    let (mut propagator, mut state) = setup(3);
    let mut implications: Vec<Implication<CardinalityPropagatorExplainKey>> = Vec::new();
    propagator.add_constraint(&at_least(&[x(0), x(1), x(2)], 1), false, &state, &mut implications);
    assert!(implications.is_empty());

    state.assert_predicate(Predicate::Literal(not_x(0)), Reason::Decision);
    propagator.propagate(&state, &mut implications);
    assert!(implications.is_empty());

    state.assert_predicate(Predicate::Literal(not_x(2)), Reason::Decision);
    propagator.propagate(&state, &mut implications);
    assert_eq!(implications.len(), 1);
    assert!(matches!(implications[0], Implication::Literal(l, _, 0, 1) if l == x(1)));

    state.assert_predicate(Predicate::Literal(not_x(1)), Reason::Decision);
    propagator.propagate(&state, &mut implications);
    assert_eq!(implications.len(), 1);

    state.backjump(1);
    propagator.backjump(1, &state);
    state.assert_predicate(Predicate::Literal(x(2)), Reason::Decision);
    propagator.propagate(&state, &mut implications);
    assert_eq!(implications.len(), 1);
    propagator.receive_involved_constraints(&[match implications[0] {
        Implication::Literal(_, key, _, _) => key,
        Implication::Conflict(key) => key,
    }]);
}

#[test]
fn cardinality_remove_rows_drops_rows_and_their_watchers() {
    let (mut propagator, mut state) = setup(3);
    let mut implications: Vec<Implication<CardinalityPropagatorExplainKey>> = Vec::new();
    propagator.add_constraint(&at_least(&[x(0), x(1)], 1), true, &state, &mut implications);
    propagator.add_constraint(&at_least(&[x(1), x(2)], 1), false, &state, &mut implications);
    assert!(implications.is_empty());
    propagator.add_constraint(&at_least(&[x(0)], 1), true, &state, &mut implications);
    assert_eq!(implications.len(), 1);
    let Implication::Literal(_, unit, _, _) = implications[0] else { panic!() };
    implications.clear();

    propagator.remove_rows(&[unit.row_id(), unit.row_id()]);
    state.assert_predicate(Predicate::Literal(not_x(1)), Reason::Decision);
    propagator.propagate(&state, &mut implications);
    assert_eq!(implications.len(), 2);
    assert!(implications.iter().all(|i| matches!(i, Implication::Literal(_, _, 0, 1))));

    let mut added: Vec<Implication<CardinalityPropagatorExplainKey>> = Vec::new();
    propagator.add_constraint(&at_least(&[x(2)], 1), false, &state, &mut added);
    let Implication::Literal(l, key, _, _) = added[0] else { panic!() };
    assert_eq!(l, x(2));
    assert_eq!(key.row_id(), unit.row_id());
}

/// Reflects a root assertion of `x(0)`, adds a static row that it satisfies
/// and `learnt` learnt rows `x(1) + x(2) >= 1`, reduces, then falsifies
/// `x(1)` and counts the implications of `x(2)`: one per remaining row.
fn cardinality_rows_left_after_reduction(learnt: usize) -> usize {
    let (mut propagator, mut state) = setup(3);
    let mut implications: Vec<Implication<CardinalityPropagatorExplainKey>> = Vec::new();
    state.assert_predicate(Predicate::Literal(x(0)), Reason::Implication { explain_key: 0 });
    propagator.propagate(&state, &mut implications);
    propagator.add_constraint(&at_least(&[x(0), x(1)], 1), false, &state, &mut implications);
    for _ in 0..learnt {
        propagator.add_constraint(&at_least(&[x(1), x(2)], 1), true, &state, &mut implications);
    }
    assert!(implications.is_empty());
    propagator.reduce_learnt_constraints(&state);
    state.assert_predicate(Predicate::Literal(not_x(1)), Reason::Decision);
    propagator.propagate(&state, &mut implications);
    implications
        .iter()
        .filter(|i| matches!(i, Implication::Literal(l, _, _, _) if *l == x(2)))
        .count()
}

#[test]
fn cardinality_reduction_removes_satisfied_and_idle_learnt_rows() {
    assert_eq!(cardinality_rows_left_after_reduction(1999), 1999);
    assert_eq!(cardinality_rows_left_after_reduction(2000), 2000 - 999);
}
