use ppb_cdcl2::assertion_state::{AssertionStack, Predicate, Reason};
use ppb_cdcl2::constraint::{Constraint, ConstraintView};
use ppb_cdcl2::explain::{Implication, LinearPropagatorExplainKey};
use ppb_cdcl2::linear_propagator::LinearPropagator;
use ppb_cdcl2::literal::Literal;

fn x(i: usize) -> Literal {
    Literal::new(i, true)
}

fn not_x(i: usize) -> Literal {
    Literal::new(i, false)
}

fn setup(n: usize) -> (LinearPropagator, AssertionStack<u32>) {
    let mut propagator = LinearPropagator::new();
    let mut state: AssertionStack<u32> = AssertionStack::new();
    for _ in 0..n {
        propagator.add_variable();
        state.add_variable(false);
    }
    (propagator, state)
}

fn literal_of(implication: &Implication<LinearPropagatorExplainKey>) -> Option<(Literal, u64, u64)> {
    match implication {
        Implication::Literal(l, _, slack, coefficient) => Some((*l, *slack, *coefficient)),
        Implication::Conflict(_) => None,
    }
}

#[test]
fn linear_propagation_implies_by_slack_and_backjumps() {
    let (mut propagator, mut state) = setup(3);
    let mut implications: Vec<Implication<LinearPropagatorExplainKey>> = Vec::new();
    let constraint = ConstraintView::new(vec![(x(0), 3), (x(1), 2), (x(2), 1)], 3);
    propagator.add_constraint(&constraint, false, &state, &mut implications);
    assert!(implications.is_empty());

    state.assert_predicate(Predicate::Literal(not_x(0)), Reason::Decision);
    propagator.propagate(&state, &mut implications);
    let found: Vec<_> = implications.iter().map(literal_of).collect();
    assert_eq!(found, vec![Some((x(1), 0, 2)), Some((x(2), 0, 1))]);

    let key = match implications[0] {
        Implication::Literal(_, key, _, _) => key,
        Implication::Conflict(key) => key,
    };
    let row = propagator.explain(key);
    assert_eq!(row.iter_terms(), vec![(x(2), 1), (x(1), 2), (x(0), 3)]);
    assert_eq!(row.lower_bound(), 3);

    propagator.backjump(0, &state);
    state.backjump(0);
    implications.clear();

    state.assert_predicate(Predicate::Literal(not_x(1)), Reason::Decision);
    propagator.propagate(&state, &mut implications);
    state.assert_predicate(Predicate::Literal(not_x(2)), Reason::Decision);
    propagator.propagate(&state, &mut implications);
    let found: Vec<_> = implications.iter().map(literal_of).collect();
    assert_eq!(found, vec![Some((x(0), 1, 3)), Some((x(0), 0, 3))]);

    state.assert_predicate(Predicate::Literal(not_x(0)), Reason::Decision);
    propagator.propagate(&state, &mut implications);
    assert!(matches!(implications.last(), Some(Implication::Conflict(_))));
    propagator.receive_involved_constraints(&[key]);
}

#[test]
fn linear_add_constraint_reports_violation_and_skips_trivial() {
    let (mut propagator, mut state) = setup(2);
    state.assert_predicate(Predicate::Literal(not_x(0)), Reason::Decision);
    state.assert_predicate(Predicate::Literal(not_x(1)), Reason::Decision);
    let mut implications: Vec<Implication<LinearPropagatorExplainKey>> = Vec::new();
    propagator.propagate(&state, &mut implications);
    propagator.add_constraint(&ConstraintView::new(vec![(x(0), 1), (x(1), 1)], 0), false, &state, &mut implications);
    assert!(implications.is_empty());
    propagator.add_constraint(&ConstraintView::new(vec![(x(0), 1), (x(1), 1)], 1), true, &state, &mut implications);
    assert_eq!(implications.len(), 1);
    assert!(matches!(implications[0], Implication::Conflict(_)));
}

#[test]
fn linear_remove_rows_drops_rows_and_reuses_their_slots() {
    let (mut propagator, mut state) = setup(3);
    let mut implications: Vec<Implication<LinearPropagatorExplainKey>> = Vec::new();
    propagator.add_constraint(&ConstraintView::new(vec![(x(0), 2), (x(1), 1)], 2), true, &state, &mut implications);
    propagator.add_constraint(&ConstraintView::new(vec![(x(1), 2), (x(2), 2)], 2), false, &state, &mut implications);
    assert_eq!(implications.len(), 1);
    let Implication::Literal(_, first, _, _) = implications[0] else { panic!() };

    propagator.remove_rows(&[first.row_id()]);
    implications.clear();
    state.assert_predicate(Predicate::Literal(not_x(1)), Reason::Decision);
    propagator.propagate(&state, &mut implications);
    assert_eq!(implications.len(), 1);
    assert_eq!(literal_of(&implications[0]), Some((x(2), 0, 2)));

    let mut added: Vec<Implication<LinearPropagatorExplainKey>> = Vec::new();
    let mut reused = None;
    propagator.add_constraint(&ConstraintView::new(vec![(x(0), 3), (x(2), 3)], 6), false, &state, &mut added);
    for implication in &added {
        if let Implication::Literal(_, key, _, _) = implication {
            reused = Some(key.row_id());
        }
    }
    assert_eq!(reused, Some(first.row_id()));
    assert_eq!(propagator.explain(first).lower_bound(), 6);
}

/// Reflects a root assertion of `x(0)`, adds a static row that it satisfies
/// and `learnt` learnt rows `x(1) + x(2) >= 1`, reduces, then falsifies
/// `x(1)` and counts the implications of `x(2)`: one per remaining row.
fn rows_left_after_reduction(learnt: usize) -> usize {
    let (mut propagator, mut state) = setup(3);
    let mut implications: Vec<Implication<LinearPropagatorExplainKey>> = Vec::new();
    state.assert_predicate(Predicate::Literal(x(0)), Reason::Implication { explain_key: 0 });
    propagator.propagate(&state, &mut implications);
    propagator.add_constraint(&ConstraintView::new(vec![(x(0), 1)], 1), false, &state, &mut implications);
    for _ in 0..learnt {
        propagator.add_constraint(&ConstraintView::new(vec![(x(1), 1), (x(2), 1)], 1), true, &state, &mut implications);
    }
    assert!(implications.is_empty());
    propagator.reduce_learnt_constraints(&state);
    state.assert_predicate(Predicate::Literal(not_x(1)), Reason::Decision);
    propagator.propagate(&state, &mut implications);
    implications.iter().filter(|i| literal_of(i).map(|t| t.0) == Some(x(2))).count()
}

#[test]
fn linear_reduction_removes_satisfied_and_idle_learnt_rows() {
    assert_eq!(rows_left_after_reduction(1999), 1999);
    assert_eq!(rows_left_after_reduction(2000), 2000 - 999);
}
