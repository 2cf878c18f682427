use ppb_cdcl2::assertion_state::{AssertionStack, Predicate, Reason};
use ppb_cdcl2::composite_linear_propagator::{CompositeLinearPropagator, CompositeRow};
use ppb_cdcl2::constraint::{Constraint, ConstraintView};
use ppb_cdcl2::explain::{CompositeLinearPropagatorExplinKey, Implication};
use ppb_cdcl2::literal::Literal;

fn x(i: usize) -> Literal {
    Literal::new(i, true)
}

fn not_x(i: usize) -> Literal {
    Literal::new(i, false)
}

fn setup(n: usize) -> (CompositeLinearPropagator, AssertionStack<u32>) {
    let mut propagator = CompositeLinearPropagator::new();
    let mut state: AssertionStack<u32> = AssertionStack::new();
    for _ in 0..n {
        propagator.add_variable();
        state.add_variable(false);
    }
    (propagator, state)
}

#[test]
fn composite_divides_into_a_cardinality_row() {
    let (mut propagator, mut state) = setup(3);
    let mut implications: Vec<Implication<CompositeLinearPropagatorExplinKey>> = Vec::new();
    let constraint = ConstraintView::new(vec![(x(0), 2), (x(1), 2), (x(2), 2)], 4);
    propagator.add_constraint(&constraint, false, &state, &mut implications);
    assert!(implications.is_empty());

    state.assert_predicate(Predicate::Literal(not_x(0)), Reason::Decision);
    propagator.propagate(&state, &mut implications);
    assert_eq!(implications.len(), 2);
    let mut implied: Vec<Literal> = Vec::new();
    for implication in &implications {
        match implication {
            Implication::Literal(l, CompositeLinearPropagatorExplinKey::Cardinality(_), 0, 1) => implied.push(*l),
            _ => panic!("expected a cardinality implication"),
        }
    }
    implied.sort_by_key(|l| l.index());
    assert_eq!(implied, vec![x(1), x(2)]);

    let Implication::Literal(_, key, _, _) = implications[0] else { panic!() };
    let row = propagator.explain(key);
    assert!(matches!(row, CompositeRow::Cardinality(_)));
    assert_eq!(row.lower_bound(), 2);
    assert_eq!(row.iter_terms().len(), 3);
    assert!(row.iter_terms().iter().all(|&(_, c)| c == 1));
}

#[test]
fn composite_keeps_other_constraints_as_linear_rows() {
    let (mut propagator, mut state) = setup(3);
    let mut implications: Vec<Implication<CompositeLinearPropagatorExplinKey>> = Vec::new();
    let constraint = ConstraintView::new(vec![(x(0), 3), (x(1), 2), (x(2), 1)], 4);
    propagator.add_constraint(&constraint, false, &state, &mut implications);
    assert_eq!(implications.len(), 1);
    assert!(matches!(
        implications[0],
        Implication::Literal(l, CompositeLinearPropagatorExplinKey::Linear(_), 2, 3) if l == x(0)
    ));

    state.assert_predicate(Predicate::Literal(not_x(2)), Reason::Decision);
    propagator.propagate(&state, &mut implications);
    assert_eq!(implications.len(), 3);
    assert!(implications.iter().any(|i| matches!(
        i,
        Implication::Literal(l, CompositeLinearPropagatorExplinKey::Linear(_), 1, 3) if *l == x(0)
    )));
    assert!(implications.iter().any(|i| matches!(
        i,
        Implication::Literal(l, CompositeLinearPropagatorExplinKey::Linear(_), 1, 2) if *l == x(1)
    )));

    let Implication::Literal(_, key, _, _) = implications[0] else { panic!() };
    let row = propagator.explain(key);
    assert!(matches!(row, CompositeRow::Linear(_)));
    assert_eq!(row.lower_bound(), 4);
}

#[test]
fn composite_reports_a_violated_linear_row() {
    let (mut propagator, mut state) = setup(3);
    let mut implications: Vec<Implication<CompositeLinearPropagatorExplinKey>> = Vec::new();
    state.assert_predicate(Predicate::Literal(not_x(0)), Reason::Decision);
    propagator.propagate(&state, &mut implications);
    let constraint = ConstraintView::new(vec![(x(0), 3), (x(1), 2), (x(2), 1)], 4);
    propagator.add_constraint(&constraint, true, &state, &mut implications);
    assert_eq!(implications.len(), 1);
    assert!(matches!(implications[0], Implication::Conflict(CompositeLinearPropagatorExplinKey::Linear(_))));
}

#[test]
fn composite_ignores_constraints_that_always_hold() {
    let (mut propagator, state) = setup(2);
    let mut implications: Vec<Implication<CompositeLinearPropagatorExplinKey>> = Vec::new();
    let constraint = ConstraintView::new(vec![(x(0), 3), (x(1), 2)], 0);
    propagator.add_constraint(&constraint, false, &state, &mut implications);
    assert!(implications.is_empty());
}

#[test]
fn composite_strengthens_a_dominant_term_into_a_unit_lower_bound() {
    let (mut propagator, mut state) = setup(2);
    let mut implications: Vec<Implication<CompositeLinearPropagatorExplinKey>> = Vec::new();
    let constraint = ConstraintView::new(vec![(x(0), 5), (x(1), 1)], 3);
    propagator.add_constraint(&constraint, false, &state, &mut implications);
    assert_eq!(implications.len(), 1);
    let Implication::Literal(l, key, _, _) = implications[0] else { panic!() };
    assert_eq!(l, x(0));
    let row = propagator.explain(key);
    assert_eq!(row.lower_bound(), 1);
    assert_eq!(row.iter_terms(), vec![(x(0), 3)]);

    state.assert_predicate(Predicate::Literal(x(0)), Reason::Decision);
    propagator.propagate(&state, &mut implications);
    propagator.receive_involved_constraints(&[key]);
    propagator.backjump(0, &state);
    assert_eq!(propagator.explain(key).lower_bound(), 1);
}
