use ppb_cdcl2::assertion_state::Predicate;
use ppb_cdcl2::composite_linear_propagator::CompositeRow;
use ppb_cdcl2::compressed_constraint::CompressedConstraint;
use ppb_cdcl2::constraint::{Constraint, ConstraintView};
use ppb_cdcl2::engine::Engine;
use ppb_cdcl2::explain::{ConflictStatus, ExplainKey, Status};
use ppb_cdcl2::literal::Literal;
use ppb_cdcl2::solve::{decide, first_unassigned, learn, Decided};

fn x(i: usize) -> Literal {
    Literal::new(i, true)
}

fn not_x(i: usize) -> Literal {
    Literal::new(i, false)
}

fn setup(n: usize) -> Engine<()> {
    let mut engine: Engine<()> = Engine::new();
    for _ in 0..n {
        engine.add_variable(false);
    }
    engine
}

fn at_least(literals: &[Literal], lower_bound: u64) -> ConstraintView {
    ConstraintView::new(literals.iter().map(|&l| (l, 1)).collect(), lower_bound)
}

fn asserted(engine: &Engine<()>) -> Vec<Literal> {
    (0..engine.number_of_assertions())
        .map(|order| match engine.assertion(order) {
            Predicate::Literal(l) => l,
        })
        .collect()
}

#[test]
fn engine_asserts_what_a_new_constraint_implies() {
    let mut engine = setup(3);
    assert_eq!(engine.number_of_variables(), 3);
    engine.add_constraint(&at_least(&[x(0), x(1)], 1), false);
    assert_eq!(engine.number_of_assertions(), 0);
    engine.add_constraint(&at_least(&[x(1), x(2)], 2), false);
    assert!(matches!(engine.status(), Status::Noconflict));
    let mut implied = asserted(&engine);
    implied.sort_by_key(|l| l.index());
    assert_eq!(implied, vec![x(1), x(2)]);
    assert_eq!(engine.decision_level(), 0);
}

#[test]
fn engine_propagates_a_decision_to_a_fixed_point() {
    let mut engine = setup(4);
    engine.add_constraint(&at_least(&[not_x(0), x(1)], 1), false);
    engine.add_constraint(&ConstraintView::new(vec![(not_x(1), 2), (x(2), 1), (x(3), 1)], 2), false);
    engine.decision(Predicate::Literal(x(0)));
    assert!(matches!(engine.status(), Status::Noconflict));
    assert_eq!(engine.decision_level(), 1);
    assert_eq!(asserted(&engine)[0], x(0));
    let mut implied = asserted(&engine)[1..].to_vec();
    implied.sort_by_key(|l| l.index());
    assert_eq!(implied, vec![x(1), x(2), x(3)]);

    engine.backjump(0);
    assert_eq!(engine.number_of_assertions(), 0);
    assert_eq!(engine.decision_level(), 0);
    engine.decision(Predicate::Literal(not_x(0)));
    assert_eq!(asserted(&engine), vec![not_x(0)]);
}

#[test]
fn engine_reports_a_violated_constraint() {
    let mut engine = setup(2);
    engine.add_constraint(&at_least(&[x(0), x(1)], 2), false);
    assert_eq!(engine.number_of_assertions(), 2);
    engine.add_constraint(&at_least(&[not_x(0)], 1), true);
    match engine.status() {
        Status::Conflict(ConflictStatus::Constraint { explain_key }) => {
            let row = engine.explain(explain_key);
            assert!(matches!(row, CompositeRow::Cardinality(_)));
            assert_eq!(row.lower_bound(), 1);
            engine.update_activity(&[ExplainKey::Propagator(explain_key), ExplainKey::Outer(())]);
        },
        _ => panic!("expected a violated constraint"),
    }
    engine.backjump(0);
    assert!(matches!(engine.status(), Status::Noconflict));
}

#[test]
fn engine_reports_both_values_implied() {
    let mut engine = setup(2);
    engine.add_constraint(&at_least(&[not_x(0), x(1)], 1), false);
    engine.add_constraint(&at_least(&[not_x(0), not_x(1)], 1), false);
    engine.decision(Predicate::Literal(x(0)));
    match engine.status() {
        Status::Conflict(ConflictStatus::Literals { variable, .. }) => assert_eq!(variable, 1),
        _ => panic!("expected both values of a variable implied"),
    }
    assert_eq!(engine.number_of_assertions(), 1);
}

#[test]
fn search_decides_the_first_unassigned_variable_at_its_phase() {
    let mut engine = setup(3);
    engine.add_constraint(&at_least(&[x(1)], 1), false);
    assert_eq!(first_unassigned(engine.assertion_stack()), Some(0));
    assert!(matches!(decide(&mut engine, true), Decided::Decision(l) if l == not_x(0)));
    assert_eq!(engine.decision_level(), 1);
    assert!(matches!(decide(&mut engine, true), Decided::Restarted));
    assert_eq!(engine.decision_level(), 0);
    assert_eq!(asserted(&engine), vec![x(1)]);
    assert!(matches!(decide(&mut engine, false), Decided::Decision(l) if l == not_x(0)));
    assert!(matches!(decide(&mut engine, false), Decided::Decision(l) if l == not_x(2)));
    assert_eq!(first_unassigned(engine.assertion_stack()), None);
    assert!(matches!(decide(&mut engine, true), Decided::Complete));
    assert_eq!(engine.decision_level(), 2);
    assert_eq!(asserted(&engine), vec![x(1), not_x(0), not_x(2)]);
}

#[test]
fn search_learns_after_backjumping() {
    let mut engine = setup(3);
    engine.decision(Predicate::Literal(not_x(0)));
    engine.decision(Predicate::Literal(not_x(1)));
    assert_eq!(engine.decision_level(), 2);
    let learnt = CompressedConstraint::new(vec![(x(0), 1), (x(2), 1)], 1);
    // a backjump beyond the decision levels is refused and changes nothing
    assert!(!learn(&mut engine, 3, &learnt, &[]));
    assert_eq!(engine.decision_level(), 2);
    // a literal beyond the variables is refused
    let outside = CompressedConstraint::new(vec![(x(5), 1)], 1);
    assert!(!learn(&mut engine, 1, &outside, &[]));
    assert_eq!(engine.decision_level(), 2);
    assert!(learn(&mut engine, 1, &learnt, &[]));
    assert_eq!(engine.decision_level(), 1);
    assert_eq!(asserted(&engine), vec![not_x(0), x(2)]);
}
