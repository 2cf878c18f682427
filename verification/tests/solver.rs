use ppb_cdcl2::analyze::{Analyze, AnalyzeStep, PpbAnalyzeOutput};
use ppb_cdcl2::assertion_state::{AssertionStack, Predicate, Reason};
use ppb_cdcl2::calculate_plbd::CalculatePLBD;
use ppb_cdcl2::calculate_propagation_level::{CalculatePropagationLevel, CalculatePropagationLevelOutput};
use ppb_cdcl2::compressed_constraint::CompressedConstraint;
use ppb_cdcl2::constraint::{Constraint, ConstraintView};
use ppb_cdcl2::explain::{ConflictStatus, ExplainKey, KeyEq, Status};
use ppb_cdcl2::literal::Literal;
use ppb_cdcl2::plbd_normalizer::PlbdNormalizer;
use ppb_cdcl2::random_constraint::RandomConstraint;
use ppb_cdcl2::rescale::Rescale;
use ppb_cdcl2::resolve::Resolve;
use ppb_cdcl2::round::Round;

fn x(i: usize) -> Literal {
    Literal::new(i, true)
}

fn not_x(i: usize) -> Literal {
    Literal::new(i, false)
}

fn stack(variables: usize) -> AssertionStack<u32> {
    let mut state: AssertionStack<u32> = AssertionStack::new();
    for _ in 0..variables {
        state.add_variable(false);
    }
    state
}

#[test]
fn assertion_stack_backjump_undoes_decisions() {
    let mut state = stack(3);
    state.assert_predicate(Predicate::Literal(x(0)), Reason::Implication { explain_key: 7 });
    assert_eq!(state.decision_level(), 0);
    state.assert_predicate(Predicate::Literal(not_x(1)), Reason::Decision);
    state.assert_predicate(Predicate::Literal(x(2)), Reason::Implication { explain_key: 8 });
    assert_eq!(state.decision_level(), 1);
    assert_eq!(state.number_of_assertions(), 3);
    assert_eq!(state.number_of_assigned_variables(), 3);
    assert_eq!(state.order_range(1), 1..3);
    assert!(state.literal_state(not_x(1)).is_true());
    assert!(state.literal_state(x(1)).is_false());
    assert_eq!(state.literal_state(x(2)).decision_level(), Some(1));
    assert!(state.literal_state(x(2)).is_false_before(3) == false);
    assert!(!state.literal_state(x(2)).is_true_before(2));
    assert!(state.cached_phase(1) == false && state.cached_phase(2));
    state.backjump(0);
    assert_eq!(state.decision_level(), 0);
    assert_eq!(state.number_of_assertions(), 1);
    assert!(!state.literal_state(x(2)).is_assigned());
    assert!(state.literal_state(x(0)).is_true());
    assert!(state.cached_phase(2));
}

#[test]
fn status_variants() {
    let conflict: Status<u32> = Status::Conflict(ConflictStatus::Constraint { explain_key: 1 });
    assert!(conflict.is_conflict());
    assert!(!conflict.is_noconflict());
    let quiet: Status<u32> = Status::Noconflict;
    assert!(quiet.is_noconflict());
}

#[test]
fn strengthening_divides_by_the_common_divisor() {
    let state = stack(3);
    let mut constraint = CompressedConstraint::new(vec![(x(0), 4), (x(1), 6), (x(2), 2)], 6);
    constraint.strengthen2(&state);
    assert_eq!(constraint.iter_terms(), vec![(x(0), 2), (x(1), 3), (x(2), 1)]);
    assert_eq!(constraint.lower_bound(), 3);
}

#[test]
fn strengthening_keeps_saturated_terms_when_the_others_fall_short() {
    let state = stack(2);
    let mut constraint = CompressedConstraint::new(vec![(x(0), 4), (x(1), 6)], 5);
    constraint.strengthen2(&state);
    assert_eq!(constraint.iter_terms(), vec![(x(1), 5)]);
    assert_eq!(constraint.lower_bound(), 1);
}

#[test]
fn fixed_variables_are_dropped() {
    let mut state = stack(3);
    state.assert_predicate(Predicate::Literal(x(0)), Reason::Implication { explain_key: 0 });
    state.assert_predicate(Predicate::Literal(x(1)), Reason::Implication { explain_key: 0 });
    let mut constraint = CompressedConstraint::new(vec![(x(0), 2), (not_x(1), 3), (x(2), 1), (x(0), 0)], 3);
    assert_eq!(constraint.iter_terms().len(), 3);
    constraint.drop_fixed_variables2(&state);
    assert_eq!(constraint.iter_terms(), vec![(x(2), 1)]);
    assert_eq!(constraint.lower_bound(), 1);
    assert_eq!(constraint.get_coefficient(x(2)), Some(1));
    assert_eq!(constraint.get_coefficient(x(0)), None);
}

#[test]
fn plbd_counts_falsifying_levels() {
    let mut state = stack(3);
    state.assert_predicate(Predicate::Literal(not_x(1)), Reason::Decision);
    state.assert_predicate(Predicate::Literal(not_x(2)), Reason::Decision);
    let constraint = ConstraintView::new(vec![(x(0), 1), (x(1), 1), (x(2), 1)], 1);
    let mut plbd = CalculatePLBD::new();
    assert_eq!(plbd.calculate(&constraint, &state, 2), 2);
    assert_eq!(plbd.calculate(&constraint, &state, 1), 1);
    assert_eq!(constraint.sup_literal_terms(&state), 1);
}

#[test]
fn propagation_level_is_the_least_that_fires() {
    let mut state = stack(3);
    state.assert_predicate(Predicate::Literal(not_x(1)), Reason::Decision);
    let constraint = ConstraintView::new(vec![(x(0), 1), (x(1), 1), (x(2), 1)], 2);
    let calculator = CalculatePropagationLevel::new();
    assert_eq!(
        calculator.calculate(&constraint, &state, false),
        CalculatePropagationLevelOutput::Propagate { decision_level: 1 }
    );
    let unit = ConstraintView::new(vec![(x(1), 1)], 1);
    assert_eq!(
        calculator.calculate(&unit, &state, false),
        CalculatePropagationLevelOutput::Propagate { decision_level: 0 }
    );
    let impossible = ConstraintView::new(vec![(x(1), 1)], 2);
    assert_eq!(
        calculator.calculate(&impossible, &state, false),
        CalculatePropagationLevelOutput::Conflict { decision_level: 0 }
    );
    let falsified = ConstraintView::new(vec![(x(1), 1), (x(0), 1)], 2);
    assert_eq!(
        calculator.calculate(&falsified, &state, true),
        CalculatePropagationLevelOutput::Propagate { decision_level: 0 }
    );
    let loose = ConstraintView::new(vec![(x(0), 1), (x(2), 1)], 1);
    assert_eq!(calculator.calculate(&loose, &state, false), CalculatePropagationLevelOutput::Idle);
}

#[test]
fn weaken_rounds_and_flips() {
    let round = Round::new();
    let terms = vec![(x(0), 3u128), (x(1), 5), (x(2), 4), (x(3), 0)];
    let (divided, lower_bound) = round.weaken(&terms, 7, 2, &[true, false, false, false]);
    assert_eq!(divided, vec![(x(0), 1), (x(1), 2), (x(2), 2)]);
    assert_eq!(lower_bound, 3);
}

#[test]
fn random_constraint_adds_and_cancels() {
    let mut constraint = RandomConstraint::new();
    constraint.assign(&[(x(0), 3), (not_x(1), 2), (x(2), 0)], 4);
    assert_eq!(constraint.get_coefficient(x(2)), None);
    constraint.add_assign(&[(x(1), 5), (x(0), 1)], 2);
    assert_eq!(constraint.get_coefficient(x(1)), Some(3));
    assert_eq!(constraint.get_coefficient(not_x(1)), None);
    assert_eq!(constraint.get_coefficient(x(0)), Some(4));
    assert_eq!(constraint.lower_bound(), 4);
    constraint.strengthen2();
    assert_eq!(constraint.iter_terms(), vec![(x(0), 1)]);
    assert_eq!(constraint.lower_bound(), 1);
    constraint.clear();
    assert!(constraint.iter_terms().is_empty());
}

#[test]
fn rescale_keeps_small_constraints() {
    let state = stack(2);
    let mut constraint = RandomConstraint::new();
    constraint.assign(&[(x(0), 3), (x(1), 5)], 4);
    let rescaled = Rescale::new().rescale(&constraint, usize::MAX, &state).unwrap();
    assert_eq!(rescaled.iter_terms(), vec![(x(0), 3), (x(1), 5)]);
    assert_eq!(rescaled.lower_bound(), 4);
}

#[test]
fn rescale_divides_large_constraints() {
    let state = stack(2);
    let mut constraint = RandomConstraint::new();
    let big: u128 = 1 << 53;
    constraint.assign(&[(x(0), big), (x(1), big)], big);
    let rescaled = Rescale::new().rescale(&constraint, usize::MAX, &state).unwrap();
    // Divided by 5: each coefficient and the lower bound become
    // 1801439850948198; only the saturated terms remain, with lower bound 1.
    assert_eq!(rescaled.iter_terms(), vec![(x(0), 1801439850948198), (x(1), 1801439850948198)]);
    assert_eq!(rescaled.lower_bound(), 1);
}

#[test]
fn resolve_cancels_the_target() {
    let mut state = stack(2);
    state.assert_predicate(Predicate::Literal(not_x(1)), Reason::Decision);
    state.assert_predicate(Predicate::Literal(x(0)), Reason::Implication { explain_key: 0 });
    let reason = ConstraintView::new(vec![(x(0), 1), (x(1), 1)], 1);
    let conflict = ConstraintView::new(vec![(not_x(0), 1), (x(1), 1)], 1);
    let resolvent = Resolve::new().resolve(&reason, &conflict, 0, &state).unwrap();
    assert_eq!(resolvent.iter_terms(), vec![(x(1), 1)]);
    assert_eq!(resolvent.lower_bound(), 1);
}

#[test]
fn resolve_weakens_the_slacker_constraint() {
    let mut state = stack(4);
    state.assert_predicate(Predicate::Literal(not_x(1)), Reason::Decision);
    state.assert_predicate(Predicate::Literal(x(0)), Reason::Implication { explain_key: 0 });
    // Before x0: 3 x0 + 2 x2 >= 3 has slack 2 of 3, and
    // 2 (not x0) + x1 + x3 >= 2 has slack 1 of 2; the first is divided by 3.
    let reason = ConstraintView::new(vec![(x(0), 3), (x(2), 2)], 3);
    let conflict = ConstraintView::new(vec![(not_x(0), 2), (x(1), 1), (x(3), 1)], 2);
    let resolvent = Resolve::new().resolve(&reason, &conflict, 0, &state).unwrap();
    let mut terms = resolvent.iter_terms();
    terms.sort_by_key(|t| t.0.bits());
    assert_eq!(terms, vec![(x(1), 1), (x(3), 1)]);
    assert_eq!(resolvent.lower_bound(), 2);
}

#[test]
fn plbd_normalizer_grows() {
    let mut normalizer = PlbdNormalizer::default();
    normalizer.resize(3);
    normalizer.resize(2);
    normalizer.resize(5);
}

#[test]
fn plbd_normalizer_counts_observations() {
    let mut normalizer = PlbdNormalizer::default();
    assert_eq!(normalizer.observe_counts(1), (0, 1, 1));
    assert_eq!(normalizer.observe_counts(0), (0, 1, 2));
    assert_eq!(normalizer.observe_counts(1), (1, 2, 3));
    // Growing the tree keeps the leaf counts and zeroes the inner slots.
    assert_eq!(normalizer.observe_counts(3), (0, 1, 1));
}

/// Every assignment of `n` variables.
fn assignments(n: usize) -> Vec<Vec<bool>> {
    (0..(1usize << n)).map(|bits| (0..n).map(|v| bits >> v & 1 == 1).collect()).collect()
}

fn value_of(terms: &[(Literal, u64)], assignment: &[bool]) -> u64 {
    terms.iter().filter(|(l, _)| assignment[l.index()] == l.value()).map(|(_, c)| *c).sum()
}

fn wide_value_of(terms: &[(Literal, u128)], assignment: &[bool]) -> u128 {
    terms.iter().filter(|(l, _)| assignment[l.index()] == l.value()).map(|(_, c)| *c).sum()
}

#[test]
fn strengthening_keeps_every_solution() {
    let state = stack(4);
    let cases: Vec<(Vec<(Literal, u64)>, u64)> = vec![
        (vec![(x(0), 4), (x(1), 6), (x(2), 2)], 6),
        (vec![(x(0), 4), (not_x(1), 6)], 5),
        (vec![(x(0), 3), (x(1), 3), (not_x(2), 2), (x(3), 9)], 5),
    ];
    for (terms, lower_bound) in cases {
        let mut strengthened = CompressedConstraint::new(terms.clone(), lower_bound);
        strengthened.strengthen2(&state);
        for a in assignments(4) {
            if value_of(&terms, &a) >= lower_bound {
                assert!(value_of(&strengthened.iter_terms(), &a) >= strengthened.lower_bound());
            }
        }
    }
}

#[test]
fn weakening_keeps_every_solution() {
    let round = Round::new();
    let terms = vec![(x(0), 3u128), (x(1), 5), (not_x(2), 4), (x(3), 7)];
    for divisor in 1..6u128 {
        for core_bits in 0..16usize {
            let core: Vec<bool> = (0..4).map(|k| core_bits >> k & 1 == 1).collect();
            let (divided, lower_bound) = round.weaken(&terms, 9, divisor, &core);
            for a in assignments(4) {
                if wide_value_of(&terms, &a) >= 9 {
                    assert!(wide_value_of(&divided, &a) >= lower_bound);
                }
            }
        }
    }
}

#[test]
fn adding_keeps_every_common_solution() {
    let first = vec![(x(0), 3u128), (not_x(1), 2), (x(2), 1)];
    let second = vec![(x(1), 5u128), (x(0), 1), (not_x(2), 1)];
    let mut sum = RandomConstraint::new();
    sum.assign(&first, 3);
    sum.add_assign(&second, 4);
    for a in assignments(3) {
        if wide_value_of(&first, &a) >= 3 && wide_value_of(&second, &a) >= 4 {
            assert!(wide_value_of(&sum.iter_terms(), &a) >= sum.lower_bound());
        }
    }
}

#[test]
fn resolvents_keep_every_common_solution() {
    let mut state = stack(4);
    state.assert_predicate(Predicate::Literal(not_x(1)), Reason::Decision);
    state.assert_predicate(Predicate::Literal(x(0)), Reason::Implication { explain_key: 0 });
    let reason = ConstraintView::new(vec![(x(0), 3), (x(2), 2)], 3);
    let conflict = ConstraintView::new(vec![(not_x(0), 2), (x(1), 1), (x(3), 1)], 2);
    let resolvent = Resolve::new().resolve(&reason, &conflict, 0, &state).unwrap();
    for a in assignments(4) {
        if value_of(&reason.iter_terms(), &a) >= 3 && value_of(&conflict.iter_terms(), &a) >= 2 {
            assert!(wide_value_of(&resolvent.iter_terms(), &a) >= resolvent.lower_bound());
        }
    }
}

#[test]
fn mul_scales_terms_and_bound() {
    let constraint = ConstraintView::new(vec![(x(0), 2), (not_x(1), 3)], 4);
    let product = constraint.mul(3);
    assert_eq!(product.iter_terms(), vec![(x(0), 6), (not_x(1), 9)]);
    assert_eq!(product.lower_bound(), 12);
}

#[test]
fn into_strengthen_divides_and_drops_zeros() {
    let state = stack(4);
    let constraint = ConstraintView::new(vec![(x(0), 4), (x(1), 0), (x(2), 2), (x(3), 8)], 6);
    let strengthened = constraint.into_strengthen(&state);
    assert_eq!(strengthened.iter_terms(), vec![(x(0), 2), (x(2), 1), (x(3), 3)]);
    assert_eq!(strengthened.lower_bound(), 3);
}

#[test]
fn into_strengthen_keeps_only_saturating_terms_as_units() {
    let state = stack(3);
    let constraint = ConstraintView::new(vec![(x(0), 2), (not_x(1), 7), (x(2), 5)], 5);
    let strengthened = constraint.strengthen(&state);
    assert_eq!(strengthened.iter_terms(), vec![(not_x(1), 1), (x(2), 1)]);
    assert_eq!(strengthened.lower_bound(), 1);
}

#[test]
fn into_strengthen_leaves_zero_coefficients_alone() {
    let state = stack(2);
    let constraint = ConstraintView::new(vec![(x(0), 0), (x(1), 0)], 0);
    let strengthened = constraint.into_strengthen(&state);
    assert_eq!(strengthened.iter_terms(), vec![(x(0), 0), (x(1), 0)]);
    assert_eq!(strengthened.lower_bound(), 0);
}

#[test]
fn into_strengthen_keeps_every_solution() {
    let state = stack(4);
    let cases: Vec<(Vec<(Literal, u64)>, u64)> = vec![
        (vec![(x(0), 4), (x(1), 6), (x(2), 2)], 6),
        (vec![(x(0), 4), (not_x(1), 6)], 5),
        (vec![(x(0), 3), (x(1), 3), (not_x(2), 2), (x(3), 9)], 5),
        (vec![(x(0), 1), (x(1), 0), (not_x(3), 2)], 2),
    ];
    for (terms, lower_bound) in cases {
        let strengthened = ConstraintView::new(terms.clone(), lower_bound).into_strengthen(&state);
        for a in assignments(4) {
            if value_of(&terms, &a) >= lower_bound {
                assert!(value_of(&strengthened.iter_terms(), &a) >= strengthened.lower_bound());
            }
        }
    }
}

#[test]
fn into_drop_fixed_variables_drops_root_assignments() {
    let mut state = stack(3);
    state.assert_predicate(Predicate::Literal(x(0)), Reason::Implication { explain_key: 0 });
    state.assert_predicate(Predicate::Literal(x(1)), Reason::Decision);
    let constraint = ConstraintView::new(vec![(x(0), 2), (not_x(1), 3), (x(2), 1)], 3);
    let dropped = constraint.into_drop_fixed_variables(&state);
    assert_eq!(dropped.iter_terms(), vec![(not_x(1), 3), (x(2), 1)]);
    assert_eq!(dropped.lower_bound(), 1);
}

#[test]
fn dropping_fixed_variables_keeps_solutions_that_agree_with_level_zero() {
    let mut state = stack(4);
    state.assert_predicate(Predicate::Literal(x(0)), Reason::Implication { explain_key: 0 });
    state.assert_predicate(Predicate::Literal(not_x(1)), Reason::Implication { explain_key: 0 });
    let terms = vec![(x(0), 2), (x(1), 3), (x(2), 1), (not_x(3), 2)];
    let lower_bound = 4;
    let dropped = ConstraintView::new(terms.clone(), lower_bound).into_drop_fixed_variables(&state);
    assert_eq!(dropped.iter_terms(), vec![(x(2), 1), (not_x(3), 2)]);
    assert_eq!(dropped.lower_bound(), 2);
    for a in assignments(4) {
        if a[0] && !a[1] {
            assert_eq!(
                value_of(&terms, &a) >= lower_bound,
                value_of(&dropped.iter_terms(), &a) >= dropped.lower_bound()
            );
        }
    }
}

fn implication_chain() -> (AssertionStack<u32>, Vec<ConstraintView>) {
    let mut state = stack(3);
    state.assert_predicate(Predicate::Literal(not_x(0)), Reason::Decision);
    state.assert_predicate(Predicate::Literal(x(1)), Reason::Implication { explain_key: 0 });
    state.assert_predicate(Predicate::Literal(x(2)), Reason::Implication { explain_key: 1 });
    let rows = vec![
        ConstraintView::new(vec![(x(0), 1), (x(1), 1)], 1),
        ConstraintView::new(vec![(not_x(1), 1), (x(2), 1)], 1),
        ConstraintView::new(vec![(not_x(1), 1), (not_x(2), 1)], 1),
    ];
    (state, rows)
}

#[test]
fn analysis_step_resolves_on_the_latest_implied_literal() {
    let (state, rows) = implication_chain();
    match Analyze::new().next_step(&rows[2], usize::MAX, &state) {
        AnalyzeStep::Resolve { target, reason, order } => {
            assert_eq!(target, x(2));
            assert_eq!(reason, 1);
            assert_eq!(order, 2);
        },
        other => panic!("unexpected step {:?}", other),
    }
    let learnt = ConstraintView::new(vec![(not_x(1), 1)], 1);
    match Analyze::new().next_step(&learnt, 2, &state) {
        AnalyzeStep::Learnt { backjump_level } => assert_eq!(backjump_level, 0),
        other => panic!("unexpected step {:?}", other),
    }
}

#[test]
fn analysis_learns_a_constraint_that_propagates_after_backjumping() {
    let (state, rows) = implication_chain();
    let output = Analyze::new().analyze_conflict_constraint(2, &state, |k: u32| rows[k as usize].clone());
    match output {
        PpbAnalyzeOutput::Learnt { backjump_level, learnt_constraint, involved_constraints } => {
            assert_eq!(backjump_level, 0);
            assert_eq!(learnt_constraint.iter_terms(), vec![(not_x(1), 1)]);
            assert_eq!(learnt_constraint.lower_bound(), 1);
            assert_eq!(involved_constraints, vec![2, 1]);
        },
        other => panic!("unexpected output {:?}", other),
    }
}

#[test]
fn analysis_finds_a_conflict_at_the_root_unsatisfiable() {
    let mut state = stack(1);
    state.assert_predicate(Predicate::Literal(x(0)), Reason::Implication { explain_key: 0 });
    let rows = vec![ConstraintView::new(vec![(x(0), 1)], 1), ConstraintView::new(vec![(not_x(0), 1)], 1)];
    let output = Analyze::new().analyze_conflict_constraint(1, &state, |k: u32| rows[k as usize].clone());
    match output {
        PpbAnalyzeOutput::Unsatisfiable { refutation } => {
            assert_eq!(refutation.iter_terms(), vec![]);
            assert_eq!(refutation.lower_bound(), 1);
        },
        other => panic!("unexpected output {:?}", other),
    }
}

#[test]
fn analysis_abandons_a_constraint_that_is_not_falsified() {
    let (state, rows) = implication_chain();
    let output = Analyze::new().analyze_conflict_constraint(0, &state, |k: u32| rows[k as usize].clone());
    assert!(matches!(output, PpbAnalyzeOutput::Abandoned));
}

#[test]
fn analysis_of_two_opposite_implications_resolves_them_first() {
    let mut state = stack(2);
    state.assert_predicate(Predicate::Literal(not_x(0)), Reason::Decision);
    let rows = vec![
        ConstraintView::new(vec![(x(0), 1), (x(1), 1)], 1),
        ConstraintView::new(vec![(x(0), 1), (not_x(1), 1)], 1),
    ];
    let output = Analyze::new().analyze_conflict_implications(1, [1, 0], &state, |k: u32| rows[k as usize].clone());
    match output {
        PpbAnalyzeOutput::Learnt { backjump_level, learnt_constraint, involved_constraints } => {
            assert_eq!(backjump_level, 0);
            assert_eq!(learnt_constraint.iter_terms(), vec![(x(0), 1)]);
            assert_eq!(learnt_constraint.lower_bound(), 1);
            assert_eq!(involved_constraints, vec![1, 0]);
        },
        other => panic!("unexpected output {:?}", other),
    }
}

#[test]
fn analysis_step_needs_an_implied_literal_before_the_conflict_order() {
    let mut state = stack(2);
    state.assert_predicate(Predicate::Literal(not_x(0)), Reason::Decision);
    state.assert_predicate(Predicate::Literal(not_x(1)), Reason::Implication { explain_key: 5 });
    let conflict = ConstraintView::new(vec![(x(0), 1), (x(1), 1)], 1);
    match Analyze::new().next_step(&conflict, usize::MAX, &state) {
        AnalyzeStep::Resolve { target, reason, order } => {
            assert_eq!(target, not_x(1));
            assert_eq!(reason, 5);
            assert_eq!(order, 1);
        },
        other => panic!("unexpected step {:?}", other),
    }
    assert!(matches!(Analyze::new().next_step(&conflict, 1, &state), AnalyzeStep::Exhausted));
    let root = stack(1);
    let refuted = ConstraintView::new(vec![], 1);
    assert!(matches!(Analyze::new().next_step(&refuted, usize::MAX, &root), AnalyzeStep::Unsatisfiable));
}

#[test]
fn explain_keys_compare_by_value() {
    let a: ExplainKey<u32, ()> = ExplainKey::Propagator(3);
    assert!(a.key_eq(&ExplainKey::Propagator(3)));
    assert!(!a.key_eq(&ExplainKey::Propagator(4)));
    assert!(!a.key_eq(&ExplainKey::Outer(())));
    assert!(ExplainKey::<u32, ()>::Outer(()).key_eq(&ExplainKey::Outer(())));
}
