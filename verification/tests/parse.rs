use ppb_cdcl2::assertion_state::{AssertionStack, Predicate, Reason};
use ppb_cdcl2::constraint::Constraint;
use ppb_cdcl2::literal::Literal;
use ppb_cdcl2::parse_opb::{parse_line, trim_line_ending, Line, ObjectiveType, RelationalOperator, WeightedTerm, Variable};
use ppb_cdcl2::parse_opb::Constraint as OpbConstraint;
use ppb_cdcl2::solve::{
    constraint_is_supported, initial_values, make_constraint, objective_is_supported, store_solution,
};

fn term(weight: i64, index: usize) -> WeightedTerm {
    WeightedTerm { weight, term: Variable { index } }
}

#[test]
fn comments_are_recognised() {
    match parse_line(b"* a comment") {
        Some((n, Line::Comment(text))) => {
            assert_eq!(n, 11);
            assert_eq!(text, b" a comment".to_vec());
        }
        _ => panic!("not a comment"),
    }
    assert!(parse_line(b"*\rx").is_none());
}

#[test]
fn constraints_are_parsed() {
    let line = b"1 x1 +1 x2 >= 1 ;";
    match parse_line(line) {
        Some((n, Line::Constraint(c))) => {
            assert_eq!(n, line.len());
            assert_eq!(c.sum, vec![term(1, 1), term(1, 2)]);
            assert_eq!(c.relational_operator, RelationalOperator::GreaterOrEqual);
            assert_eq!(c.rhs, 1);
        }
        _ => panic!("not a constraint"),
    }
    match parse_line(b"-1 x4 -1 x5 >= -1 ;") {
        Some((_, Line::Constraint(c))) => {
            assert_eq!(c.sum, vec![term(-1, 4), term(-1, 5)]);
            assert_eq!(c.rhs, -1);
        }
        _ => panic!("not a constraint"),
    }
    match parse_line(b"3 x1 =3;") {
        Some((_, Line::Constraint(c))) => {
            assert_eq!(c.relational_operator, RelationalOperator::Equal);
            assert_eq!(c.rhs, 3);
        }
        _ => panic!("not a constraint"),
    }
    match parse_line(b"1 x1 >= 1 ; extra") {
        Some((n, Line::Constraint(_))) => assert_eq!(n, 11),
        _ => panic!("not a constraint"),
    }
}

#[test]
fn objectives_are_parsed() {
    match parse_line(b"min: 1 x1 -2 x2 ;") {
        Some((_, Line::Objective(o))) => {
            assert_eq!(o.objective_type, ObjectiveType::Min);
            assert_eq!(o.sum, vec![term(1, 1), term(-2, 2)]);
        }
        _ => panic!("not an objective"),
    }
    match parse_line(b"max:+5 x3 ;") {
        Some((_, Line::Objective(o))) => assert_eq!(o.objective_type, ObjectiveType::Max),
        _ => panic!("not an objective"),
    }
}

#[test]
fn malformed_lines_are_rejected() {
    assert!(parse_line(b"").is_none());
    assert!(parse_line(b"3x1 >= 1 ;").is_none());
    assert!(parse_line(b"3 x1>= 1 ;").is_none());
    assert!(parse_line(b"1 x1 >= 1").is_none());
    assert!(parse_line(b"1 x1 >= 1 ").is_none());
    assert!(parse_line(b"1 y1 >= 1 ;").is_none());
    assert!(parse_line(b"1 x >= 1 ;").is_none());
    assert!(parse_line(b"min:").is_none());
    assert!(parse_line(b"99999999999999999999 x1 >= 1 ;").is_none());
    assert!(parse_line(b">= 1 ;").is_none());
    match parse_line(b"-9223372036854775808 x1 >= 9223372036854775807 ;") {
        Some((_, Line::Constraint(c))) => {
            assert_eq!(c.sum, vec![term(i64::MIN, 1)]);
            assert_eq!(c.rhs, i64::MAX);
        }
        _ => panic!("not a constraint"),
    }
}

#[test]
fn line_endings_are_trimmed() {
    assert_eq!(trim_line_ending(b"abc\r\n"), b"abc");
    assert_eq!(trim_line_ending(b"abc\n"), b"abc");
    assert_eq!(trim_line_ending(b"abc\r"), b"abc\r");
    assert_eq!(trim_line_ending(b""), b"");
}

#[test]
fn constraints_are_normalised() {
    let constraint = make_constraint(&[(0, 3), (1, -2), (2, 0)], 2).unwrap();
    assert_eq!(
        constraint.iter_terms(),
        vec![(Literal::new(0, true), 3), (Literal::new(1, false), 2)]
    );
    assert_eq!(constraint.lower_bound(), 4);
    let capped = make_constraint(&[(0, 10), (1, 1)], 2).unwrap();
    assert_eq!(capped.iter_terms(), vec![(Literal::new(0, true), 2), (Literal::new(1, true), 1)]);
    assert!(make_constraint(&[(0, -1)], -1).is_none());
    assert!(make_constraint(&[(0, 1)], 0).is_none());
}

#[test]
fn instance_sizes_are_checked() {
    let objective = match parse_line(b"min: 1 x1 -2 x2 ;") {
        Some((_, Line::Objective(o))) => o,
        _ => panic!("not an objective"),
    };
    assert!(objective_is_supported(&objective));
    let big = match parse_line(b"min: 4503599627370496 x1 ;") {
        Some((_, Line::Objective(o))) => o,
        _ => panic!("not an objective"),
    };
    assert!(!objective_is_supported(&big));
    let constraint = match parse_line(b"-9223372036854775808 x1 9223372036854775807 x2 >= 0 ;") {
        Some((_, Line::Constraint(c))) => c,
        _ => panic!("not a constraint"),
    };
    assert!(constraint_is_supported(&constraint));
    let too_big = match parse_line(b"-9223372036854775808 x1 9223372036854775807 x2 1 x3 >= 0 ;") {
        Some((_, Line::Constraint(c))) => c,
        _ => panic!("not a constraint"),
    };
    assert!(!constraint_is_supported(&too_big));
}

#[test]
fn solutions_are_read_from_the_assignment() {
    let mut state: AssertionStack<u32> = AssertionStack::new();
    state.add_variable(false);
    state.add_variable(false);
    state.assert_predicate(Predicate::Literal(Literal::new(0, false)), Reason::Decision);
    state.assert_predicate(Predicate::Literal(Literal::new(1, true)), Reason::Implication { explain_key: 3 });
    let mut solution = vec![true, true, true];
    store_solution(&mut solution, &state);
    assert_eq!(solution, vec![false, true]);
}

#[test]
fn initial_values_follow_the_majority_of_votes() {
    let constraints = vec![
        OpbConstraint {
            sum: vec![term(1, 1), term(1, 2)],
            relational_operator: RelationalOperator::GreaterOrEqual,
            rhs: 1,
        },
        OpbConstraint {
            sum: vec![term(-1, 2), term(1, 3)],
            relational_operator: RelationalOperator::Equal,
            rhs: 0,
        },
        OpbConstraint {
            sum: vec![term(-2, 4)],
            relational_operator: RelationalOperator::GreaterOrEqual,
            rhs: -1,
        },
    ];
    assert_eq!(initial_values(&constraints), vec![true, true, false, false]);
    assert_eq!(initial_values(&Vec::new()), Vec::<bool>::new());
}
