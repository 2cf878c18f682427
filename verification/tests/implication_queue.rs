use ppb_cdcl2::assertion_state::Predicate;
use ppb_cdcl2::explain::{ConflictImplication, Implication};
use ppb_cdcl2::implication_queue::ImplicationQueue;
use ppb_cdcl2::literal::Literal;

fn x(i: usize) -> Literal {
    Literal::new(i, true)
}

fn not_x(i: usize) -> Literal {
    Literal::new(i, false)
}

fn popped_literal(popped: Option<(Predicate, u32)>) -> (Literal, u32) {
    match popped {
        Some((Predicate::Literal(l), key)) => (l, key),
        None => panic!("nothing to pop"),
    }
}

#[test]
fn queue_reports_violated_constraints_first() {
    let mut queue: ImplicationQueue<u32> = ImplicationQueue::new();
    assert!(queue.is_empty());
    assert!(queue.get_conflict().is_none());
    queue.receive_literal_assertion(x(0), 1, 0, 1);
    queue.receive_literal_assertion(not_x(0), 2, 0, 1);
    queue.receive_conflict(7);
    queue.receive_conflict(8);
    assert!(matches!(queue.get_conflict(), Some(ConflictImplication::Constraint { explain_key: 7 })));
    assert!(!queue.is_empty());
}

#[test]
fn queue_keeps_the_least_normalized_slack() {
    let mut queue: ImplicationQueue<u32> = ImplicationQueue::new();
    queue.receive_literal_assertion(x(3), 1, 1, 2);
    queue.receive_literal_assertion(x(3), 2, 1, 3);
    queue.receive_literal_assertion(x(3), 3, 1, 2);
    queue.receive_literal_assertion(x(3), 4, 2, 6);
    assert!(queue.get_conflict().is_none());
    assert_eq!(popped_literal(queue.pop_propagation()), (x(3), 2));
    assert!(queue.pop_propagation().is_none());
    assert!(queue.is_empty());
}

#[test]
fn queue_turns_opposite_implications_into_a_conflict() {
    let mut queue: ImplicationQueue<u32> = ImplicationQueue::new();
    queue.receive_literal_assertion(x(1), 1, 1, 2);
    queue.receive_literal_assertion(not_x(1), 2, 0, 1);
    match queue.get_conflict() {
        Some(ConflictImplication::Literals { variable, explain_keys }) => {
            assert_eq!(variable, 1);
            assert_eq!(explain_keys, [2, 1]);
        },
        _ => panic!("expected a conflict between literals"),
    }
    queue.receive_literal_assertion(x(1), 3, 0, 5);
    match queue.get_conflict() {
        Some(ConflictImplication::Literals { variable, explain_keys }) => {
            assert_eq!(variable, 1);
            assert_eq!(explain_keys, [2, 3]);
        },
        _ => panic!("expected a conflict between literals"),
    }
}

#[test]
fn queue_pops_in_order_of_normalized_slack() {
    let mut queue: ImplicationQueue<u32> = ImplicationQueue::new();
    queue.receive_literal_assertion(x(0), 10, 3, 4);
    queue.receive_literal_assertion(not_x(1), 11, 1, 4);
    queue.receive_literal_assertion(x(2), 12, 1, 2);
    assert_eq!(popped_literal(queue.pop_propagation()), (not_x(1), 11));
    assert_eq!(popped_literal(queue.pop_propagation()), (x(2), 12));
    assert_eq!(popped_literal(queue.pop_propagation()), (x(0), 10));
    assert!(queue.pop_propagation().is_none());
}

#[test]
fn queue_picks_the_conflict_with_the_least_sum_of_slacks() {
    let mut queue: ImplicationQueue<u32> = ImplicationQueue::new();
    queue.receive_literal_assertion(x(1), 1, 1, 2);
    queue.receive_literal_assertion(not_x(1), 2, 1, 2);
    queue.receive_literal_assertion(x(2), 3, 1, 3);
    queue.receive_literal_assertion(not_x(2), 4, 1, 3);
    match queue.get_conflict() {
        Some(ConflictImplication::Literals { variable, explain_keys }) => {
            assert_eq!(variable, 2);
            assert_eq!(explain_keys, [4, 3]);
        },
        _ => panic!("expected a conflict between literals"),
    }
}

#[test]
fn queue_compares_normalized_slacks_exactly() {
    let m = u64::MAX;
    let mut queue: ImplicationQueue<u32> = ImplicationQueue::new();
    queue.receive_literal_assertion(x(1), 1, m - 1, m);
    queue.receive_literal_assertion(not_x(1), 2, m - 1, m);
    queue.receive_literal_assertion(x(2), 3, m - 2, m - 1);
    queue.receive_literal_assertion(not_x(2), 4, m - 2, m - 1);
    match queue.get_conflict() {
        Some(ConflictImplication::Literals { variable, .. }) => assert_eq!(variable, 2),
        _ => panic!("expected a conflict between literals"),
    }

    let mut single: ImplicationQueue<u32> = ImplicationQueue::new();
    single.receive_literal_assertion(x(5), 1, m - 1, m);
    single.receive_literal_assertion(x(6), 2, m - 2, m - 1);
    assert_eq!(popped_literal(single.pop_propagation()), (x(6), 2));
}

#[test]
fn queue_receives_implications_of_propagators_and_clears() {
    let mut queue: ImplicationQueue<u32> = ImplicationQueue::new();
    queue.receive(Implication::Literal(x(4), 9, 0, 1));
    queue.receive(Implication::Conflict(5));
    assert!(matches!(queue.get_conflict(), Some(ConflictImplication::Constraint { explain_key: 5 })));
    queue.clear();
    assert!(queue.is_empty());
    queue.receive(Implication::Literal(x(4), 9, 0, 1));
    assert_eq!(popped_literal(queue.pop_propagation()), (x(4), 9));
}
