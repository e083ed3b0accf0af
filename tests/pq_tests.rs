use controlled_astar::{PriorityQueue, State};

#[test]
fn pq_tests_test_priority_queue_push_and_pop() {
    let mut pq = PriorityQueue::new();

    let state1 = State {
        cost: 10,
        position: (1, 2),
    };
    let state2 = State {
        cost: 5,
        position: (2, 3),
    };
    let state3 = State {
        cost: 15,
        position: (0, 0),
    };

    pq.push(state1.clone());
    pq.push(state2.clone());
    pq.push(state3.clone());

    assert_eq!(pq.pop().unwrap(), state2);
    assert_eq!(pq.pop().unwrap(), state1);
    assert_eq!(pq.pop().unwrap(), state3);
    assert!(pq.is_empty());
}

#[test]
fn pq_tests_test_priority_queue_push_order() {
    let mut pq = PriorityQueue::new();

    let state1 = State {
        cost: 10,
        position: (1, 2),
    };
    let state2 = State {
        cost: 5,
        position: (2, 3),
    };
    let state3 = State {
        cost: 15,
        position: (0, 0),
    };

    pq.push(state1.clone());
    pq.push(state2.clone());
    pq.push(state3.clone());

    assert_eq!(pq.pop().unwrap(), state2);
    assert_eq!(pq.pop().unwrap(), state1);
    assert_eq!(pq.pop().unwrap(), state3);
}

#[test]
fn pq_tests_test_priority_queue_empty_after_pop() {
    let mut pq = PriorityQueue::new();

    pq.push(State {
        cost: 10,
        position: (1, 2),
    });

    assert!(!pq.is_empty());

    pq.pop();
    assert!(pq.is_empty());
}

#[test]
fn pq_tests_test_priority_queue_multiple_pushes() {
    let mut pq = PriorityQueue::new();

    let state1 = State {
        cost: 20,
        position: (1, 2),
    };
    let state2 = State {
        cost: 15,
        position: (2, 3),
    };
    let state3 = State {
        cost: 10,
        position: (3, 4),
    };
    let state4 = State {
        cost: 5,
        position: (4, 5),
    };

    pq.push(state1.clone());
    pq.push(state2.clone());
    pq.push(state3.clone());
    pq.push(state4.clone());

    assert_eq!(pq.pop().unwrap(), state4);
    assert_eq!(pq.pop().unwrap(), state3);
    assert_eq!(pq.pop().unwrap(), state2);
    assert_eq!(pq.pop().unwrap(), state1);
    assert!(pq.is_empty());
}

#[test]
fn pq_tests_test_priority_queue_no_pop_on_empty() {
    let mut pq = PriorityQueue::new();

    assert!(pq.pop().is_none());
}

#[test]
fn equal_costs_go_by_row_then_column() {
    let mut pq = PriorityQueue::new();
    pq.push(State { cost: 4, position: (0, 1) });
    pq.push(State { cost: 4, position: (2, 0) });
    pq.push(State { cost: 4, position: (1, 0) });
    pq.push(State { cost: 3, position: (9, 9) });
    assert_eq!(pq.pop().unwrap().position, (9, 9));
    assert_eq!(pq.pop().unwrap().position, (1, 0));
    assert_eq!(pq.pop().unwrap().position, (2, 0));
    assert_eq!(pq.pop().unwrap().position, (0, 1));
    assert!(pq.pop().is_none());
}

#[test]
fn insert_or_update_lowers_the_priority_in_place() {
    let mut pq = PriorityQueue::new();
    pq.insert_or_update(State { cost: 9, position: (1, 1) });
    pq.insert_or_update(State { cost: 7, position: (2, 2) });
    pq.insert_or_update(State { cost: 5, position: (1, 1) });
    pq.insert_or_update(State { cost: 8, position: (2, 2) });
    assert_eq!(pq.pop().unwrap(), State { cost: 5, position: (1, 1) });
    assert_eq!(pq.pop().unwrap(), State { cost: 7, position: (2, 2) });
    assert!(pq.is_empty());
}

#[test]
fn push_keeps_duplicates() {
    let mut pq = PriorityQueue::new();
    pq.push(State { cost: 3, position: (0, 0) });
    pq.push(State { cost: 3, position: (0, 0) });
    assert_eq!(pq.pop().unwrap(), State { cost: 3, position: (0, 0) });
    assert!(!pq.is_empty());
    assert_eq!(pq.pop().unwrap(), State { cost: 3, position: (0, 0) });
    assert!(pq.is_empty());
}
