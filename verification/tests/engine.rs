//! Engine behavior on small explicit graphs.

use bestfirst::dijkstra::{Dijkstra, StepResult};
use bestfirst::table::TableSpace;

/// Pulls the next goal, taking at most `limit` steps.
fn pull(engine: &mut Dijkstra<TableSpace>, space: &TableSpace, limit: u64) -> Option<(usize, u64)> {
    let mut left = limit;
    while left > 0 {
        match engine.step(space) {
            StepResult::Found(s, c) => return Some((s, c)),
            StepResult::Advanced => {}
            StepResult::Exhausted => return None,
        }
        left -= 1;
    }
    panic!("step limit exceeded");
}

#[test]
fn trivial_start_yields_start_at_zero() {
    // The start state satisfies the goal: the very first pull must yield
    // exactly (start, 0).
    let space = TableSpace {
        adj: vec![vec![(1, 1)], vec![]],
        goals: vec![0],
    };
    let mut engine = Dijkstra::new(0, &space);
    match engine.step(&space) {
        StepResult::Found(s, c) => {
            assert_eq!(s, 0);
            assert_eq!(c, 0);
        }
        _ => panic!("expected the start to be yielded immediately"),
    }
}

#[test]
fn first_result_is_optimal() {
    // Two routes to the goal: direct at cost 9, around at cost 2 + 3 = 5.
    let space = TableSpace {
        adj: vec![
            vec![(3, 9), (1, 2)],
            vec![(2, 3)],
            vec![(3, 1)],
            vec![],
        ],
        goals: vec![3],
    };
    let mut engine = Dijkstra::new(0, &space);
    let first = pull(&mut engine, &space, 100).expect("goal is reachable");
    assert_eq!(first, (3, 6));
}

#[test]
fn successive_results_are_monotonic() {
    // Three goal states at distances 1, 4 and 6: pulls yield them in
    // non-decreasing cost order.
    let space = TableSpace {
        adj: vec![
            vec![(1, 1), (2, 4), (3, 6)],
            vec![],
            vec![],
            vec![],
        ],
        goals: vec![1, 2, 3],
    };
    let mut engine = Dijkstra::new(0, &space);
    let mut last = 0u64;
    let mut found = Vec::new();
    while let Some((s, c)) = pull(&mut engine, &space, 100) {
        assert!(c >= last, "costs must never decrease");
        last = c;
        found.push((s, c));
    }
    assert_eq!(found, vec![(1, 1), (2, 4), (3, 6)]);
}

#[test]
fn unreachable_goal_yields_nothing() {
    // State 2 is the goal but nothing leads there.
    let space = TableSpace {
        adj: vec![vec![(1, 1)], vec![], vec![]],
        goals: vec![2],
    };
    let mut engine = Dijkstra::new(0, &space);
    assert_eq!(pull(&mut engine, &space, 100), None);
}

#[test]
fn identity_collapses_duplicate_pushes() {
    // State 1 is pushed twice: directly at cost 5 and via state 2 at cost
    // 2; it must be finalized once, at the cheaper cost.
    let space = TableSpace {
        adj: vec![
            vec![(1, 5), (2, 1)],
            vec![],
            vec![(1, 1)],
        ],
        goals: vec![1],
    };
    let mut engine = Dijkstra::new(0, &space);
    assert_eq!(pull(&mut engine, &space, 100), Some((1, 2)));
    // The duplicate entry is discarded rather than yielded again.
    assert_eq!(pull(&mut engine, &space, 100), None);
}

#[test]
fn zero_cost_wait_move_terminates() {
    // A "wait" edge of cost 0 back to the same state: once the state is
    // finalized, its later copies are discarded and the search moves on.
    let space = TableSpace {
        adj: vec![vec![(0, 0), (1, 5)], vec![]],
        goals: vec![1],
    };
    let mut engine = Dijkstra::new(0, &space);
    assert_eq!(pull(&mut engine, &space, 100), Some((1, 5)));
    assert_eq!(pull(&mut engine, &space, 100), None);
}

#[test]
fn budget_exhaustion_reports_progress() {
    let space = TableSpace {
        adj: vec![vec![(1, 1)], vec![(2, 1)], vec![]],
        goals: vec![2],
    };
    let mut engine = Dijkstra::new(0, &space);
    match engine.next(&space, 1) {
        StepResult::Advanced => {}
        _ => panic!("one step cannot already decide this search"),
    }
    match engine.next(&space, 100) {
        StepResult::Found(s, c) => {
            assert_eq!(s, 2);
            assert_eq!(c, 2);
        }
        _ => panic!("goal should be found with a larger budget"),
    }
}
