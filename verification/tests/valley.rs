//! Trips through the blizzard valley, checked against a plain brute-force
//! simulation of all reachable states per minute.

use bestfirst::day_24::{parse_snowfield, shortest_trip, Point, Snowfield, State};
use bestfirst::dijkstra::StepResult;
use std::collections::HashSet;

/// The goal state and cost of a `Found` outcome.
fn found_trip(r: StepResult<State>) -> Option<(State, u64)> {
    match r {
        StepResult::Found(s, c) => Some((s, c)),
        _ => None,
    }
}

const DRAWING: &str = "#.######
#>>.<^<#
#.<..<<#
#>v.><>#
#<^v^^>#
######.#";

/// The blizzard cells of `field` at the given minute, recomputed directly.
fn blizzards_at(field: &Snowfield, minute: i64) -> HashSet<(i64, i64)> {
    let mut cells = HashSet::new();
    for b in &field.blizzards {
        let (mut r, mut c) = (b.start.row as i64, b.start.col as i64);
        match b.direction {
            bestfirst::day_24::Direction::Up => r -= minute,
            bestfirst::day_24::Direction::Down => r += minute,
            bestfirst::day_24::Direction::Left => c -= minute,
            bestfirst::day_24::Direction::Right => c += minute,
        }
        let r = (r - 1).rem_euclid(field.max_row as i64) + 1;
        let c = (c - 1).rem_euclid(field.max_col as i64) + 1;
        cells.insert((r, c));
    }
    cells
}

/// Brute force: expands the set of reachable positions minute by minute
/// until `target` is reached.
fn brute_force_minutes(field: &Snowfield, start: (i64, i64), start_minute: i64, target: (i64, i64)) -> i64 {
    let mut positions: HashSet<(i64, i64)> = HashSet::new();
    positions.insert(start);
    let mut minute = start_minute;
    loop {
        minute += 1;
        assert!(minute < 1_000, "brute force runaway");
        let hazards = blizzards_at(field, minute);
        let mut next: HashSet<(i64, i64)> = HashSet::new();
        for &(r, c) in &positions {
            for (nr, nc) in [(r + 1, c), (r, c + 1), (r, c), (r - 1, c), (r, c - 1)] {
                let interior = nr >= 1
                    && nr <= field.max_row as i64
                    && nc >= 1
                    && nc <= field.max_col as i64
                    && !hazards.contains(&(nr, nc));
                let portal = (nr == 0 && nc == field.start_col as i64)
                    || (nr == field.max_row as i64 + 1 && nc == field.end_col as i64);
                if interior || portal {
                    if (nr, nc) == target {
                        return minute;
                    }
                    next.insert((nr, nc));
                }
            }
        }
        positions = next;
    }
}

#[test]
fn trip_matches_brute_force() {
    let field = parse_snowfield(DRAWING).unwrap();
    let start = State {
        position: Point::new(0, field.start_col),
        time: 0,
    };
    let target = Point::new(field.max_row + 1, field.end_col);
    let expect = brute_force_minutes(
        &field,
        (0, field.start_col as i64),
        0,
        (field.max_row as i64 + 1, field.end_col as i64),
    );
    let field2 = parse_snowfield(DRAWING).unwrap();
    let (end, cost) = found_trip(shortest_trip(field2, start, target, 1_000_000)).unwrap();
    assert_eq!(end.time as i64, expect);
    assert_eq!(cost as i64, expect);
    assert_eq!(expect, 18);
}

#[test]
fn chained_trips_carry_time_forward() {
    // Three legs: across, back for the snacks, and across again.  Each leg
    // starts from the previous leg's goal state, elapsed time included.
    let field = parse_snowfield(DRAWING).unwrap();
    let start_pos = Point::new(0, field.start_col);
    let end_pos = Point::new(field.max_row + 1, field.end_col);

    let leg = |from: State, to: Point| -> State {
        let f = parse_snowfield(DRAWING).unwrap();
        let (state, _cost) = found_trip(shortest_trip(f, from, to, 1_000_000)).unwrap();
        state
    };

    let first = leg(
        State {
            position: start_pos,
            time: 0,
        },
        end_pos,
    );
    let second = leg(first, start_pos);
    let third = leg(second, end_pos);

    // Brute force the same three legs with carried time.
    let e1 = brute_force_minutes(
        &field,
        (0, field.start_col as i64),
        0,
        (field.max_row as i64 + 1, field.end_col as i64),
    );
    let e2 = brute_force_minutes(
        &field,
        (field.max_row as i64 + 1, field.end_col as i64),
        e1,
        (0, field.start_col as i64),
    );
    let e3 = brute_force_minutes(
        &field,
        (0, field.start_col as i64),
        e2,
        (field.max_row as i64 + 1, field.end_col as i64),
    );
    assert_eq!(first.time as i64, e1);
    assert_eq!(second.time as i64, e2);
    assert_eq!(third.time as i64, e3);
    assert_eq!(third.time, 54);
}

#[test]
fn snapshot_openness_matches_projection() {
    let field = parse_snowfield(DRAWING).unwrap();
    for minute in 0..20usize {
        let snap = field.snapshot(minute);
        let cells = blizzards_at(&field, minute as i64);
        for r in 1..=field.max_row {
            for c in 1..=field.max_col {
                let open = snap.is_open(Point::new(r, c));
                assert_eq!(open, !cells.contains(&(r as i64, c as i64)));
            }
        }
        // The two portals are always open.
        assert!(snap.is_open(Point::new(0, field.start_col)));
        assert!(snap.is_open(Point::new(field.max_row + 1, field.end_col)));
        // The walls are not.
        assert!(!snap.is_open(Point::new(1, 0)));
    }
}
