//! Forest scans and grid shortest paths.

use bestfirst::day_08::parse_forest;
use bestfirst::day_12::{parse_map, shortest_climb, Descent};
use bestfirst::dijkstra::{Dijkstra, StepResult};

/// The cost of a `Found` outcome.
fn found_cost(r: StepResult<bestfirst::day_12::Point>) -> Option<u64> {
    match r {
        StepResult::Found(_, c) => Some(c),
        _ => None,
    }
}

#[test]
fn test_scenic_score() {
    let forest = parse_forest(
        "30373
25512
65332
33549
35390",
    )
    .unwrap();

    assert_eq!(forest.scenic_score(1, 2), 4);
    assert_eq!(forest.scenic_score(3, 2), 8);
}

#[test]
fn visible_trees_in_sample_forest() {
    let mut forest = parse_forest(
        "30373
25512
65332
33549
35390",
    )
    .unwrap();
    let rows = forest.rows();
    let columns = forest.columns();
    for row in 0..rows {
        forest.scan_row(row);
        forest.scan_row_reverse(row);
    }
    for column in 0..columns {
        forest.scan_column(column);
        forest.scan_column_reverse(column);
    }
    assert_eq!(forest.count_visible(), 21);
}

#[test]
fn ragged_forest_is_rejected() {
    assert!(parse_forest("123\n45").is_none());
    assert!(parse_forest("12a\n456").is_none());
}

/// A plain breadth-first count of the same climb, for comparison.
fn bfs_steps(grid: &[&[u8]], start: (usize, usize), end: (usize, usize)) -> Option<usize> {
    let rows = grid.len();
    let cols = grid[0].len();
    let height = |r: usize, c: usize| -> i32 {
        match grid[r][c] {
            b'S' => 0,
            b'E' => 25,
            b => (b - b'a') as i32,
        }
    };
    let mut dist = vec![vec![usize::MAX; cols]; rows];
    let mut queue = std::collections::VecDeque::new();
    dist[start.0][start.1] = 0;
    queue.push_back(start);
    while let Some((r, c)) = queue.pop_front() {
        if (r, c) == end {
            return Some(dist[r][c]);
        }
        let h = height(r, c);
        let mut cands = Vec::new();
        if r > 0 {
            cands.push((r - 1, c));
        }
        if r + 1 < rows {
            cands.push((r + 1, c));
        }
        if c > 0 {
            cands.push((r, c - 1));
        }
        if c + 1 < cols {
            cands.push((r, c + 1));
        }
        for (nr, nc) in cands {
            if height(nr, nc) <= h + 1 && dist[nr][nc] == usize::MAX {
                dist[nr][nc] = dist[r][c] + 1;
                queue.push_back((nr, nc));
            }
        }
    }
    None
}

#[test]
fn climb_matches_breadth_first_count() {
    let drawing = "Sabqponm
abcryxxl
accszExk
acctuvwj
abdefghi";
    let (map, start, end) = parse_map(drawing).unwrap();
    let engine_steps = found_cost(shortest_climb(map, start, end, 100_000)).unwrap();
    let rows: Vec<&[u8]> = drawing.lines().map(|l| l.as_bytes()).collect();
    let bfs = bfs_steps(&rows, (0, 0), (2, 5)).unwrap();
    assert_eq!(engine_steps, bfs as u64);
    assert_eq!(engine_steps, 31);
}

#[test]
fn descent_reaches_nearest_ground() {
    // Walking down from the top, the nearest ground-level cell of the
    // classic sample is 29 steps away.
    let (map, _, top) = parse_map("Sabqponm\nabcryxxl\naccszExk\nacctuvwj\nabdefghi").unwrap();
    let space = Descent::new(map);
    let mut engine = Dijkstra::new(top, &space);
    let mut steps = 0;
    loop {
        match engine.step(&space) {
            StepResult::Found(_, c) => {
                steps = c;
                break;
            }
            StepResult::Advanced => {}
            StepResult::Exhausted => panic!("ground must be reachable"),
        }
    }
    assert_eq!(steps, 29);
}

#[test]
fn climb_to_unreachable_peak_finds_nothing() {
    // A wall of maximum height separates the start from the end.
    let (map, _, end) = parse_map("aazaE\naazaa\naazaa").unwrap();
    let start = bestfirst::day_12::Point::new(0, 0);
    assert!(matches!(
        shortest_climb(map, start, end, 100_000),
        StepResult::Exhausted
    ));
}
