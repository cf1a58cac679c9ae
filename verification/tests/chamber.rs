//! Falling rocks, checked against an independent simulation.

use bestfirst::day_17::{parse_jets, rocks, Cave, Jet, Rock, RockKind};
use std::collections::HashSet;

const JETS: &str = ">>><<><>><<<>><>>><<<>>><<<><<<>><>><<>>";

/// A direct simulation of the same chamber with a hash set.
fn simulate(jet_text: &str, count: usize) -> (usize, HashSet<(usize, usize)>) {
    let jets: Vec<char> = jet_text.chars().collect();
    let mut jet_i = 0usize;
    let mut blocked: HashSet<(usize, usize)> = HashSet::new();
    let mut max_y = 0usize;
    let shapes: [&[(usize, usize)]; 5] = [
        &[(0, 0), (1, 0), (2, 0), (3, 0)],
        &[(1, 0), (0, 1), (1, 1), (1, 2), (2, 1)],
        &[(0, 0), (1, 0), (2, 0), (2, 1), (2, 2)],
        &[(0, 0), (0, 1), (0, 2), (0, 3)],
        &[(0, 0), (0, 1), (1, 0), (1, 1)],
    ];
    let widths = [4usize, 3, 3, 1, 2];
    for r in 0..count {
        let shape = shapes[r % 5];
        let width = widths[r % 5];
        let (mut ox, mut oy) = (2usize, max_y + 4);
        loop {
            let push_left = jets[jet_i % jets.len()] == '<';
            jet_i += 1;
            let nx = if push_left {
                ox.checked_sub(1)
            } else if ox + width < 7 {
                Some(ox + 1)
            } else {
                None
            };
            if let Some(nx) = nx {
                if !shape.iter().any(|&(dx, dy)| blocked.contains(&(nx + dx, oy + dy))) {
                    ox = nx;
                }
            }
            let can_fall = oy > 1
                && !shape.iter().any(|&(dx, dy)| blocked.contains(&(ox + dx, oy - 1 + dy)));
            if can_fall {
                oy -= 1;
            } else {
                for &(dx, dy) in shape {
                    blocked.insert((ox + dx, oy + dy));
                    max_y = max_y.max(oy + dy);
                }
                break;
            }
        }
    }
    (max_y, blocked)
}

#[test]
fn pile_height_matches_simulation() {
    let jets = parse_jets(JETS).unwrap();
    assert_eq!(jets[0], Jet::Right);
    assert_eq!(jets[3], Jet::Left);
    assert!(parse_jets("<>x").is_none());

    let mut cave = Cave::new(jets);
    let order = rocks();
    for r in 0..200usize {
        cave.drop_rock(order[r % 5]);
    }
    let (expect_height, expect_blocked) = simulate(JETS, 200);
    assert_eq!(cave.max_y, expect_height);
    assert_eq!(cave.blocked.len(), expect_blocked.len());

    // The fingerprint of the top rows describes exactly the simulated pile.
    let hash = cave.hash_top();
    let chars: Vec<char> = hash.chars().collect();
    assert_eq!(chars.len(), 280);
    for k in 0..280usize {
        let x = k % 7;
        let y = cave.max_y - 39 + k / 7;
        let expected = if expect_blocked.contains(&(x, y)) { '#' } else { '.' };
        assert_eq!(chars[k], expected, "cell ({x}, {y})");
    }
}

#[test]
fn rock_moves_respect_walls() {
    let rock = Rock::new(RockKind::Horizontal, bestfirst::day_17::Point::new(0, 5));
    assert!(rock.move_left().is_none());
    let rock = Rock::new(RockKind::Horizontal, bestfirst::day_17::Point::new(3, 5));
    assert!(rock.move_right().is_none());
    let rock = Rock::new(RockKind::Vertical, bestfirst::day_17::Point::new(3, 1));
    assert!(rock.move_down().is_none());
    assert_eq!(rock.points().len(), 4);
}
