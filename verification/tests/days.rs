//! Assorted puzzle-module behavior on concrete inputs.

use bestfirst::day_02::Play;
use bestfirst::day_03::{badge_item, priority, shared_item};
use bestfirst::day_04::{has_any_overlap, is_completely_overlapping, parse_assignment, parse_pair};
use bestfirst::day_05::{parse_moves, Stacks};
use bestfirst::day_06::Communicator;
use bestfirst::day_14::{parse_rock, SandResult};
use bestfirst::day_15::{parse_sensors, RangeCollection, Span};
use bestfirst::day_18::parse_droplet;
use bestfirst::day_23::parse_forest;
use bestfirst::day_01::parse_calories;
use bestfirst::day_25::SnafuNumber;

#[test]
fn play_decoding_and_scores() {
    assert_eq!(Play::for_opponent("A"), Play::Rock);
    assert_eq!(Play::for_opponent("B"), Play::Paper);
    assert_eq!(Play::for_opponent("C"), Play::Scissors);
    assert_eq!(Play::for_player("X"), Play::Rock);
    assert_eq!(Play::for_player("Z"), Play::Scissors);
    assert_eq!(Play::Paper.value(), 2);
    assert_eq!(Play::Paper.outcome(Play::Rock), 6);
    assert_eq!(Play::Rock.outcome(Play::Paper), 0);
    assert_eq!(Play::Scissors.outcome(Play::Scissors), 3);
    // Round scores of the classic sample: 8, 1 and 6.
    let p1 = Play::for_player("Y");
    assert_eq!(p1.value() + p1.outcome(Play::for_opponent("A")), 8);
    let p2 = Play::for_player("X");
    assert_eq!(p2.value() + p2.outcome(Play::for_opponent("B")), 1);
    let p3 = Play::for_player("Z");
    assert_eq!(p3.value() + p3.outcome(Play::for_opponent("C")), 6);
    // Desired-result decoding: 4, 1 and 7.
    let q1 = Play::for_player_result("Y", Play::for_opponent("A"));
    assert_eq!(q1.value() + q1.outcome(Play::Rock), 4);
    let q2 = Play::for_player_result("X", Play::for_opponent("B"));
    assert_eq!(q2.value() + q2.outcome(Play::Paper), 1);
    let q3 = Play::for_player_result("Z", Play::for_opponent("C"));
    assert_eq!(q3.value() + q3.outcome(Play::Scissors), 7);
}

#[test]
fn rucksack_items() {
    assert_eq!(shared_item("vJrwpWtwJgWrhcsFMMfFFhFp"), Some(b'p'));
    assert_eq!(shared_item("jqHRNqRjqzjGDLGLrsFMfFZSrLrFZsSL"), Some(b'L'));
    assert_eq!(shared_item("abcd"), None);
    assert_eq!(
        badge_item(
            "vJrwpWtwJgWrhcsFMMfFFhFp",
            "jqHRNqRjqzjGDLGLrsFMfFZSrLrFZsSL",
            "PmmdzqPrVvPwwTWBwg",
        ),
        Some(b'r'),
    );
    assert_eq!(priority(b'p'), 16);
    assert_eq!(priority(b'L'), 38);
    assert_eq!(priority(b'a'), 1);
    assert_eq!(priority(b'Z'), 52);
}

#[test]
fn assignment_overlaps() {
    let a = parse_assignment("2-4").unwrap();
    assert_eq!((a.start, a.end), (2, 4));
    assert!(parse_assignment("2-").is_none());
    assert!(parse_assignment("24").is_none());
    let (x, y) = parse_pair("2-8,3-7").unwrap();
    assert!(is_completely_overlapping(&x, &y));
    let (x, y) = parse_pair("2-4,6-8").unwrap();
    assert!(!is_completely_overlapping(&x, &y));
    assert!(!has_any_overlap(&x, &y));
    let (x, y) = parse_pair("5-7,7-9").unwrap();
    assert!(has_any_overlap(&x, &y));
}

#[test]
fn crane_moves_crates() {
    let layout = "    [D]    \n[N] [C]    \n[Z] [M] [P]\n 1   2   3 ";
    let moves = parse_moves(
        "move 1 from 2 to 1\nmove 3 from 1 to 3\nmove 2 from 2 to 1\nmove 1 from 1 to 2",
    )
    .unwrap();
    let mut stacks = Stacks::from_layout(layout).unwrap();
    for mv in &moves {
        stacks.apply_move(*mv);
    }
    assert_eq!(stacks.top_values(), "CMZ");

    let mut stacks = Stacks::from_layout(layout).unwrap();
    for mv in &moves {
        stacks.apply_move_9001(*mv);
    }
    assert_eq!(stacks.top_values(), "MCD");
}

/// Feeds a datastream to the detector and reports when the marker appears.
fn marker_position(stream: &str, window: usize) -> usize {
    let mut comm = Communicator::new(window);
    for chr in stream.chars() {
        comm.process_char(chr);
        if comm.has_start_marker() {
            return comm.chars_seen();
        }
    }
    0
}

#[test]
fn start_markers() {
    assert_eq!(marker_position("mjqjpqmgbljsphdztnvjfqwrcgsmlb", 4), 7);
    assert_eq!(marker_position("bvwbjplbgvbhsrlpgdmjqwftvncz", 4), 5);
    assert_eq!(marker_position("nppdvjthqldpwncqszvftbrmjlhg", 4), 6);
    assert_eq!(marker_position("mjqjpqmgbljsphdztnvjfqwrcgsmlb", 14), 19);
}

#[test]
fn sand_comes_to_rest() {
    let mut rock = parse_rock("498,4 -> 498,6 -> 496,6\n503,4 -> 502,4 -> 502,9 -> 494,9").unwrap();
    let mut count = 0;
    while matches!(rock.sand_unit(), SandResult::Stopped) {
        count += 1;
        assert!(count < 1_000);
    }
    assert_eq!(count, 24);

    let mut rock = parse_rock("498,4 -> 498,6 -> 496,6\n503,4 -> 502,4 -> 502,9 -> 494,9").unwrap();
    let mut count = 0;
    while matches!(rock.sand_unit_floor(), SandResult::Stopped) {
        count += 1;
        assert!(count < 1_000);
    }
    // The clogging unit itself still fills the source cell.
    assert_eq!(count + 1, 93);
}

#[test]
fn ranges_merge_and_measure() {
    let mut ranges = RangeCollection::new();
    ranges.add_range(Span { lo: 3, hi: 5 });
    ranges.add_range(Span { lo: 10, hi: 12 });
    ranges.add_range(Span { lo: 6, hi: 6 });
    // 3..=6 and 10..=12 are covered: 4 + 3 positions.
    assert_eq!(ranges.size(), 7);
    assert_eq!(ranges.gap(3, 12), Some(7));
    ranges.add_range(Span { lo: 7, hi: 9 });
    assert_eq!(ranges.size(), 10);
    assert_eq!(ranges.gap(3, 12), None);
}

#[test]
fn sensors_preclude_row_positions() {
    let sensors = parse_sensors(
        "Sensor at x=8, y=7: closest beacon is at x=2, y=10\nSensor at x=20, y=14: closest beacon is at x=25, y=17",
    )
    .unwrap();
    assert_eq!(sensors.len(), 2);
    let sp = sensors[0].precluded_x_range(10).unwrap();
    assert_eq!((sp.lo, sp.hi), (2, 14));
    assert!(sensors[0].precluded_x_range(-3).is_none());
    assert_eq!(sensors[0].distance_to_beacon(), 9);
}

#[test]
fn droplet_surface_areas() {
    let droplet = parse_droplet("1,1,1\n2,1,1").unwrap();
    assert_eq!(droplet.surface_area(), 10);

    let drawing = "2,2,2\n1,2,2\n3,2,2\n2,1,2\n2,3,2\n2,2,1\n2,2,3\n2,2,4\n2,2,6\n1,2,5\n3,2,5\n2,1,5\n2,3,5";
    let droplet = parse_droplet(drawing).unwrap();
    assert_eq!(droplet.surface_area(), 64);
    let outside = droplet.outside_blocks(1_000_000).unwrap();
    assert_eq!(droplet.exterior_surface_area(&outside), 58);
}

#[test]
fn elves_spread_out() {
    let mut forest = parse_forest(
        "....#..
..###.#
#...#.#
.#...##
#.###..
##.#.##
.#..#..",
    )
    .unwrap();
    for _ in 0..10 {
        forest.step();
    }
    assert_eq!(forest.free_space(), 110);
}

#[test]
fn elves_settle_down() {
    let mut forest = parse_forest(
        "....#..
..###.#
#...#.#
.#...##
#.###..
##.#.##
.#..#..",
    )
    .unwrap();
    let mut round = 1;
    while forest.step() {
        round += 1;
        assert!(round < 100);
    }
    assert_eq!(round, 20);
}

#[test]
fn snafu_round_trips() {
    let cases = [
        ("1=-0-2", 1747i64),
        ("12111", 906),
        ("2=0=", 198),
        ("21", 11),
        ("2=01", 201),
        ("111", 31),
        ("20012", 1257),
        ("112", 32),
        ("1=-1=", 353),
        ("1-12", 107),
        ("12", 7),
        ("1=", 3),
        ("122", 37),
    ];
    for (text, value) in cases {
        let n = SnafuNumber::from_str(text).unwrap();
        let mut acc = 0i64;
        for &d in n.digits.iter().rev() {
            acc = acc * 5 + d as i64;
        }
        assert_eq!(acc, value, "value of {text}");
        assert_eq!(n.into_str(), text, "round trip of {text}");
    }
    assert!(SnafuNumber::from_str("13").is_none());
}

#[test]
fn snafu_sum_of_sample() {
    let drawing = [
        "1=-0-2", "12111", "2=0=", "21", "2=01", "111", "20012", "112", "1=-1=", "1-12", "12",
        "1=", "122",
    ];
    let mut total = SnafuNumber::default();
    for text in drawing {
        total = total.add(SnafuNumber::from_str(text).unwrap());
    }
    assert_eq!(total.into_str(), "2=-1=0");
}

#[test]
fn calories_group_sums() {
    let v = parse_calories(
        "1000\n2000\n3000\n\n4000\n\n5000\n6000\n\n7000\n8000\n9000\n\n10000",
    )
    .unwrap();
    assert_eq!(v, vec![6000, 4000, 11000, 24000, 10000]);
    assert_eq!(v.iter().copied().max(), Some(24000));
    assert!(parse_calories("12\nab").is_none());
}
