//! The keep-away game, checked against an independent simulation.

use bestfirst::day_11::{KeepAway, Monkey, Operation, Throw, ThrowTest};

/// The same troop, simulated directly: (items, op, divisor, if_true,
/// if_false) with op encoded as (kind, k): 0 add, 1 mul, 2 square.
fn troop() -> Vec<(Vec<u64>, (u8, u64), u64, usize, usize)> {
    vec![
        (vec![56, 56, 92, 65, 71, 61, 79], (1, 7), 3, 3, 7),
        (vec![61, 85], (0, 5), 11, 6, 4),
        (vec![54, 96, 82, 78, 69], (2, 0), 7, 0, 7),
        (vec![57, 59, 65, 95], (0, 4), 2, 5, 1),
        (vec![62, 67, 80], (1, 17), 19, 2, 6),
        (vec![91], (0, 7), 5, 1, 4),
        (vec![79, 83, 64, 52, 77, 56, 63, 92], (0, 6), 17, 2, 0),
        (vec![50, 97, 76, 96, 80, 56], (0, 3), 13, 3, 5),
    ]
}

fn simulate(rounds: usize, part2: bool) -> Vec<usize> {
    let mut monkeys = troop();
    let mut inspected = vec![0usize; monkeys.len()];
    for _ in 0..rounds {
        for m in 0..monkeys.len() {
            let items = std::mem::take(&mut monkeys[m].0);
            for item in items {
                inspected[m] += 1;
                let (kind, k) = monkeys[m].1;
                let grown = match kind {
                    0 => item + k,
                    1 => item * k,
                    _ => item * item,
                };
                let worry = if part2 { grown % 9_699_690 } else { grown / 3 };
                let target = if worry % monkeys[m].2 == 0 {
                    monkeys[m].3
                } else {
                    monkeys[m].4
                };
                monkeys[target].0.push(worry);
            }
        }
    }
    inspected
}

fn top_two(mut counts: Vec<usize>) -> (usize, usize) {
    counts.sort_unstable_by(|a, b| b.cmp(a));
    (counts[0], counts[1])
}

#[test]
fn single_inspection_is_exact() {
    let mut monkey = Monkey::new(
        vec![56],
        Operation::Mul(7),
        ThrowTest {
            divisor: 3,
            if_true: 3,
            if_false: 7,
        },
    );
    // 56 * 7 = 392, divided by three is 130, which is not divisible by 3.
    assert_eq!(monkey.inspect_next(), Some(Throw::new(7, 130)));
    assert_eq!(monkey.num_inspected(), 1);
    assert_eq!(monkey.inspect_next(), None);
    let caught = Throw::new(1, 9);
    monkey.catch(caught.item);
    assert_eq!(monkey.inspect_next(), Some(Throw::new(3, 21)));
}

#[test]
fn twenty_worn_down_rounds_match_simulation() {
    let mut game = KeepAway::new();
    for _ in 0..20 {
        game.take_round();
    }
    assert_eq!(game.most_active(), top_two(simulate(20, false)));
}

#[test]
fn ten_thousand_modular_rounds_match_simulation() {
    let mut game = KeepAway::new();
    for _ in 0..10_000 {
        game.take_round_part2();
    }
    assert_eq!(game.most_active(), top_two(simulate(10_000, true)));
}
