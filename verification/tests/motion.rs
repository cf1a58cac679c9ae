//! Rope dragging and the CPU observation log.

use bestfirst::day_09::{parse_moves, Rope};
use bestfirst::day_10::{parse_instructions, Communicator, Instruction};

fn run_rope(knots: usize, moves_text: &str) -> usize {
    let mut rope = Rope::new(knots);
    for mv in parse_moves(moves_text).unwrap() {
        for _ in 0..mv.count {
            rope.move_head(mv.direction);
        }
    }
    rope.visited.len()
}

#[test]
fn short_rope_tail_visits() {
    assert_eq!(run_rope(2, "R 4\nU 4\nL 3\nD 1\nR 4\nD 1\nL 5\nR 2"), 13);
}

#[test]
fn long_rope_tail_visits() {
    assert_eq!(run_rope(10, "R 5\nU 8\nL 8\nD 3\nR 17\nD 10\nL 25\nU 20"), 36);
}

#[test]
fn cpu_observation_log() {
    let mut comm = Communicator::new();
    for instr in parse_instructions("noop\naddx 3\naddx -5").unwrap() {
        comm.execute_instruction(instr);
    }
    assert_eq!(comm.samples, vec![(1, 1), (2, 1), (3, 1), (4, 4), (5, 4), (6, -1)]);
    assert_eq!(comm.register, -1);
    assert_eq!(comm.cycle, 6);
    assert!(parse_instructions("addx five").is_none());
    assert_eq!(
        parse_instructions("noop").unwrap(),
        vec![Instruction::Noop]
    );
}
