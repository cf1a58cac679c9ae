//! The shouting-monkeys riddle.

use bestfirst::day_21::parse_monkey_array;

const RIDDLE: &str = "root: pppw + sjmn
dbpl: 5
cczh: sllz + lgvd
zczc: 2
ptdq: humn - dvpt
dvpt: 3
lfqf: 4
humn: 5
ljgn: 2
sjmn: drzm * dbpl
sllz: 4
lgvd: ljgn * ptdq
pppw: cczh / lfqf
drzm: hmdt - zczc
hmdt: 32";

#[test]
fn monkeys_shout_root() {
    let (troop, root) = parse_monkey_array(RIDDLE).unwrap();
    assert_eq!(troop.calculate(root, 100), Some(152));
}

#[test]
fn unknown_monkey_is_solved() {
    let (troop, root) = parse_monkey_array(RIDDLE).unwrap();
    // The root's two operands must come out equal; solve the side that
    // depends on the unknown against the other side's value.
    let (a, b) = match troop.monkeys[root] {
        bestfirst::day_21::MonkeyJob::Add(a, b) => (a, b),
        _ => panic!("the root adds its operands"),
    };
    let known = troop.calculate_with_unknown(b, 100).unwrap();
    let humn = troop.determine_unknown(a, known, 100).unwrap();
    assert_eq!(humn, 301);
    // Forward check through the full evaluation: shouting 301 makes the
    // two sides equal.
    let (mut troop2, _) = parse_monkey_array(RIDDLE).unwrap();
    troop2.monkeys[troop2.humn] = bestfirst::day_21::MonkeyJob::Number(humn);
    assert_eq!(troop2.calculate(a, 100), troop2.calculate(b, 100));
}

#[test]
fn fuel_runs_out_on_cycles() {
    let (troop, _) = parse_monkey_array("root: loop + loop\nloop: root * root").unwrap();
    assert_eq!(troop.calculate(0, 50), None);
}
