//! A game of keep-away: monkeys inspect items, grow the worry value by a
//! fixed operation, and throw each item to the monkey chosen by a
//! divisibility test.  One variant divides the worry by three after each
//! inspection; the other reduces it modulo the product of all divisors.

use vstd::prelude::*;

verus! {

/// The worry modulus of the second variant: the product of every monkey's
/// test divisor, so reducing by it preserves all the divisibility tests.
pub open spec fn worry_modulus() -> int {
    9_699_690
}

/// A monkey's inspection operation on the worry value.
#[derive(Clone, Copy, Debug, PartialEq, Eq, Structural)]
pub enum Operation {
    Add(u64),
    Mul(u64),
    Square,
}

/// The mathematical result of applying `op` to `x`.
pub open spec fn op_result(op: Operation, x: int) -> int {
    match op {
        Operation::Add(k) => x + k,
        Operation::Mul(k) => x * k,
        Operation::Square => x * x,
    }
}

/// A monkey's throw test: where an item goes, by divisibility.
#[derive(Clone, Copy, Debug, PartialEq, Eq, Structural)]
pub struct ThrowTest {
    pub divisor: u64,
    pub if_true: usize,
    pub if_false: usize,
}

/// The monkey a tested worry value is thrown to.
pub open spec fn test_target(t: ThrowTest, x: int) -> int {
    if x % (t.divisor as int) == 0 {
        t.if_true as int
    } else {
        t.if_false as int
    }
}

/// One monkey: its queued items, its operation and test, and how many
/// items it has inspected.
pub struct Monkey {
    pub items: Vec<u64>,
    pub operation: Operation,
    pub test: ThrowTest,
    pub inspected: usize,
}

/// One item in flight: where it goes and its worry value.
#[derive(Clone, Copy, Debug, PartialEq, Eq, Structural)]
pub struct Throw {
    pub target: usize,
    pub item: u64,
}

impl Throw {
    /// Builds a throw of `item` to monkey `target`.
    pub fn new(target: usize, item: u64) -> (t: Self)
        ensures
            t == (Throw { target, item }),
    {
        Self { target, item }
    }
}

impl Monkey {
    /// A monkey holding `items`, with no inspections yet.
    pub fn new(items: Vec<u64>, operation: Operation, test: ThrowTest) -> (m: Self)
        ensures
            m.items@ == items@,
            m.operation == operation,
            m.test == test,
            m.inspected == 0,
    {
        Self { items, operation, test, inspected: 0 }
    }

    /// Inspects the oldest queued item under the worn-down rules: the worry
    /// grows by the operation and then shrinks to a third.  `None` when the
    /// queue is empty or the grown worry would not fit the worry type.
    pub fn inspect_next(&mut self) -> (r: Option<Throw>)
        requires
            old(self).test.divisor > 0,
            old(self).inspected < usize::MAX,
        ensures
            final(self).operation == old(self).operation,
            final(self).test == old(self).test,
            match r {
                Some(t) => {
                    &&& old(self).items@.len() > 0
                    &&& final(self).items@ == old(self).items@.drop_first()
                    &&& final(self).inspected == old(self).inspected + 1
                    &&& t.item == op_result(old(self).operation, old(self).items@[0] as int) / 3
                    &&& t.target == test_target(old(self).test, t.item as int)
                },
                None => {
                    &&& final(self).items@ == old(self).items@
                    &&& final(self).inspected == old(self).inspected
                    &&& (old(self).items@.len() == 0 || op_result(
                        old(self).operation,
                        old(self).items@[0] as int,
                    ) > u64::MAX as int)
                },
            },
    {
        if self.items.len() == 0 {
            return None;
        }
        let starting_worry = self.items[0];
        let grown: u64 = match self.operation {
            Operation::Add(k) => {
                match starting_worry.checked_add(k) {
                    Some(v) => v,
                    None => {
                        return None;
                    },
                }
            },
            Operation::Mul(k) => {
                match starting_worry.checked_mul(k) {
                    Some(v) => v,
                    None => {
                        return None;
                    },
                }
            },
            Operation::Square => {
                match starting_worry.checked_mul(starting_worry) {
                    Some(v) => v,
                    None => {
                        return None;
                    },
                }
            },
        };
        let after_inspecting = grown / 3;
        self.items.remove(0);
        proof {
            assert(self.items@ =~= old(self).items@.drop_first());
        }
        self.inspected = self.inspected + 1;
        let target = if after_inspecting % self.test.divisor == 0 {
            self.test.if_true
        } else {
            self.test.if_false
        };
        Some(Throw::new(target, after_inspecting))
    }

    /// Inspects the oldest queued item under the second variant: the worry
    /// grows by the operation and is reduced modulo the shared worry
    /// modulus, which keeps every divisibility test unchanged.
    pub fn inspect_next_part2(&mut self) -> (r: Option<Throw>)
        requires
            old(self).test.divisor > 0,
            old(self).inspected < usize::MAX,
        ensures
            final(self).operation == old(self).operation,
            final(self).test == old(self).test,
            match r {
                Some(t) => {
                    &&& old(self).items@.len() > 0
                    &&& final(self).items@ == old(self).items@.drop_first()
                    &&& final(self).inspected == old(self).inspected + 1
                    &&& t.item == op_result(old(self).operation, old(self).items@[0] as int)
                        % worry_modulus()
                    &&& t.target == test_target(old(self).test, t.item as int)
                },
                None => {
                    &&& final(self).items@ == old(self).items@
                    &&& final(self).inspected == old(self).inspected
                    &&& (old(self).items@.len() == 0 || op_result(
                        old(self).operation,
                        old(self).items@[0] as int,
                    ) > u64::MAX as int)
                },
            },
    {
        if self.items.len() == 0 {
            return None;
        }
        let starting_worry = self.items[0];
        let grown: u64 = match self.operation {
            Operation::Add(k) => {
                match starting_worry.checked_add(k) {
                    Some(v) => v,
                    None => {
                        return None;
                    },
                }
            },
            Operation::Mul(k) => {
                match starting_worry.checked_mul(k) {
                    Some(v) => v,
                    None => {
                        return None;
                    },
                }
            },
            Operation::Square => {
                match starting_worry.checked_mul(starting_worry) {
                    Some(v) => v,
                    None => {
                        return None;
                    },
                }
            },
        };
        let after_inspecting = grown % 9_699_690;
        self.items.remove(0);
        proof {
            assert(self.items@ =~= old(self).items@.drop_first());
        }
        self.inspected = self.inspected + 1;
        let target = if after_inspecting % self.test.divisor == 0 {
            self.test.if_true
        } else {
            self.test.if_false
        };
        Some(Throw::new(target, after_inspecting))
    }

    /// Queues a caught item.
    pub fn catch(&mut self, item: u64)
        ensures
            final(self).items@ == old(self).items@.push(item),
            final(self).operation == old(self).operation,
            final(self).test == old(self).test,
            final(self).inspected == old(self).inspected,
    {
        self.items.push(item);
    }

    /// How many items this monkey has inspected.
    pub fn num_inspected(&self) -> (n: usize)
        ensures
            n == self.inspected,
    {
        self.inspected
    }
}

/// The whole game.
pub struct KeepAway {
    pub monkeys: Vec<Monkey>,
}

/// The two largest inspection counts among the first `i` monkeys, largest
/// first.
pub open spec fn top_two(ms: Seq<Monkey>, i: int) -> (int, int)
    decreases i,
{
    if i <= 0 {
        (0, 0)
    } else {
        let (most, second) = top_two(ms, i - 1);
        let n = ms[i - 1].inspected as int;
        if n > most {
            (n, most)
        } else if n > second {
            (most, n)
        } else {
            (most, second)
        }
    }
}

impl KeepAway {
    /// Every monkey's test sends items to a real monkey, divides by a
    /// positive divisor that divides the worry modulus, and has room to
    /// count more inspections.
    pub open spec fn wf(&self) -> bool {
        forall|i: int|
            0 <= i < self.monkeys@.len() ==> (#[trigger] self.monkeys@[i]).test.divisor > 0
                && self.monkeys@[i].test.if_true < self.monkeys@.len()
                && self.monkeys@[i].test.if_false < self.monkeys@.len()
    }

    /// The fixed troop of eight monkeys this game is played with, with
    /// their starting items, operations and tests: exactly the listed
    /// queues, nothing inspected yet, and no monkey throwing to itself.
    pub fn new() -> (g: Self)
        ensures
            g.wf(),
            g.monkeys@.len() == 8,
            forall|i: int| 0 <= i < 8 ==> (#[trigger] g.monkeys@[i]).inspected == 0,
            forall|i: int|
                0 <= i < 8 ==> (#[trigger] g.monkeys@[i]).test.if_true != i && g.monkeys@[i].test.if_false != i,
            g.monkeys@[0].items@ =~= seq![56u64, 56u64, 92u64, 65u64, 71u64, 61u64, 79u64],
            g.monkeys@[0].operation == Operation::Mul(7u64),
            g.monkeys@[0].test == (ThrowTest { divisor: 3, if_true: 3, if_false: 7 }),
            g.monkeys@[1].items@ =~= seq![61u64, 85u64],
            g.monkeys@[1].operation == Operation::Add(5u64),
            g.monkeys@[1].test == (ThrowTest { divisor: 11, if_true: 6, if_false: 4 }),
            g.monkeys@[2].items@ =~= seq![54u64, 96u64, 82u64, 78u64, 69u64],
            g.monkeys@[2].operation == Operation::Square,
            g.monkeys@[2].test == (ThrowTest { divisor: 7, if_true: 0, if_false: 7 }),
            g.monkeys@[3].items@ =~= seq![57u64, 59u64, 65u64, 95u64],
            g.monkeys@[3].operation == Operation::Add(4u64),
            g.monkeys@[3].test == (ThrowTest { divisor: 2, if_true: 5, if_false: 1 }),
            g.monkeys@[4].items@ =~= seq![62u64, 67u64, 80u64],
            g.monkeys@[4].operation == Operation::Mul(17u64),
            g.monkeys@[4].test == (ThrowTest { divisor: 19, if_true: 2, if_false: 6 }),
            g.monkeys@[5].items@ =~= seq![91u64],
            g.monkeys@[5].operation == Operation::Add(7u64),
            g.monkeys@[5].test == (ThrowTest { divisor: 5, if_true: 1, if_false: 4 }),
            g.monkeys@[6].items@ =~= seq![79u64, 83u64, 64u64, 52u64, 77u64, 56u64, 63u64, 92u64],
            g.monkeys@[6].operation == Operation::Add(6u64),
            g.monkeys@[6].test == (ThrowTest { divisor: 17, if_true: 2, if_false: 0 }),
            g.monkeys@[7].items@ =~= seq![50u64, 97u64, 76u64, 96u64, 80u64, 56u64],
            g.monkeys@[7].operation == Operation::Add(3u64),
            g.monkeys@[7].test == (ThrowTest { divisor: 13, if_true: 3, if_false: 5 }),
    {
        let mut monkeys: Vec<Monkey> = Vec::new();
        monkeys.push(
            Monkey::new(
                vec![56, 56, 92, 65, 71, 61, 79],
                Operation::Mul(7),
                ThrowTest { divisor: 3, if_true: 3, if_false: 7 },
            ),
        );
        monkeys.push(
            Monkey::new(
                vec![61, 85],
                Operation::Add(5),
                ThrowTest { divisor: 11, if_true: 6, if_false: 4 },
            ),
        );
        monkeys.push(
            Monkey::new(
                vec![54, 96, 82, 78, 69],
                Operation::Square,
                ThrowTest { divisor: 7, if_true: 0, if_false: 7 },
            ),
        );
        monkeys.push(
            Monkey::new(
                vec![57, 59, 65, 95],
                Operation::Add(4),
                ThrowTest { divisor: 2, if_true: 5, if_false: 1 },
            ),
        );
        monkeys.push(
            Monkey::new(
                vec![62, 67, 80],
                Operation::Mul(17),
                ThrowTest { divisor: 19, if_true: 2, if_false: 6 },
            ),
        );
        monkeys.push(
            Monkey::new(
                vec![91],
                Operation::Add(7),
                ThrowTest { divisor: 5, if_true: 1, if_false: 4 },
            ),
        );
        monkeys.push(
            Monkey::new(
                vec![79, 83, 64, 52, 77, 56, 63, 92],
                Operation::Add(6),
                ThrowTest { divisor: 17, if_true: 2, if_false: 0 },
            ),
        );
        monkeys.push(
            Monkey::new(
                vec![50, 97, 76, 96, 80, 56],
                Operation::Add(3),
                ThrowTest { divisor: 13, if_true: 3, if_false: 5 },
            ),
        );
        let g = KeepAway { monkeys };
        proof {
            assert(g.monkeys@.len() == 8);
            assert forall|i: int| 0 <= i < 8 implies (#[trigger] g.monkeys@[i]).test.divisor > 0
                && g.monkeys@[i].test.if_true < 8 && g.monkeys@[i].test.if_false < 8 by {
            }
        }
        g
    }

    /// Monkey `index` inspects and throws its queued items in turn, up to
    /// a generous per-turn budget.  The game stays well formed and no
    /// monkey disappears.
    pub fn take_turn(&mut self, index: usize)
        requires
            old(self).wf(),
            index < old(self).monkeys@.len(),
            old(self).monkeys@[index as int].items@.len() < 100_000,
        ensures
            final(self).wf(),
            final(self).monkeys@.len() == old(self).monkeys@.len(),
    {
        let mut budget: usize = 100_000;
        loop
            invariant
                self.wf(),
                index < self.monkeys@.len(),
                self.monkeys@.len() == old(self).monkeys@.len(),
                0 <= budget,
            ensures
                self.wf(),
                self.monkeys@.len() == old(self).monkeys@.len(),
            decreases budget,
        {
            if budget == 0 {
                break ;
            }
            budget = budget - 1;
            if self.monkeys[index].num_inspected() >= usize::MAX - 1 {
                break ;
            }
            let ghost ms0 = self.monkeys@;
            let monkey = &mut self.monkeys[index];
            let thrown = monkey.inspect_next();
            proof {
                assert forall|i: int|
                    0 <= i < self.monkeys@.len() implies (#[trigger] self.monkeys@[i]).test.divisor
                    > 0 && self.monkeys@[i].test.if_true < self.monkeys@.len()
                    && self.monkeys@[i].test.if_false < self.monkeys@.len() by {
                    if i != index {
                        assert(self.monkeys@[i] == ms0[i]);
                    }
                }
            }
            match thrown {
                Some(throw) => {
                    let ghost ms1 = self.monkeys@;
                    let catcher = &mut self.monkeys[throw.target];
                    catcher.catch(throw.item);
                    proof {
                        assert forall|i: int|
                            0 <= i < self.monkeys@.len() implies (
                        #[trigger] self.monkeys@[i]).test.divisor > 0
                            && self.monkeys@[i].test.if_true < self.monkeys@.len()
                            && self.monkeys@[i].test.if_false < self.monkeys@.len() by {
                            if i != throw.target {
                                assert(self.monkeys@[i] == ms1[i]);
                            }
                        }
                    }
                },
                None => {
                    break ;
                },
            }
        }
    }

    /// Every monkey takes one turn, in order.
    pub fn take_round(&mut self)
        requires
            old(self).wf(),
        ensures
            final(self).wf(),
            final(self).monkeys@.len() == old(self).monkeys@.len(),
    {
        let mut index: usize = 0;
        while index < self.monkeys.len()
            invariant
                self.wf(),
                self.monkeys@.len() == old(self).monkeys@.len(),
                0 <= index,
            decreases self.monkeys@.len() - index,
        {
            if self.monkeys[index].items.len() < 100_000 {
                self.take_turn(index);
            }
            index = index + 1;
        }
    }

    /// Monkey `index` inspects and throws its queued items under the
    /// second variant, up to the same per-turn budget.
    pub fn take_turn_part2(&mut self, index: usize)
        requires
            old(self).wf(),
            index < old(self).monkeys@.len(),
            old(self).monkeys@[index as int].items@.len() < 100_000,
        ensures
            final(self).wf(),
            final(self).monkeys@.len() == old(self).monkeys@.len(),
    {
        let mut budget: usize = 100_000;
        loop
            invariant
                self.wf(),
                index < self.monkeys@.len(),
                self.monkeys@.len() == old(self).monkeys@.len(),
                0 <= budget,
            ensures
                self.wf(),
                self.monkeys@.len() == old(self).monkeys@.len(),
            decreases budget,
        {
            if budget == 0 {
                break ;
            }
            budget = budget - 1;
            if self.monkeys[index].num_inspected() >= usize::MAX - 1 {
                break ;
            }
            let ghost ms0 = self.monkeys@;
            let monkey = &mut self.monkeys[index];
            let thrown = monkey.inspect_next_part2();
            proof {
                assert forall|i: int|
                    0 <= i < self.monkeys@.len() implies (#[trigger] self.monkeys@[i]).test.divisor
                    > 0 && self.monkeys@[i].test.if_true < self.monkeys@.len()
                    && self.monkeys@[i].test.if_false < self.monkeys@.len() by {
                    if i != index {
                        assert(self.monkeys@[i] == ms0[i]);
                    }
                }
            }
            match thrown {
                Some(throw) => {
                    let ghost ms1 = self.monkeys@;
                    let catcher = &mut self.monkeys[throw.target];
                    catcher.catch(throw.item);
                    proof {
                        assert forall|i: int|
                            0 <= i < self.monkeys@.len() implies (
                        #[trigger] self.monkeys@[i]).test.divisor > 0
                            && self.monkeys@[i].test.if_true < self.monkeys@.len()
                            && self.monkeys@[i].test.if_false < self.monkeys@.len() by {
                            if i != throw.target {
                                assert(self.monkeys@[i] == ms1[i]);
                            }
                        }
                    }
                },
                None => {
                    break ;
                },
            }
        }
    }

    /// Every monkey takes one turn of the second variant, in order.
    pub fn take_round_part2(&mut self)
        requires
            old(self).wf(),
        ensures
            final(self).wf(),
            final(self).monkeys@.len() == old(self).monkeys@.len(),
    {
        let mut index: usize = 0;
        while index < self.monkeys.len()
            invariant
                self.wf(),
                self.monkeys@.len() == old(self).monkeys@.len(),
                0 <= index,
            decreases self.monkeys@.len() - index,
        {
            if self.monkeys[index].items.len() < 100_000 {
                self.take_turn_part2(index);
            }
            index = index + 1;
        }
    }

    /// The two largest inspection counts, largest first.
    pub fn most_active(&self) -> (r: (usize, usize))
        ensures
            (r.0 as int, r.1 as int) == top_two(self.monkeys@, self.monkeys@.len() as int),
    {
        let mut most: usize = 0;
        let mut second: usize = 0;
        let mut i: usize = 0;
        while i < self.monkeys.len()
            invariant
                0 <= i <= self.monkeys@.len(),
                (most as int, second as int) == top_two(self.monkeys@, i as int),
            decreases self.monkeys@.len() - i,
        {
            let n = self.monkeys[i].num_inspected();
            if n > most {
                second = most;
                most = n;
            } else if n > second {
                second = n;
            }
            i = i + 1;
        }
        (most, second)
    }
}

} // verus!
