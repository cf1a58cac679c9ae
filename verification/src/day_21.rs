//! Monkeys shouting numbers and arithmetic: most monkeys compute an
//! operation over two other monkeys' values, one special monkey is an
//! unknown, and the riddle is which value of the unknown makes a chosen
//! monkey shout a chosen number.

use vstd::prelude::*;

verus! {

/// One monkey's job, with other monkeys named by index.
#[derive(Clone, Copy, Debug, PartialEq, Eq, Structural)]
pub enum MonkeyJob {
    Number(i64),
    Add(usize, usize),
    Sub(usize, usize),
    Mul(usize, usize),
    Div(usize, usize),
}

/// `v` fits the value type.
pub open spec fn fits(v: int) -> bool {
    i64::MIN <= v <= i64::MAX
}

/// Truncated division, as machine division rounds: toward zero.
pub open spec fn trunc_div(a: int, b: int) -> int {
    let q = abs_int(a) / abs_int(b);
    if (a < 0) != (b < 0) {
        -q
    } else {
        q
    }
}

/// The absolute value of `a`.
pub open spec fn abs_int(a: int) -> int {
    if a >= 0 {
        a
    } else {
        -a
    }
}

/// The value monkey `id` shouts when the unknown monkey `humn` shouts
/// `hv`: `None` on a missing monkey, an out-of-range intermediate value, a
/// division by zero, or when `fuel` recursion steps do not suffice.
pub open spec fn eval_with(ms: Seq<MonkeyJob>, humn: int, hv: int, id: int, fuel: nat) -> Option<
    int,
>
    decreases fuel,
{
    if fuel == 0 || !(0 <= id < ms.len()) {
        None
    } else if id == humn {
        Some(hv)
    } else {
        match ms[id] {
            MonkeyJob::Number(v) => Some(v as int),
            MonkeyJob::Add(a, b) => combine(
                eval_with(ms, humn, hv, a as int, (fuel - 1) as nat),
                eval_with(ms, humn, hv, b as int, (fuel - 1) as nat),
                MonkeyJob::Add(a, b),
            ),
            MonkeyJob::Sub(a, b) => combine(
                eval_with(ms, humn, hv, a as int, (fuel - 1) as nat),
                eval_with(ms, humn, hv, b as int, (fuel - 1) as nat),
                MonkeyJob::Sub(a, b),
            ),
            MonkeyJob::Mul(a, b) => combine(
                eval_with(ms, humn, hv, a as int, (fuel - 1) as nat),
                eval_with(ms, humn, hv, b as int, (fuel - 1) as nat),
                MonkeyJob::Mul(a, b),
            ),
            MonkeyJob::Div(a, b) => combine(
                eval_with(ms, humn, hv, a as int, (fuel - 1) as nat),
                eval_with(ms, humn, hv, b as int, (fuel - 1) as nat),
                MonkeyJob::Div(a, b),
            ),
        }
    }
}

/// Combines two optional operand values under the job's operation, failing
/// on out-of-range results and division by zero.
pub open spec fn combine(x: Option<int>, y: Option<int>, job: MonkeyJob) -> Option<int> {
    match (x, y) {
        (Some(a), Some(b)) => match job {
            MonkeyJob::Add(_, _) => if fits(a + b) {
                Some(a + b)
            } else {
                None
            },
            MonkeyJob::Sub(_, _) => if fits(a - b) {
                Some(a - b)
            } else {
                None
            },
            MonkeyJob::Mul(_, _) => if fits(a * b) {
                Some(a * b)
            } else {
                None
            },
            MonkeyJob::Div(_, _) => if b != 0 && a != i64::MIN {
                Some(trunc_div(a, b))
            } else {
                None
            },
            MonkeyJob::Number(_) => None,
        },
        _ => None,
    }
}

/// Machine division of `a` by `b`, rounding toward zero.
fn div_i64(a: i64, b: i64) -> (r: i64)
    requires
        b != 0,
        a > i64::MIN,
    ensures
        r == trunc_div(a as int, b as int),
        fits(trunc_div(a as int, b as int)),
{
    let am: u64 = if a >= 0 {
        a as u64
    } else {
        (-a) as u64
    };
    let bm: u64 = if b >= 0 {
        b as u64
    } else {
        if b == i64::MIN {
            9_223_372_036_854_775_808u64
        } else {
            (-b) as u64
        }
    };
    let q = am / bm;
    proof {
        assert(am == abs_int(a as int));
        assert(bm == abs_int(b as int));
        assert(q == abs_int(a as int) / abs_int(b as int));
        vstd::arithmetic::div_mod::lemma_fundamental_div_mod(am as int, bm as int);
        assert((q as int) <= (bm as int) * (q as int)) by (nonlinear_arith)
            requires
                q >= 0,
                bm >= 1,
        ;
        assert(q <= am);
    }
    if (a < 0) != (b < 0) {
        proof {
            assert(trunc_div(a as int, b as int) == -(q as int));
        }
        (-(q as i64)) as i64
    } else {
        q as i64
    }
}

/// The troop: the monkeys' jobs, and which monkey is the unknown.
pub struct MonkeyArray {
    pub monkeys: Vec<MonkeyJob>,
    pub humn: usize,
}

impl MonkeyArray {
    /// The value monkey `id` shouts, treating every monkey (the unknown
    /// included) as its listed job; exactly the mathematical evaluation
    /// wherever that stays in range, runs into no division by zero, and
    /// needs at most `fuel` recursion steps.
    pub fn calculate(&self, id: usize, fuel: u64) -> (r: Option<i64>)
        ensures
            match r {
                Some(v) => eval_with(self.monkeys@, self.monkeys@.len() as int, 0, id as int, fuel as nat)
                    == Some(v as int),
                None => eval_with(self.monkeys@, self.monkeys@.len() as int, 0, id as int, fuel as nat)
                    is None,
            },
        decreases fuel,
    {
        // Passing the list length as the unknown index makes no monkey the
        // unknown: every index is its own job.
        self.calculate_with_index(self.monkeys.len(), 0, id, fuel)
    }

    /// The evaluation underlying both `calculate` and
    /// `calculate_with_unknown`: the monkey at `humn` shouts `hv` instead
    /// of its job.
    fn calculate_with_index(&self, humn: usize, hv: i64, id: usize, fuel: u64) -> (r: Option<i64>)
        ensures
            match r {
                Some(v) => eval_with(self.monkeys@, humn as int, hv as int, id as int, fuel as nat)
                    == Some(v as int),
                None => eval_with(self.monkeys@, humn as int, hv as int, id as int, fuel as nat)
                    is None,
            },
        decreases fuel,
    {
        if fuel == 0 || id >= self.monkeys.len() {
            return None;
        }
        if id == humn {
            return Some(hv);
        }
        let job = self.monkeys[id];
        match job {
            MonkeyJob::Number(v) => Some(v),
            MonkeyJob::Add(a, b) => {
                let x = self.calculate_with_index(humn, hv, a, fuel - 1)?;
                let y = self.calculate_with_index(humn, hv, b, fuel - 1)?;
                x.checked_add(y)
            },
            MonkeyJob::Sub(a, b) => {
                let x = self.calculate_with_index(humn, hv, a, fuel - 1)?;
                let y = self.calculate_with_index(humn, hv, b, fuel - 1)?;
                x.checked_sub(y)
            },
            MonkeyJob::Mul(a, b) => {
                let x = self.calculate_with_index(humn, hv, a, fuel - 1)?;
                let y = self.calculate_with_index(humn, hv, b, fuel - 1)?;
                x.checked_mul(y)
            },
            MonkeyJob::Div(a, b) => {
                let x = self.calculate_with_index(humn, hv, a, fuel - 1)?;
                let y = self.calculate_with_index(humn, hv, b, fuel - 1)?;
                if y == 0 || x == i64::MIN {
                    None
                } else {
                    Some(div_i64(x, y))
                }
            },
        }
    }

    /// The value monkey `id` shouts when it does not depend on the
    /// unknown: a result is independent of whatever the unknown shouts.
    /// A plain number monkey other than the unknown always succeeds.
    pub fn calculate_with_unknown(&self, id: usize, fuel: u64) -> (r: Option<i64>)
        ensures
            match r {
                Some(v) => forall|hv: int|
                    #[trigger] eval_with(self.monkeys@, self.humn as int, hv, id as int, fuel as nat)
                        == Some(v as int),
                None => true,
            },
            fuel >= 1 && (id as int) < self.monkeys@.len() && id != self.humn ==> (
            self.monkeys@[id as int] matches MonkeyJob::Number(v) ==> r == Some(v)),
        decreases fuel,
    {
        if fuel == 0 || id >= self.monkeys.len() {
            return None;
        }
        if id == self.humn {
            return None;
        }
        let job = self.monkeys[id];
        match job {
            MonkeyJob::Number(v) => {
                proof {
                    assert forall|hv: int| #[trigger] eval_with(
                        self.monkeys@,
                        self.humn as int,
                        hv,
                        id as int,
                        fuel as nat,
                    ) == Some(v as int) by {}
                }
                Some(v)
            },
            MonkeyJob::Add(a, b) => {
                let x = self.calculate_with_unknown(a, fuel - 1)?;
                let y = self.calculate_with_unknown(b, fuel - 1)?;
                let combined: Option<i64> = x.checked_add(y);
                match combined {
                    Some(v) => {
                        proof {
                            assert forall|hv: int| #[trigger] eval_with(
                                self.monkeys@,
                                self.humn as int,
                                hv,
                                id as int,
                                fuel as nat,
                            ) == Some(v as int) by {
                                assert(eval_with(
                                    self.monkeys@,
                                    self.humn as int,
                                    hv,
                                    a as int,
                                    (fuel - 1) as nat,
                                ) == Some(x as int));
                                assert(eval_with(
                                    self.monkeys@,
                                    self.humn as int,
                                    hv,
                                    b as int,
                                    (fuel - 1) as nat,
                                ) == Some(y as int));
                            }
                        }
                        Some(v)
                    },
                    None => None,
                }
            },
            MonkeyJob::Sub(a, b) => {
                let x = self.calculate_with_unknown(a, fuel - 1)?;
                let y = self.calculate_with_unknown(b, fuel - 1)?;
                let combined: Option<i64> = x.checked_sub(y);
                match combined {
                    Some(v) => {
                        proof {
                            assert forall|hv: int| #[trigger] eval_with(
                                self.monkeys@,
                                self.humn as int,
                                hv,
                                id as int,
                                fuel as nat,
                            ) == Some(v as int) by {
                                assert(eval_with(
                                    self.monkeys@,
                                    self.humn as int,
                                    hv,
                                    a as int,
                                    (fuel - 1) as nat,
                                ) == Some(x as int));
                                assert(eval_with(
                                    self.monkeys@,
                                    self.humn as int,
                                    hv,
                                    b as int,
                                    (fuel - 1) as nat,
                                ) == Some(y as int));
                            }
                        }
                        Some(v)
                    },
                    None => None,
                }
            },
            MonkeyJob::Mul(a, b) => {
                let x = self.calculate_with_unknown(a, fuel - 1)?;
                let y = self.calculate_with_unknown(b, fuel - 1)?;
                let combined: Option<i64> = x.checked_mul(y);
                match combined {
                    Some(v) => {
                        proof {
                            assert forall|hv: int| #[trigger] eval_with(
                                self.monkeys@,
                                self.humn as int,
                                hv,
                                id as int,
                                fuel as nat,
                            ) == Some(v as int) by {
                                assert(eval_with(
                                    self.monkeys@,
                                    self.humn as int,
                                    hv,
                                    a as int,
                                    (fuel - 1) as nat,
                                ) == Some(x as int));
                                assert(eval_with(
                                    self.monkeys@,
                                    self.humn as int,
                                    hv,
                                    b as int,
                                    (fuel - 1) as nat,
                                ) == Some(y as int));
                            }
                        }
                        Some(v)
                    },
                    None => None,
                }
            },
            MonkeyJob::Div(a, b) => {
                let x = self.calculate_with_unknown(a, fuel - 1)?;
                let y = self.calculate_with_unknown(b, fuel - 1)?;
                let combined: Option<i64> = if y == 0 || x == i64::MIN {
                    None
                } else {
                    Some(div_i64(x, y))
                };
                match combined {
                    Some(v) => {
                        proof {
                            assert forall|hv: int| #[trigger] eval_with(
                                self.monkeys@,
                                self.humn as int,
                                hv,
                                id as int,
                                fuel as nat,
                            ) == Some(v as int) by {
                                assert(eval_with(
                                    self.monkeys@,
                                    self.humn as int,
                                    hv,
                                    a as int,
                                    (fuel - 1) as nat,
                                ) == Some(x as int));
                                assert(eval_with(
                                    self.monkeys@,
                                    self.humn as int,
                                    hv,
                                    b as int,
                                    (fuel - 1) as nat,
                                ) == Some(y as int));
                            }
                        }
                        Some(v)
                    },
                    None => None,
                }
            },
        }
    }

    /// Solves for the unknown: a returned value, shouted by the unknown
    /// monkey, makes monkey `id` shout exactly `expected`.  The walk
    /// descends into whichever operand still depends on the unknown,
    /// checking each inverted candidate forward before trusting it.
    /// Asking about the unknown monkey itself always succeeds.
    pub fn determine_unknown(&self, id: usize, expected: i64, fuel: u64) -> (r: Option<i64>)
        ensures
            match r {
                Some(v) => eval_with(
                    self.monkeys@,
                    self.humn as int,
                    v as int,
                    id as int,
                    fuel as nat,
                ) == Some(expected as int),
                None => true,
            },
            fuel >= 1 && id == self.humn && (id as int) < self.monkeys@.len() ==> r == Some(
                expected,
            ),
        decreases fuel,
    {
        if fuel == 0 || id >= self.monkeys.len() {
            return None;
        }
        if id == self.humn {
            return Some(expected);
        }
        let job = self.monkeys[id];
        let (a, b) = match job {
            MonkeyJob::Number(_) => {
                return None;
            },
            MonkeyJob::Add(a, b) => (a, b),
            MonkeyJob::Sub(a, b) => (a, b),
            MonkeyJob::Mul(a, b) => (a, b),
            MonkeyJob::Div(a, b) => (a, b),
        };
        let first_val = self.calculate_with_unknown(a, fuel - 1);
        let second_val = self.calculate_with_unknown(b, fuel - 1);
        // Invert the operation for the operand that still depends on the
        // unknown, and confirm the candidate forward.
        let (branch, num, solved_first): (usize, i64, bool) = match (first_val, second_val) {
            (Some(num), None) => (b, num, true),
            (None, Some(num)) => (a, num, false),
            _ => {
                return None;
            },
        };
        let candidate: Option<i64> = match job {
            MonkeyJob::Number(_) => None,
            MonkeyJob::Add(_, _) => expected.checked_sub(num),
            MonkeyJob::Sub(_, _) => {
                if solved_first {
                    num.checked_sub(expected)
                } else {
                    expected.checked_add(num)
                }
            },
            MonkeyJob::Mul(_, _) => {
                if num == 0 || expected == i64::MIN {
                    None
                } else {
                    Some(div_i64(expected, num))
                }
            },
            MonkeyJob::Div(_, _) => {
                if solved_first {
                    if expected == 0 || num == i64::MIN {
                        None
                    } else {
                        Some(div_i64(num, expected))
                    }
                } else {
                    expected.checked_mul(num)
                }
            },
        };
        let cand = match candidate {
            Some(c) => c,
            None => {
                return None;
            },
        };
        // Forward check: with the sibling's value and the candidate, the
        // operation must give exactly the expected number.
        let forward: Option<i64> = match job {
            MonkeyJob::Number(_) => None,
            MonkeyJob::Add(_, _) => num.checked_add(cand),
            MonkeyJob::Sub(_, _) => {
                if solved_first {
                    num.checked_sub(cand)
                } else {
                    cand.checked_sub(num)
                }
            },
            MonkeyJob::Mul(_, _) => num.checked_mul(cand),
            MonkeyJob::Div(_, _) => {
                if solved_first {
                    if cand == 0 || num == i64::MIN {
                        None
                    } else {
                        Some(div_i64(num, cand))
                    }
                } else {
                    if num == 0 || cand == i64::MIN {
                        None
                    } else {
                        Some(div_i64(cand, num))
                    }
                }
            },
        };
        match forward {
            Some(f) => {
                if f != expected {
                    return None;
                }
            },
            None => {
                return None;
            },
        }
        let v = match self.determine_unknown(branch, cand, fuel - 1) {
            Some(v) => v,
            None => {
                return None;
            },
        };
        proof {
            let ms = self.monkeys@;
            let humn = self.humn as int;
            let solved = eval_with(ms, humn, v as int, branch as int, (fuel - 1) as nat);
            assert(solved == Some(cand as int));
            let op_a: int = if solved_first {
                num as int
            } else {
                cand as int
            };
            let op_b: int = if solved_first {
                cand as int
            } else {
                num as int
            };
            if solved_first {
                assert(eval_with(ms, humn, v as int, a as int, (fuel - 1) as nat) == Some(
                    num as int,
                ));
            } else {
                assert(eval_with(ms, humn, v as int, b as int, (fuel - 1) as nat) == Some(
                    num as int,
                ));
            }
            assert(eval_with(ms, humn, v as int, a as int, (fuel - 1) as nat) == Some(op_a));
            assert(eval_with(ms, humn, v as int, b as int, (fuel - 1) as nat) == Some(op_b));
            assert(combine(Some(op_a), Some(op_b), job) == Some(expected as int)) by {
                match job {
                    MonkeyJob::Number(_) => {
                        assert(false);
                    },
                    MonkeyJob::Add(_, _) => {
                        assert(op_a + op_b == expected as int);
                    },
                    MonkeyJob::Sub(_, _) => {
                        assert(op_a - op_b == expected as int);
                    },
                    MonkeyJob::Mul(_, _) => {
                        assert(op_a * op_b == expected as int);
                    },
                    MonkeyJob::Div(_, _) => {
                        assert(op_b != 0 && op_a != i64::MIN);
                        assert(trunc_div(op_a, op_b) == expected as int);
                    },
                }
            }
            assert(eval_with(ms, humn, v as int, id as int, fuel as nat) == Some(expected as int));
        }
        Some(v)
    }
}

/// The first index of `target` in `names`.
fn name_index(names: &Vec<Vec<u8>>, target: &Vec<u8>) -> (r: Option<usize>)
    ensures
        match r {
            Some(i) => i < names@.len() && names@[i as int]@ =~= target@,
            None => true,
        },
{
    let mut i: usize = 0;
    while i < names.len()
        invariant
            0 <= i <= names@.len(),
        decreases names@.len() - i,
    {
        let a = &names[i];
        if a.len() == target.len() {
            let mut j: usize = 0;
            let mut same = true;
            while j < a.len()
                invariant
                    0 <= j <= a@.len(),
                    i < names@.len(),
                    a@ == names@[i as int]@,
                    a@.len() == target@.len(),
                    same ==> forall|k: int| 0 <= k < j ==> a@[k] == target@[k],
                decreases a@.len() - j,
            {
                if a[j] != target[j] {
                    same = false;
                }
                j = j + 1;
            }
            if same {
                proof {
                    assert(a@ =~= target@);
                }
                return Some(i);
            }
        }
        i = i + 1;
    }
    None
}

/// Parses the troop: one `name: job` per line, where a job is a number or
/// `left op right` over two other monkeys' names.  Returns the troop (with
/// the unknown resolved to the monkey named `humn`, or past the end when
/// absent) and the index of the monkey named `root`.
pub fn parse_monkey_array(input: &str) -> (r: Option<(MonkeyArray, usize)>)
    ensures
        match r {
            Some((m, root)) => root < m.monkeys@.len() && m.humn <= m.monkeys@.len(),
            None => true,
        },
{
    if !input.is_ascii() {
        return None;
    }
    let bytes = input.as_bytes_vec();
    let lines = crate::text::split(&bytes, 10);
    let mut names: Vec<Vec<u8>> = Vec::new();
    let mut raw_jobs: Vec<Vec<u8>> = Vec::new();
    let mut i: usize = 0;
    while i < lines.len()
        invariant
            0 <= i <= lines@.len(),
            names@.len() == raw_jobs@.len(),
        decreases lines@.len() - i,
    {
        let parts = crate::text::split(&lines[i], 58);
        if parts.len() != 2 {
            return None;
        }
        let mut name: Vec<u8> = Vec::new();
        let mut k: usize = 0;
        let first = &parts[0];
        while k < first.len()
            invariant
                0 <= k <= first@.len(),
            decreases first@.len() - k,
        {
            name.push(first[k]);
            k = k + 1;
        }
        let mut job: Vec<u8> = Vec::new();
        let second = &parts[1];
        let mut k2: usize = 0;
        // The job text begins after ": "; drop the leading space.
        while k2 < second.len()
            invariant
                0 <= k2 <= second@.len(),
            decreases second@.len() - k2,
        {
            if k2 > 0 {
                job.push(second[k2]);
            }
            k2 = k2 + 1;
        }
        names.push(name);
        raw_jobs.push(job);
        i = i + 1;
    }
    let n = names.len();
    let mut monkeys: Vec<MonkeyJob> = Vec::new();
    let mut m: usize = 0;
    while m < raw_jobs.len()
        invariant
            0 <= m <= raw_jobs@.len(),
            names@.len() == raw_jobs@.len(),
            n == names@.len(),
            monkeys@.len() == m,
        decreases raw_jobs@.len() - m,
    {
        let words = crate::text::split(&raw_jobs[m], 32);
        if words.len() == 1 {
            let value = match crate::text::parse_i64(&words[0]) {
                Some(v) => v,
                None => {
                    return None;
                },
            };
            monkeys.push(MonkeyJob::Number(value));
        } else if words.len() == 3 {
            let left = match name_index(&names, &words[0]) {
                Some(ix) => ix,
                None => {
                    return None;
                },
            };
            let right = match name_index(&names, &words[2]) {
                Some(ix) => ix,
                None => {
                    return None;
                },
            };
            let op = &words[1];
            if op.len() != 1 {
                return None;
            }
            let job = if op[0] == 43 {
                MonkeyJob::Add(left, right)
            } else if op[0] == 45 {
                MonkeyJob::Sub(left, right)
            } else if op[0] == 42 {
                MonkeyJob::Mul(left, right)
            } else if op[0] == 47 {
                MonkeyJob::Div(left, right)
            } else {
                return None;
            };
            monkeys.push(job);
        } else {
            return None;
        }
        m = m + 1;
    }
    let mut humn_name: Vec<u8> = Vec::new();
    humn_name.push(104);
    humn_name.push(117);
    humn_name.push(109);
    humn_name.push(110);
    let humn = match name_index(&names, &humn_name) {
        Some(ix) => ix,
        None => n,
    };
    let mut root_name: Vec<u8> = Vec::new();
    root_name.push(114);
    root_name.push(111);
    root_name.push(111);
    root_name.push(116);
    let root = match name_index(&names, &root_name) {
        Some(ix) => ix,
        None => {
            return None;
        },
    };
    if root >= monkeys.len() || humn > monkeys.len() {
        return None;
    }
    Some((MonkeyArray { monkeys, humn }, root))
}

} // verus!
