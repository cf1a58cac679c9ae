//! A rope of knots on a grid: the head moves one step at a time, every
//! following knot is dragged after its predecessor, and the cells the tail
//! passes through are recorded.

use vstd::prelude::*;
use vstd::string::StringSliceAdditionalSpecFns;
use crate::text::{joined, sep_free};

verus! {

/// A grid cell.
#[derive(Clone, Copy, Debug, PartialEq, Eq, Structural)]
pub struct Point {
    pub x: isize,
    pub y: isize,
}

/// A direction of a head move.
#[derive(Clone, Copy, Debug, PartialEq, Eq, Structural)]
pub enum Direction {
    Up,
    Down,
    Left,
    Right,
}

/// The sign of `d`.
pub open spec fn sign(d: int) -> int {
    if d > 0 {
        1
    } else if d < 0 {
        -1
    } else {
        0
    }
}

/// The cell one step from `p` in `dir`.
pub open spec fn moved_to(p: Point, dir: Direction) -> Point {
    match dir {
        Direction::Up => Point { x: p.x, y: (p.y + 1) as isize },
        Direction::Down => Point { x: p.x, y: (p.y - 1) as isize },
        Direction::Left => Point { x: (p.x - 1) as isize, y: p.y },
        Direction::Right => Point { x: (p.x + 1) as isize, y: p.y },
    }
}

/// Where a knot at `p` settles after its predecessor moved to `t`: it stays
/// while still touching `t`, and otherwise takes one step toward it along
/// each axis.
pub open spec fn dragged(p: Point, t: Point) -> Point {
    if -1 <= t.x - p.x <= 1 && -1 <= t.y - p.y <= 1 {
        p
    } else {
        Point { x: (p.x + sign(t.x - p.x)) as isize, y: (p.y + sign(t.y - p.y)) as isize }
    }
}

/// The position of knot `i` after the head moved in `dir`, all knots
/// settling in order.
pub open spec fn settled(knots: Seq<Point>, dir: Direction, i: int) -> Point
    decreases i,
{
    if i <= 0 {
        moved_to(knots[0], dir)
    } else {
        dragged(knots[i], settled(knots, dir, i - 1))
    }
}

/// Adjacent knots touch: they differ by at most one along each axis.
pub open spec fn linked(knots: Seq<Point>) -> bool {
    forall|i: int|
        0 <= i < knots.len() - 1 ==> -1 <= (#[trigger] knots[i]).x - knots[i + 1].x <= 1 && -1
            <= knots[i].y - knots[i + 1].y <= 1
}

/// All knots sit within `b` of the origin along each axis.
pub open spec fn bounded(knots: Seq<Point>, b: int) -> bool {
    forall|i: int|
        0 <= i < knots.len() ==> -b <= (#[trigger] knots[i]).x <= b && -b <= knots[i].y <= b
}

/// `p` occurs in `s`.
pub open spec fn visited_cell(s: Seq<Point>, p: Point) -> bool {
    exists|i: int| 0 <= i < s.len() && #[trigger] s[i] == p
}

impl Point {
    /// Builds the cell `(x, y)`.
    pub fn new(x: isize, y: isize) -> (p: Self)
        ensures
            p == (Point { x, y }),
    {
        Self { x, y }
    }

    /// The cell one step in `dir`.
    pub fn shift(self, dir: Direction) -> (p: Self)
        requires
            -1_000_000_000 <= self.x <= 1_000_000_000,
            -1_000_000_000 <= self.y <= 1_000_000_000,
        ensures
            p == moved_to(self, dir),
    {
        match dir {
            Direction::Up => Point::new(self.x, self.y + 1),
            Direction::Down => Point::new(self.x, self.y - 1),
            Direction::Left => Point::new(self.x - 1, self.y),
            Direction::Right => Point::new(self.x + 1, self.y),
        }
    }

    /// One drag step toward `target`.
    pub fn move_closer(self, target: Self) -> (p: Self)
        requires
            -1_000_000_000 <= self.x <= 1_000_000_000,
            -1_000_000_000 <= self.y <= 1_000_000_000,
            -2 <= target.x - self.x <= 2,
            -2 <= target.y - self.y <= 2,
        ensures
            p == dragged(self, target),
            -1 <= target.x - p.x <= 1,
            -1 <= target.y - p.y <= 1,
            -1 <= p.x - self.x <= 1,
            -1 <= p.y - self.y <= 1,
    {
        let dx = target.x - self.x;
        let dy = target.y - self.y;
        if -1 <= dx && dx <= 1 && -1 <= dy && dy <= 1 {
            self
        } else {
            let sx: isize = if dx > 0 {
                1
            } else if dx < 0 {
                -1
            } else {
                0
            };
            let sy: isize = if dy > 0 {
                1
            } else if dy < 0 {
                -1
            } else {
                0
            };
            Point::new(self.x + sx, self.y + sy)
        }
    }
}

/// The rope: its knots, head first, and every cell the tail has rested on,
/// in first-visit order without repeats.
pub struct Rope {
    pub knots: Vec<Point>,
    pub visited: Vec<Point>,
}

impl Rope {
    /// Knots touch pairwise in order.
    pub open spec fn wf(&self) -> bool {
        &&& self.knots@.len() >= 1
        &&& linked(self.knots@)
    }

    /// A rope of `count` knots piled on the origin; the origin counts as
    /// visited.
    pub fn new(count: usize) -> (r: Self)
        requires
            count >= 1,
        ensures
            r.wf(),
            r.knots@.len() == count,
            forall|i: int| 0 <= i < count ==> (#[trigger] r.knots@[i]) == (Point { x: 0, y: 0 }),
            r.visited@ =~= seq![Point { x: 0isize, y: 0isize }],
            bounded(r.knots@, 0),
    {
        let origin = Point::new(0, 0);
        let knots: Vec<Point> = vec![origin; count];
        let mut visited: Vec<Point> = Vec::new();
        visited.push(origin);
        proof {
            assert(visited@ =~= seq![Point { x: 0isize, y: 0isize }]);
        }
        Self { knots, visited }
    }

    /// Moves the head one step and drags the rest of the rope after it; the
    /// tail's new cell joins the visited record if it is new.
    pub fn move_head(&mut self, direction: Direction)
        requires
            old(self).wf(),
            bounded(old(self).knots@, 1_000_000_000),
        ensures
            final(self).wf(),
            final(self).knots@.len() == old(self).knots@.len(),
            forall|i: int|
                0 <= i < old(self).knots@.len() ==> (#[trigger] final(self).knots@[i]) == settled(
                    old(self).knots@,
                    direction,
                    i,
                ),
            bounded(final(self).knots@, 1_000_000_001),
            ({
                let tail = settled(old(self).knots@, direction, old(self).knots@.len() - 1);
                if visited_cell(old(self).visited@, tail) {
                    final(self).visited@ == old(self).visited@
                } else {
                    final(self).visited@ == old(self).visited@.push(tail)
                }
            }),
    {
        let ghost knots0 = self.knots@;
        let moved = self.knots[0].shift(direction);
        self.knots.set(0, moved);
        let mut index: usize = 1;
        while index < self.knots.len()
            invariant
                1 <= index <= knots0.len(),
                knots0 == old(self).knots@,
                self.visited@ == old(self).visited@,
                self.knots@.len() == knots0.len(),
                linked(knots0),
                bounded(knots0, 1_000_000_000),
                forall|i: int|
                    0 <= i < index ==> (#[trigger] self.knots@[i]) == settled(knots0, direction, i),
                forall|i: int| index <= i < knots0.len() ==> #[trigger] self.knots@[i] == knots0[i],
                forall|i: int|
                    0 <= i < index ==> -1 <= (#[trigger] self.knots@[i]).x - knots0[i].x <= 1 && -1
                        <= self.knots@[i].y - knots0[i].y <= 1,
                forall|i: int|
                    0 <= i < index - 1 ==> -1 <= (#[trigger] self.knots@[i]).x - self.knots@[i
                        + 1].x <= 1 && -1 <= self.knots@[i].y - self.knots@[i + 1].y <= 1,
            decreases knots0.len() - index,
        {
            let prev = self.knots[index - 1];
            let here = self.knots[index];
            proof {
                assert(knots0[index - 1].x - knots0[index as int].x <= 1);
            }
            let dragged_knot = here.move_closer(prev);
            self.knots.set(index, dragged_knot);
            index = index + 1;
        }
        let tail = self.knots[self.knots.len() - 1];
        let mut seen = false;
        let mut k: usize = 0;
        while k < self.visited.len()
            invariant
                0 <= k <= self.visited@.len(),
                knots0 == old(self).knots@,
                self.visited@ == old(self).visited@,
                self.knots@.len() == knots0.len() >= 1,
                tail == settled(knots0, direction, knots0.len() - 1),
                linked(self.knots@),
                bounded(self.knots@, 1_000_000_001),
                forall|i: int|
                    0 <= i < knots0.len() ==> (#[trigger] self.knots@[i]) == settled(
                        knots0,
                        direction,
                        i,
                    ),
                seen ==> visited_cell(self.visited@, tail),
                !seen ==> forall|j: int| 0 <= j < k ==> #[trigger] self.visited@[j] != tail,
            decreases self.visited@.len() - k,
        {
            let v = self.visited[k];
            if v.x == tail.x && v.y == tail.y {
                proof {
                    assert(self.visited@[k as int] == tail);
                }
                seen = true;
            }
            k = k + 1;
        }
        if !seen {
            self.visited.push(tail);
        }
    }
}

/// One head move instruction: a direction, taken `count` times.
#[derive(Clone, Copy, Debug, PartialEq, Eq, Structural)]
pub struct Move {
    pub direction: Direction,
    pub count: u64,
}

/// `line` spells a move: a direction letter, a space, and a count.
pub open spec fn reads_move(line: Seq<u8>, m: Move) -> bool {
    &&& line.len() >= 3
    &&& (line[0] == 85 && m.direction == Direction::Up || line[0] == 68 && m.direction
        == Direction::Down || line[0] == 76 && m.direction == Direction::Left || line[0] == 82
        && m.direction == Direction::Right)
    &&& line[1] == 32
    &&& crate::text::all_digits(line.skip(2))
    &&& m.count == crate::text::digits_val(line.skip(2))
}

/// Parses head moves, one `U/D/L/R <count>` per line.
pub fn parse_moves(input: &str) -> (r: Option<Vec<Move>>)
    ensures
        match r {
            Some(v) => exists|ps: Seq<Seq<u8>>|
                {
                    &&& #[trigger] joined(ps, 10) == input.spec_bytes()
                    &&& sep_free(ps, 10)
                    &&& v@.len() == ps.len()
                    &&& forall|i: int| 0 <= i < ps.len() ==> reads_move(
                        #[trigger] ps[i],
                        v@[i],
                    )
                },
            None => true,
        },
{
    if !input.is_ascii() {
        return None;
    }
    let bytes = input.as_bytes_vec();
    let lines = crate::text::split(&bytes, 10);
    let ghost ps = lines@.map_values(|p: Vec<u8>| p@);
    let mut out: Vec<Move> = Vec::new();
    let mut i: usize = 0;
    while i < lines.len()
        invariant
            0 <= i <= lines@.len(),
            ps == lines@.map_values(|p: Vec<u8>| p@),
            out@.len() == i,
            forall|k: int| 0 <= k < i ==> reads_move(#[trigger] ps[k], out@[k]),
        decreases lines@.len() - i,
    {
        let line = &lines[i];
        proof {
            assert(ps[i as int] == lines@[i as int]@);
        }
        if line.len() < 3 {
            return None;
        }
        let d = line[0];
        let direction = if d == 85 {
            Direction::Up
        } else if d == 68 {
            Direction::Down
        } else if d == 76 {
            Direction::Left
        } else if d == 82 {
            Direction::Right
        } else {
            return None;
        };
        if line[1] != 32 {
            return None;
        }
        let mut digits: Vec<u8> = Vec::new();
        let mut j: usize = 2;
        while j < line.len()
            invariant
                2 <= j <= line@.len(),
                digits@ =~= line@.subrange(2, j as int),
            decreases line@.len() - j,
        {
            digits.push(line[j]);
            j = j + 1;
        }
        proof {
            assert(digits@ =~= line@.skip(2));
        }
        let count = match crate::text::parse_u64(&digits) {
            Some(n) => n,
            None => {
                return None;
            },
        };
        out.push(Move { direction, count });
        i = i + 1;
    }
    Some(out)
}

} // verus!
