//! Elves spreading over a grid: each round every crowded elf proposes a
//! move in the first safe compass direction, and proposals aimed at a
//! unique target are carried out.  The direction order rotates each round.

use vstd::prelude::*;

verus! {

/// A grid cell; `y` grows downward.
#[derive(Clone, Copy, Debug, PartialEq, Eq, Structural)]
pub struct Point {
    pub x: isize,
    pub y: isize,
}

/// A compass direction.
#[derive(Clone, Copy, Debug, PartialEq, Eq, Structural)]
pub enum Direction {
    North,
    South,
    East,
    West,
}

/// `p` occurs in `s`.
pub open spec fn elf_at(s: Seq<Point>, p: Point) -> bool {
    exists|i: int| 0 <= i < s.len() && #[trigger] s[i] == p
}

/// `p` occurs among the first `e` elves.
pub open spec fn elf_before(s: Seq<Point>, e: int, p: Point) -> bool {
    exists|j: int| 0 <= j < e && #[trigger] s[j] == p
}

/// Some neighboring cell of `p` is occupied.
pub open spec fn crowded(s: Seq<Point>, p: Point) -> bool {
    exists|j: int| 0 <= j < 8 && elf_at(s, #[trigger] around_cells(p)[j])
}

/// The three cells an elf must check before moving in `direction`.
pub open spec fn side_cells(p: Point, direction: Direction) -> Seq<Point> {
    match direction {
        Direction::North => seq![
            Point { x: (p.x - 1) as isize, y: (p.y - 1) as isize },
            Point { x: p.x, y: (p.y - 1) as isize },
            Point { x: (p.x + 1) as isize, y: (p.y - 1) as isize },
        ],
        Direction::South => seq![
            Point { x: (p.x - 1) as isize, y: (p.y + 1) as isize },
            Point { x: p.x, y: (p.y + 1) as isize },
            Point { x: (p.x + 1) as isize, y: (p.y + 1) as isize },
        ],
        Direction::East => seq![
            Point { x: (p.x + 1) as isize, y: (p.y - 1) as isize },
            Point { x: (p.x + 1) as isize, y: p.y },
            Point { x: (p.x + 1) as isize, y: (p.y + 1) as isize },
        ],
        Direction::West => seq![
            Point { x: (p.x - 1) as isize, y: (p.y - 1) as isize },
            Point { x: (p.x - 1) as isize, y: p.y },
            Point { x: (p.x - 1) as isize, y: (p.y + 1) as isize },
        ],
    }
}

/// The eight cells around `p`.
pub open spec fn around_cells(p: Point) -> Seq<Point> {
    seq![
        Point { x: (p.x - 1) as isize, y: (p.y - 1) as isize },
        Point { x: p.x, y: (p.y - 1) as isize },
        Point { x: (p.x + 1) as isize, y: (p.y - 1) as isize },
        Point { x: (p.x + 1) as isize, y: p.y },
        Point { x: (p.x + 1) as isize, y: (p.y + 1) as isize },
        Point { x: p.x, y: (p.y + 1) as isize },
        Point { x: (p.x - 1) as isize, y: (p.y + 1) as isize },
        Point { x: (p.x - 1) as isize, y: p.y },
    ]
}

/// The cell one step from `p` in `direction`.
pub open spec fn stepped_to(p: Point, direction: Direction) -> Point {
    match direction {
        Direction::North => Point { x: p.x, y: (p.y - 1) as isize },
        Direction::South => Point { x: p.x, y: (p.y + 1) as isize },
        Direction::East => Point { x: (p.x + 1) as isize, y: p.y },
        Direction::West => Point { x: (p.x - 1) as isize, y: p.y },
    }
}

impl Point {
    /// Builds the cell `(x, y)`.
    pub fn new(x: isize, y: isize) -> (p: Self)
        ensures
            p == (Point { x, y }),
    {
        Point { x, y }
    }

    /// The three cells to check before moving in `direction`.
    pub fn neighbors(self, direction: Direction) -> (v: Vec<Point>)
        requires
            -1_000_000 <= self.x <= 1_000_000,
            -1_000_000 <= self.y <= 1_000_000,
        ensures
            v@ =~= side_cells(self, direction),
    {
        let mut v: Vec<Point> = Vec::new();
        match direction {
            Direction::North => {
                v.push(Point::new(self.x - 1, self.y - 1));
                v.push(Point::new(self.x, self.y - 1));
                v.push(Point::new(self.x + 1, self.y - 1));
            },
            Direction::South => {
                v.push(Point::new(self.x - 1, self.y + 1));
                v.push(Point::new(self.x, self.y + 1));
                v.push(Point::new(self.x + 1, self.y + 1));
            },
            Direction::East => {
                v.push(Point::new(self.x + 1, self.y - 1));
                v.push(Point::new(self.x + 1, self.y));
                v.push(Point::new(self.x + 1, self.y + 1));
            },
            Direction::West => {
                v.push(Point::new(self.x - 1, self.y - 1));
                v.push(Point::new(self.x - 1, self.y));
                v.push(Point::new(self.x - 1, self.y + 1));
            },
        }
        v
    }

    /// The cell this elf would move to in `direction`.
    pub fn proposed_move(self, direction: Direction) -> (p: Self)
        requires
            -1_000_000 <= self.x <= 1_000_000,
            -1_000_000 <= self.y <= 1_000_000,
        ensures
            p == stepped_to(self, direction),
    {
        match direction {
            Direction::North => Point::new(self.x, self.y - 1),
            Direction::South => Point::new(self.x, self.y + 1),
            Direction::East => Point::new(self.x + 1, self.y),
            Direction::West => Point::new(self.x - 1, self.y),
        }
    }

    /// The componentwise maximum.
    pub fn max(self, other: Self) -> (p: Self)
        ensures
            p.x == if self.x > other.x {
                self.x
            } else {
                other.x
            },
            p.y == if self.y > other.y {
                self.y
            } else {
                other.y
            },
    {
        Point {
            x: if self.x > other.x {
                self.x
            } else {
                other.x
            },
            y: if self.y > other.y {
                self.y
            } else {
                other.y
            },
        }
    }

    /// The componentwise minimum.
    pub fn min(self, other: Self) -> (p: Self)
        ensures
            p.x == if self.x < other.x {
                self.x
            } else {
                other.x
            },
            p.y == if self.y < other.y {
                self.y
            } else {
                other.y
            },
    {
        Point {
            x: if self.x < other.x {
                self.x
            } else {
                other.x
            },
            y: if self.y < other.y {
                self.y
            } else {
                other.y
            },
        }
    }
}

/// The base rotation of proposal directions: north, south, west, east.
pub fn directions() -> (v: Vec<Direction>)
    ensures
        v@ =~= seq![Direction::North, Direction::South, Direction::West, Direction::East],
{
    let mut v: Vec<Direction> = Vec::new();
    v.push(Direction::North);
    v.push(Direction::South);
    v.push(Direction::West);
    v.push(Direction::East);
    v
}

/// The elves and the rotating start index into the proposal directions.
pub struct Forest {
    pub elves: Vec<Point>,
    pub dir_index: usize,
}

impl Forest {
    /// Elves sit on pairwise distinct, bounded cells; the rotation index
    /// stays small.
    pub open spec fn wf(&self) -> bool {
        &&& forall|i: int, j: int|
            0 <= i < j < self.elves@.len() ==> (#[trigger] self.elves@[i]) != (
            #[trigger] self.elves@[j])
        &&& forall|i: int|
            0 <= i < self.elves@.len() ==> -1_000_000 <= (#[trigger] self.elves@[i]).x <= 1_000_000
                && -1_000_000 <= self.elves@[i].y <= 1_000_000
        &&& self.dir_index < 4
    }

    /// Whether a cell is occupied.
    fn occupied(&self, p: Point) -> (r: bool)
        ensures
            r == elf_at(self.elves@, p),
    {
        let mut i: usize = 0;
        while i < self.elves.len()
            invariant
                0 <= i <= self.elves@.len(),
                forall|k: int| 0 <= k < i ==> #[trigger] self.elves@[k] != p,
            decreases self.elves@.len() - i,
        {
            let e = self.elves[i];
            if e.x == p.x && e.y == p.y {
                proof {
                    assert(self.elves@[i as int] == p);
                }
                return true;
            }
            i = i + 1;
        }
        false
    }

    /// Whether no other elf stands on any of the eight surrounding cells.
    pub fn is_alone(&self, elf: Point) -> (r: bool)
        requires
            -1_000_000 <= elf.x <= 1_000_000,
            -1_000_000 <= elf.y <= 1_000_000,
        ensures
            r == forall|j: int|
                0 <= j < 8 ==> !elf_at(self.elves@, #[trigger] around_cells(elf)[j]),
    {
        let cells = [
            Point::new(elf.x - 1, elf.y - 1),
            Point::new(elf.x, elf.y - 1),
            Point::new(elf.x + 1, elf.y - 1),
            Point::new(elf.x + 1, elf.y),
            Point::new(elf.x + 1, elf.y + 1),
            Point::new(elf.x, elf.y + 1),
            Point::new(elf.x - 1, elf.y + 1),
            Point::new(elf.x - 1, elf.y),
        ];
        proof {
            assert(cells@ =~= around_cells(elf));
        }
        let mut j: usize = 0;
        while j < 8
            invariant
                0 <= j <= 8,
                cells@ =~= around_cells(elf),
                forall|k: int| 0 <= k < j ==> !elf_at(self.elves@, #[trigger] around_cells(elf)[k]),
            decreases 8 - j,
        {
            if self.occupied(cells[j]) {
                proof {
                    assert(elf_at(self.elves@, around_cells(elf)[j as int]));
                }
                return false;
            }
            j = j + 1;
        }
        true
    }

    /// Whether the three cells toward `direction` are free of elves.
    pub fn is_safe_direction(&self, elf: Point, direction: Direction) -> (r: bool)
        requires
            -1_000_000 <= elf.x <= 1_000_000,
            -1_000_000 <= elf.y <= 1_000_000,
        ensures
            r == forall|j: int|
                0 <= j < 3 ==> !elf_at(self.elves@, #[trigger] side_cells(elf, direction)[j]),
    {
        let cells = elf.neighbors(direction);
        let mut j: usize = 0;
        while j < 3
            invariant
                0 <= j <= 3,
                cells@ =~= side_cells(elf, direction),
                forall|k: int|
                    0 <= k < j ==> !elf_at(self.elves@, #[trigger] side_cells(elf, direction)[k]),
            decreases 3 - j,
        {
            if self.occupied(cells[j]) {
                proof {
                    assert(elf_at(self.elves@, side_cells(elf, direction)[j as int]));
                }
                return false;
            }
            j = j + 1;
        }
        true
    }

    /// Collects this round's proposals: each crowded elf aims at the first
    /// safe direction of the rotation, and proposals are grouped by target
    /// cell.  Advances the rotation for the next round.  Every lister mover
    /// is an elf, targets are pairwise distinct, and the elves themselves
    /// do not move yet.
    pub fn propose_moves(&mut self) -> (result: Vec<(Point, Vec<Point>)>)
        requires
            old(self).wf(),
        ensures
            final(self).wf(),
            final(self).elves@ == old(self).elves@,
            final(self).dir_index == (old(self).dir_index + 1) % 4,
            forall|k: int, l: int|
                0 <= k < l < result@.len() ==> (#[trigger] result@[k]).0 != (
                #[trigger] result@[l]).0,
            forall|k: int|
                0 <= k < result@.len() ==> (#[trigger] result@[k]).1@.len() >= 1,
            forall|k: int, m: int|
                0 <= k < result@.len() && 0 <= m < result@[k].1@.len() ==> elf_at(
                    old(self).elves@,
                    #[trigger] result@[k].1@[m],
                ) && -999_999 <= result@[k].1@[m].x <= 999_999 && -999_999 <= result@[k].1@[m].y
                    <= 999_999,
            forall|k: int|
                0 <= k < result@.len() ==> !elf_at(old(self).elves@, (#[trigger] result@[k]).0),
            forall|k: int, m: int|
                0 <= k < result@.len() && 0 <= m < result@[k].1@.len() ==> crowded(
                    old(self).elves@,
                    #[trigger] result@[k].1@[m],
                ),
            forall|k: int, m: int, k2: int, m2: int|
                0 <= k < result@.len() && 0 <= m < result@[k].1@.len() && 0 <= k2 < result@.len()
                    && 0 <= m2 < result@[k2].1@.len() && (k != k2 || m != m2) ==> (
                #[trigger] result@[k].1@[m]) != (#[trigger] result@[k2].1@[m2]),
    {
        let dirs_base = directions();
        let mut dirs: Vec<Direction> = Vec::new();
        dirs.push(dirs_base[self.dir_index % 4]);
        dirs.push(dirs_base[(self.dir_index + 1) % 4]);
        dirs.push(dirs_base[(self.dir_index + 2) % 4]);
        dirs.push(dirs_base[(self.dir_index + 3) % 4]);
        self.dir_index = (self.dir_index + 1) % 4;
        let mut result: Vec<(Point, Vec<Point>)> = Vec::new();
        let mut e: usize = 0;
        while e < self.elves.len()
            invariant
                0 <= e <= self.elves@.len(),
                dirs@.len() == 4,
                self.wf(),
                self.elves@ == old(self).elves@,
                self.dir_index == (old(self).dir_index + 1) % 4,
                forall|k: int, l: int|
                    0 <= k < l < result@.len() ==> (#[trigger] result@[k]).0 != (
                    #[trigger] result@[l]).0,
                forall|k: int|
                    0 <= k < result@.len() ==> (#[trigger] result@[k]).1@.len() >= 1,
                forall|k: int, m: int|
                    0 <= k < result@.len() && 0 <= m < result@[k].1@.len() ==> elf_at(
                        old(self).elves@,
                        #[trigger] result@[k].1@[m],
                    ) && -999_999 <= result@[k].1@[m].x <= 999_999 && -999_999
                        <= result@[k].1@[m].y <= 999_999,
                forall|k: int|
                    0 <= k < result@.len() ==> !elf_at(old(self).elves@, (#[trigger] result@[k]).0),
                forall|k: int, m: int|
                    0 <= k < result@.len() && 0 <= m < result@[k].1@.len() ==> crowded(
                        old(self).elves@,
                        #[trigger] result@[k].1@[m],
                    ) && elf_before(old(self).elves@, e as int, result@[k].1@[m]),
                forall|k: int, m: int, k2: int, m2: int|
                    0 <= k < result@.len() && 0 <= m < result@[k].1@.len() && 0 <= k2
                        < result@.len() && 0 <= m2 < result@[k2].1@.len() && (k != k2 || m != m2)
                        ==> (#[trigger] result@[k].1@[m]) != (#[trigger] result@[k2].1@[m2]),
            decreases self.elves@.len() - e,
        {
            let elf = self.elves[e];
            proof {
                assert(self.elves@[e as int] == elf);
                assert(elf_at(self.elves@, elf));
            }
            if elf.x <= -999_999 || elf.x >= 999_999 || elf.y <= -999_999 || elf.y >= 999_999 {
                // An elf at the very edge of the supported window never
                // proposes, so coordinates stay in range.
                e = e + 1;
                continue ;
            }
            if self.is_alone(elf) {
                e = e + 1;
                continue ;
            }
            let mut d: usize = 0;
            let mut chosen: Option<Direction> = None;
            while d < 4 && chosen.is_none()
                invariant
                    0 <= d <= 4,
                    dirs@.len() == 4,
                    -999_999 < elf.x < 999_999,
                    -999_999 < elf.y < 999_999,
                    chosen matches Some(dir) ==> forall|j: int|
                        0 <= j < 3 ==> !elf_at(self.elves@, #[trigger] side_cells(elf, dir)[j]),
                decreases 4 - d + (if chosen is Some {
                    0int
                } else {
                    1int
                }),
            {
                if self.is_safe_direction(elf, dirs[d]) {
                    chosen = Some(dirs[d]);
                } else {
                    d = d + 1;
                }
            }
            match chosen {
                None => {
                    e = e + 1;
                    continue ;
                },
                Some(dir) => {
                    let target = elf.proposed_move(dir);
                    proof {
                        assert(side_cells(elf, dir)[1] == stepped_to(elf, dir) || side_cells(
                            elf,
                            dir,
                        )[1] == target);
                        assert(!elf_at(self.elves@, target));
                    }
                    let mut found = false;
                    let mut k: usize = 0;
                    while k < result.len() && !found
                        invariant
                            0 <= k <= result@.len(),
                            found ==> 0 <= k < result@.len() && (result@[k as int]).0 == target,
                            !found ==> forall|kk: int|
                                0 <= kk < k ==> (#[trigger] result@[kk]).0 != target,
                        decreases result@.len() - k + (if found {
                            0int
                        } else {
                            1int
                        }),
                    {
                        let entry_target = result[k].0;
                        if entry_target.x == target.x && entry_target.y == target.y {
                            found = true;
                            proof {
                                assert((result@[k as int]).0 == target);
                            }
                        } else {
                            k = k + 1;
                        }
                    }
                    let ghost res0 = result@;
                    if found {
                        let entry = &mut result[k];
                        entry.1.push(elf);
                        proof {
                            assert(result@[k as int].0 == res0[k as int].0);
                            assert(result@[k as int].1@ =~= res0[k as int].1@.push(elf));
                            assert forall|kk: int, l: int|
                                0 <= kk < l < result@.len() implies (#[trigger] result@[kk]).0
                                != (#[trigger] result@[l]).0 by {
                                assert(result@[kk].0 == res0[kk].0);
                                assert(result@[l].0 == res0[l].0);
                            }
                            assert forall|kk: int, m: int|
                                0 <= kk < result@.len() && 0 <= m
                                    < result@[kk].1@.len() implies elf_at(
                                old(self).elves@,
                                #[trigger] result@[kk].1@[m],
                            ) && -999_999 <= result@[kk].1@[m].x <= 999_999 && -999_999
                                <= result@[kk].1@[m].y <= 999_999 by {
                                if kk != k {
                                    assert(result@[kk] == res0[kk]);
                                } else {
                                    if m < res0[k as int].1@.len() {
                                        assert(result@[kk].1@[m] == res0[kk].1@[m]);
                                    } else {
                                        assert(result@[kk].1@[m] == elf);
                                    }
                                }
                            }
                            assert forall|kk: int| 0 <= kk < result@.len() implies !elf_at(
                                old(self).elves@,
                                (#[trigger] result@[kk]).0,
                            ) by {
                                assert(result@[kk].0 == res0[kk].0);
                            }
                        }
                    } else {
                        let mut movers: Vec<Point> = Vec::new();
                        movers.push(elf);
                        result.push((target, movers));
                        proof {
                            assert forall|kk: int, l: int|
                                0 <= kk < l < result@.len() implies (#[trigger] result@[kk]).0
                                != (#[trigger] result@[l]).0 by {
                                if l < res0.len() {
                                    assert(result@[kk] == res0[kk] && result@[l] == res0[l]);
                                } else {
                                    assert(result@[l].0 == target);
                                    assert(result@[kk] == res0[kk]);
                                }
                            }
                            assert forall|kk: int, m: int|
                                0 <= kk < result@.len() && 0 <= m
                                    < result@[kk].1@.len() implies elf_at(
                                old(self).elves@,
                                #[trigger] result@[kk].1@[m],
                            ) && -999_999 <= result@[kk].1@[m].x <= 999_999 && -999_999
                                <= result@[kk].1@[m].y <= 999_999 by {
                                if kk < res0.len() {
                                    assert(result@[kk] == res0[kk]);
                                } else {
                                    assert(result@[kk].1@[m] == elf);
                                }
                            }
                            assert forall|kk: int| 0 <= kk < result@.len() implies !elf_at(
                                old(self).elves@,
                                (#[trigger] result@[kk]).0,
                            ) by {
                                if kk < res0.len() {
                                    assert(result@[kk] == res0[kk]);
                                } else {
                                    assert(result@[kk].0 == target);
                                }
                            }
                        }
                    }
                },
            }
            e = e + 1;
        }
        result
    }

    /// Plays one round: collects proposals and carries out every proposal
    /// whose target was wanted by exactly one elf.  The number of elves and
    /// their distinctness are preserved; the direction rotation advances.
    pub fn step(&mut self) -> (did_move: bool)
        requires
            old(self).wf(),
        ensures
            final(self).wf(),
            final(self).elves@.len() == old(self).elves@.len(),
            final(self).dir_index == (old(self).dir_index + 1) % 4,
            !did_move ==> final(self).elves@ == old(self).elves@,
    {
        let proposals = self.propose_moves();
        let mut did_move = false;
        let mut k: usize = 0;
        while k < proposals.len()
            invariant
                0 <= k <= proposals@.len(),
                self.wf(),
                self.elves@.len() == old(self).elves@.len(),
                self.dir_index == (old(self).dir_index + 1) % 4,
                !did_move ==> self.elves@ == old(self).elves@,
                forall|kk: int|
                    0 <= kk < proposals@.len() ==> (#[trigger] proposals@[kk]).1@.len() >= 1,
            decreases proposals@.len() - k,
        {
            let entry_len = proposals[k].1.len();
            if entry_len == 1 {
                let mover = proposals[k].1[0];
                let target = proposals[k].0;
                if -1_000_000 <= target.x && target.x <= 1_000_000 && -1_000_000 <= target.y
                    && target.y <= 1_000_000 {
                    let mut idx: usize = 0;
                    let mut at: Option<usize> = None;
                    while idx < self.elves.len() && at.is_none()
                        invariant
                            0 <= idx <= self.elves@.len(),
                            at matches Some(i) ==> 0 <= i < self.elves@.len()
                                && self.elves@[i as int] == mover,
                        decreases self.elves@.len() - idx + (if at is Some {
                            0int
                        } else {
                            1int
                        }),
                    {
                        let e = self.elves[idx];
                        if e.x == mover.x && e.y == mover.y {
                            at = Some(idx);
                            proof {
                                assert(self.elves@[idx as int] == mover);
                            }
                        } else {
                            idx = idx + 1;
                        }
                    }
                    match at {
                        Some(i) => {
                            if !self.occupied(target) {
                                let ghost elves0 = self.elves@;
                                self.elves.set(i, target);
                                did_move = true;
                                proof {
                                    assert forall|a: int, b: int|
                                        0 <= a < b < self.elves@.len() implies (
                                    #[trigger] self.elves@[a]) != (#[trigger] self.elves@[b]) by {
                                        if a != i && b != i {
                                            assert(self.elves@[a] == elves0[a]);
                                            assert(self.elves@[b] == elves0[b]);
                                        } else if a == i {
                                            assert(self.elves@[b] == elves0[b]);
                                            assert(!elf_at(elves0, target));
                                        } else {
                                            assert(self.elves@[a] == elves0[a]);
                                            assert(!elf_at(elves0, target));
                                        }
                                    }
                                }
                            }
                        },
                        None => {},
                    }
                }
            }
            k = k + 1;
        }
        did_move
    }

    /// The smallest `x` among the first `i` elves.
    pub open spec fn lo_x(s: Seq<Point>, i: int) -> int
        decreases i,
    {
        if i <= 1 {
            s[0].x as int
        } else if s[i - 1].x < Self::lo_x(s, i - 1) {
            s[i - 1].x as int
        } else {
            Self::lo_x(s, i - 1)
        }
    }

    /// The largest `x` among the first `i` elves.
    pub open spec fn hi_x(s: Seq<Point>, i: int) -> int
        decreases i,
    {
        if i <= 1 {
            s[0].x as int
        } else if s[i - 1].x > Self::hi_x(s, i - 1) {
            s[i - 1].x as int
        } else {
            Self::hi_x(s, i - 1)
        }
    }

    /// The smallest `y` among the first `i` elves.
    pub open spec fn lo_y(s: Seq<Point>, i: int) -> int
        decreases i,
    {
        if i <= 1 {
            s[0].y as int
        } else if s[i - 1].y < Self::lo_y(s, i - 1) {
            s[i - 1].y as int
        } else {
            Self::lo_y(s, i - 1)
        }
    }

    /// The largest `y` among the first `i` elves.
    pub open spec fn hi_y(s: Seq<Point>, i: int) -> int
        decreases i,
    {
        if i <= 1 {
            s[0].y as int
        } else if s[i - 1].y > Self::hi_y(s, i - 1) {
            s[i - 1].y as int
        } else {
            Self::hi_y(s, i - 1)
        }
    }

    /// The number of empty cells in the bounding rectangle of the elves
    /// (zero if the elves somehow outnumber the rectangle's cells).
    pub fn free_space(&self) -> (n: usize)
        requires
            self.wf(),
            self.elves@.len() >= 1,
            forall|i: int|
                0 <= i < self.elves@.len() ==> -15_000 <= (#[trigger] self.elves@[i]).x <= 15_000
                    && -15_000 <= self.elves@[i].y <= 15_000,
        ensures
            ({
                let s = self.elves@;
                let n2 = s.len() as int;
                let area = (Self::hi_x(s, n2) - Self::lo_x(s, n2) + 1) * (Self::hi_y(s, n2)
                    - Self::lo_y(s, n2) + 1);
                n == if area >= n2 {
                    area - n2
                } else {
                    0
                }
            }),
    {
        let first = self.elves[0];
        let mut minp = first;
        let mut maxp = first;
        let mut i: usize = 1;
        while i < self.elves.len()
            invariant
                1 <= i <= self.elves@.len(),
                self.elves@.len() >= 1,
                forall|k: int|
                    0 <= k < self.elves@.len() ==> -15_000 <= (#[trigger] self.elves@[k]).x
                        <= 15_000 && -15_000 <= self.elves@[k].y <= 15_000,
                minp.x == Self::lo_x(self.elves@, i as int),
                maxp.x == Self::hi_x(self.elves@, i as int),
                minp.y == Self::lo_y(self.elves@, i as int),
                maxp.y == Self::hi_y(self.elves@, i as int),
                -15_000 <= minp.x <= 15_000,
                -15_000 <= minp.y <= 15_000,
                -15_000 <= maxp.x <= 15_000,
                -15_000 <= maxp.y <= 15_000,
            decreases self.elves@.len() - i,
        {
            let p = self.elves[i];
            minp = minp.min(p);
            maxp = maxp.max(p);
            i = i + 1;
        }
        let width = (maxp.x - minp.x + 1) as usize;
        let height = (maxp.y - minp.y + 1) as usize;
        proof {
            assert(width * height <= 30_001 * 30_001) by (nonlinear_arith)
                requires
                    0 <= width <= 30_001,
                    0 <= height <= 30_001,
            ;
        }
        let area = width * height;
        if area >= self.elves.len() {
            area - self.elves.len()
        } else {
            0
        }
    }
}

/// Parses the elves' starting cells: `#` marks an elf, anything else is
/// empty ground; `x` is the column and `y` the line number.
pub fn parse_forest(input: &str) -> (r: Option<Forest>)
    ensures
        match r {
            Some(f) => f.wf() && f.dir_index == 0,
            None => true,
        },
{
    if !input.is_ascii() {
        return None;
    }
    let bytes = input.as_bytes_vec();
    let lines = crate::text::split(&bytes, 10);
    if lines.len() > 10_000 {
        return None;
    }
    let mut elves: Vec<Point> = Vec::new();
    let mut y: usize = 0;
    while y < lines.len()
        invariant
            0 <= y <= lines@.len(),
            lines@.len() <= 10_000,
            forall|k: int|
                0 <= k < elves@.len() ==> 0 <= (#[trigger] elves@[k]).x <= 10_000 && 0
                    <= elves@[k].y < y,
            forall|a: int, b: int|
                0 <= a < b < elves@.len() ==> (#[trigger] elves@[a]) != (#[trigger] elves@[b]),
        decreases lines@.len() - y,
    {
        let line = &lines[y];
        if line.len() > 10_000 {
            return None;
        }
        let mut x: usize = 0;
        while x < line.len()
            invariant
                0 <= x <= line@.len(),
                line@.len() <= 10_000,
                0 <= y < lines@.len(),
                lines@.len() <= 10_000,
                forall|k: int|
                    0 <= k < elves@.len() ==> 0 <= (#[trigger] elves@[k]).x <= 10_000 && 0
                        <= elves@[k].y && (elves@[k].y < y || (elves@[k].y == y && elves@[k].x
                        < x)),
                forall|a: int, b: int|
                    0 <= a < b < elves@.len() ==> (#[trigger] elves@[a]) != (#[trigger] elves@[b]),
            decreases line@.len() - x,
        {
            if line[x] == 35 {
                let p = Point::new(x as isize, y as isize);
                proof {
                    assert forall|k: int| 0 <= k < elves@.len() implies #[trigger] elves@[k]
                        != p by {
                        assert(elves@[k].y < y || elves@[k].x < x);
                    }
                }
                elves.push(p);
            }
            x = x + 1;
        }
        y = y + 1;
    }
    Some(Forest { elves, dir_index: 0 })
}

} // verus!
