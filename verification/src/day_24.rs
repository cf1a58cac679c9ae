//! Shortest traversal of a valley swept by blizzards that move
//! deterministically with time.  A search state is a position together with
//! the elapsed time; each step advances time by one minute and moves to an
//! open cell (or waits in place).  The valley drives the best-first engine
//! through the [`Trip`] space; consecutive trips chain by carrying the
//! elapsed time forward.

use vstd::prelude::*;
use crate::dijkstra::{distinct_idents, reaches, Dijkstra, Space, StepResult, Value};
use crate::text::{joined, sep_free};
use vstd::string::StringSliceAdditionalSpecFns;
use vstd::arithmetic::div_mod::{
    lemma_fundamental_div_mod, lemma_mod_multiples_vanish, lemma_small_mod,
};

verus! {

/// A valley coordinate: row 0 is the top wall, column 0 the left wall.
#[derive(Clone, Copy, Debug, PartialEq, Eq, Structural)]
pub struct Point {
    pub row: isize,
    pub col: isize,
}

impl Point {
    /// Builds the coordinate `(row, col)`.
    pub fn new(row: isize, col: isize) -> (p: Self)
        ensures
            p == (Point { row, col }),
    {
        Point { row, col }
    }

    /// The neighboring cell one step in `direction`.
    pub fn shift(self, direction: Direction) -> (p: Self)
        requires
            -1_000_000_000 <= self.row <= 1_000_000_000,
            -1_000_000_000 <= self.col <= 1_000_000_000,
        ensures
            p == shifted(self, direction),
    {
        match direction {
            Direction::Up => Point::new(self.row - 1, self.col),
            Direction::Down => Point::new(self.row + 1, self.col),
            Direction::Left => Point::new(self.row, self.col - 1),
            Direction::Right => Point::new(self.row, self.col + 1),
        }
    }
}

/// The cell one step from `p` in `direction`.
pub open spec fn shifted(p: Point, direction: Direction) -> Point {
    match direction {
        Direction::Up => Point { row: (p.row - 1) as isize, col: p.col },
        Direction::Down => Point { row: (p.row + 1) as isize, col: p.col },
        Direction::Left => Point { row: p.row, col: (p.col - 1) as isize },
        Direction::Right => Point { row: p.row, col: (p.col + 1) as isize },
    }
}

/// A compass direction of blizzard or walker movement.
#[derive(Clone, Copy, Debug, PartialEq, Eq, Structural)]
pub enum Direction {
    Up,
    Down,
    Left,
    Right,
}

/// A search state: a position and the minutes elapsed since the start.
/// Time is part of the state because the set of open cells changes each
/// minute; the state is its own identity, so distinct times are distinct
/// places for the search.
#[derive(Clone, Copy, Debug, PartialEq, Eq, Structural)]
pub struct State {
    pub position: Point,
    pub time: usize,
}

impl Value for State {
    type Id = State;

    /// A state is its own identity.
    open spec fn ident(&self) -> State {
        *self
    }

    fn same_ident(&self, other: &Self) -> (r: bool) {
        self.position.row == other.position.row && self.position.col == other.position.col
            && self.time == other.time
    }
}

/// The identity projection on states is injective.
pub proof fn lemma_state_identity()
    ensures
        distinct_idents::<State>(),
{
}

/// A blizzard: its position at time zero and its fixed direction.
#[derive(Clone, Copy, Debug, PartialEq, Eq, Structural)]
pub struct Blizzard {
    pub start: Point,
    pub direction: Direction,
}

/// The valley: its blizzards and bounds.  Interior cells have rows
/// `1..=max_row` and columns `1..=max_col`; the start portal sits on row 0
/// and the end portal on row `max_row + 1`.
pub struct Snowfield {
    pub blizzards: Vec<Blizzard>,
    pub start_col: isize,
    pub end_col: isize,
    pub max_row: isize,
    pub max_col: isize,
}

/// The value `x` wrapped into `1..=m` with period `m`.
pub open spec fn wrapped(x: int, m: int) -> int {
    ((x - 1) % m) + 1
}

/// Where a point starting at `p` and moving in `direction` sits after
/// `time` minutes, before wrapping: as a `(row, col)` pair of integers.
pub open spec fn moved(p: Point, direction: Direction, time: int) -> (int, int) {
    match direction {
        Direction::Up => (p.row - time, p.col as int),
        Direction::Down => (p.row + time, p.col as int),
        Direction::Left => (p.row as int, p.col - time),
        Direction::Right => (p.row as int, p.col + time),
    }
}

/// Wraps `x` into `1..=m`.
fn wrap_coord(x: isize, m: isize) -> (r: isize)
    requires
        1 <= m <= 50_000,
        -1_100_000_000 <= x <= 1_100_000_000,
    ensures
        1 <= r <= m,
        r as int == wrapped(x as int, m as int),
{
    let z: isize = x - 1;
    if z >= 0 {
        let rr = ((z as u64) % (m as u64)) as isize;
        proof {
            assert(rr as int == (z as int) % (m as int));
        }
        rr + 1
    } else {
        let a: u64 = (-z) as u64;
        let mu: u64 = m as u64;
        let k: u64 = (a + mu - 1) / mu;
        proof {
            lemma_fundamental_div_mod((a + mu - 1) as int, mu as int);
            assert(0 <= ((a + mu - 1) as int) % (mu as int) < mu as int) by {
                vstd::arithmetic::div_mod::lemma_mod_bound((a + mu - 1) as int, mu as int);
            }
            assert((mu as int) * (k as int) >= a as int);
            assert((mu as int) * (k as int) <= a + mu - 1);
        }
        let km: u64 = k * mu;
        proof {
            assert(km <= a + mu - 1);
        }
        let z2: isize = z + (km as isize);
        proof {
            assert(0 <= z2 < m);
            lemma_mod_multiples_vanish(k as int, z as int, m as int);
            assert(((m as int) * (k as int) + z) % (m as int) == (z as int) % (m as int));
            lemma_small_mod(z2 as nat, m as nat);
        }
        z2 + 1
    }
}

/// The position of a blizzard from `start` moving in `direction`, `time`
/// minutes in, wrapped around the valley interior.
pub open spec fn shift_spec(f: Snowfield, start: Point, direction: Direction, time: int) -> (
    int,
    int,
) {
    let m = moved(start, direction, time);
    (wrapped(m.0, f.max_row as int), wrapped(m.1, f.max_col as int))
}

/// The position of blizzard `i` at `time`.
pub open spec fn blizzard_pos(f: Snowfield, i: int, time: int) -> (int, int) {
    shift_spec(f, f.blizzards@[i].start, f.blizzards@[i].direction, time)
}

impl Snowfield {
    /// Bounds are positive and small, the portals sit on the walls, and
    /// every blizzard starts inside the valley.
    pub open spec fn wf(&self) -> bool {
        &&& 1 <= self.max_row <= 50_000
        &&& 1 <= self.max_col <= 50_000
        &&& 0 <= self.start_col <= self.max_col + 1
        &&& 0 <= self.end_col <= self.max_col + 1
        &&& forall|i: int|
            0 <= i < self.blizzards@.len() ==> 1 <= (#[trigger] self.blizzards@[i]).start.row
                <= self.max_row && 1 <= self.blizzards@[i].start.col <= self.max_col
    }

    /// Executable check of [`Snowfield::wf`].
    pub fn check_wf(&self) -> (r: bool)
        ensures
            r == self.wf(),
    {
        if !(1 <= self.max_row && self.max_row <= 50_000 && 1 <= self.max_col && self.max_col
            <= 50_000 && 0 <= self.start_col && self.start_col <= self.max_col + 1 && 0
            <= self.end_col && self.end_col <= self.max_col + 1) {
            return false;
        }
        let mut i: usize = 0;
        while i < self.blizzards.len()
            invariant
                0 <= i <= self.blizzards@.len(),
                1 <= self.max_row <= 50_000,
                1 <= self.max_col <= 50_000,
                forall|k: int|
                    0 <= k < i ==> 1 <= (#[trigger] self.blizzards@[k]).start.row <= self.max_row
                        && 1 <= self.blizzards@[k].start.col <= self.max_col,
            decreases self.blizzards@.len() - i,
        {
            let b = self.blizzards[i];
            if !(1 <= b.start.row && b.start.row <= self.max_row && 1 <= b.start.col && b.start.col
                <= self.max_col) {
                return false;
            }
            i = i + 1;
        }
        true
    }

    /// Where a blizzard from `start` moving in `direction` sits after
    /// `time` minutes, wrapped around the valley interior.
    pub fn shift_position(&self, start: Point, direction: Direction, time: usize) -> (p: Point)
        requires
            self.wf(),
            1 <= start.row <= self.max_row,
            1 <= start.col <= self.max_col,
            time <= 1_000_000_000,
        ensures
            (p.row as int, p.col as int) == shift_spec(*self, start, direction, time as int),
            1 <= p.row <= self.max_row,
            1 <= p.col <= self.max_col,
    {
        let t = time as isize;
        let (ur, uc): (isize, isize) = match direction {
            Direction::Up => (start.row - t, start.col),
            Direction::Down => (start.row + t, start.col),
            Direction::Left => (start.row, start.col - t),
            Direction::Right => (start.row, start.col + t),
        };
        let wrapped_row = wrap_coord(ur, self.max_row);
        let wrapped_col = wrap_coord(uc, self.max_col);
        Point::new(wrapped_row, wrapped_col)
    }

    /// The set of cells covered by blizzards at `time`, as a snapshot that
    /// answers openness queries for that minute.
    pub fn snapshot(&self, time: usize) -> (s: SnowfieldSnapshot)
        requires
            self.wf(),
            time <= 1_000_000_000,
        ensures
            s.start_col == self.start_col,
            s.end_col == self.end_col,
            s.max_row == self.max_row,
            s.max_col == self.max_col,
            s.blizzards@.len() == self.blizzards@.len(),
            forall|i: int|
                0 <= i < self.blizzards@.len() ==> ((#[trigger] s.blizzards@[i]).row as int,
                s.blizzards@[i].col as int) == blizzard_pos(*self, i, time as int),
    {
        let mut blizzards: Vec<Point> = Vec::new();
        let mut i: usize = 0;
        while i < self.blizzards.len()
            invariant
                0 <= i <= self.blizzards@.len(),
                self.wf(),
                time <= 1_000_000_000,
                blizzards@.len() == i,
                forall|k: int|
                    0 <= k < i ==> ((#[trigger] blizzards@[k]).row as int,
                    blizzards@[k].col as int) == blizzard_pos(*self, k, time as int),
            decreases self.blizzards@.len() - i,
        {
            let b = self.blizzards[i];
            blizzards.push(self.shift_position(b.start, b.direction, time));
            i = i + 1;
        }
        SnowfieldSnapshot {
            blizzards,
            start_col: self.start_col,
            end_col: self.end_col,
            max_row: self.max_row,
            max_col: self.max_col,
        }
    }
}

/// The blizzard positions at one fixed minute, with the valley bounds.
pub struct SnowfieldSnapshot {
    pub blizzards: Vec<Point>,
    pub start_col: isize,
    pub end_col: isize,
    pub max_row: isize,
    pub max_col: isize,
}

/// `p` is open in the snapshot `s`: an interior cell free of blizzards, or
/// one of the two portals.
pub open spec fn snap_open(s: SnowfieldSnapshot, p: Point) -> bool {
    ||| (1 <= p.row <= s.max_row && 1 <= p.col <= s.max_col && forall|i: int|
        0 <= i < s.blizzards@.len() ==> #[trigger] s.blizzards@[i] != p)
    ||| (p.row == 0 && p.col == s.start_col)
    ||| (p.row == s.max_row + 1 && p.col == s.end_col)
}

impl SnowfieldSnapshot {
    /// Whether `point` can be stood on during this snapshot's minute.
    pub fn is_open(&self, point: Point) -> (r: bool)
        requires
            1 <= self.max_row <= 50_000,
            1 <= self.max_col <= 50_000,
        ensures
            r == snap_open(*self, point),
    {
        if point.row == 0 && point.col == self.start_col {
            return true;
        }
        if point.row == self.max_row + 1 && point.col == self.end_col {
            return true;
        }
        if !(1 <= point.row && point.row <= self.max_row && 1 <= point.col && point.col
            <= self.max_col) {
            return false;
        }
        let mut i: usize = 0;
        while i < self.blizzards.len()
            invariant
                0 <= i <= self.blizzards@.len(),
                1 <= self.max_row <= 50_000,
                1 <= self.max_col <= 50_000,
                1 <= point.row <= self.max_row,
                1 <= point.col <= self.max_col,
                forall|k: int| 0 <= k < i ==> #[trigger] self.blizzards@[k] != point,
            decreases self.blizzards@.len() - i,
        {
            let b = self.blizzards[i];
            if b.row == point.row && b.col == point.col {
                proof {
                    assert(self.blizzards@[i as int] == point);
                }
                return false;
            }
            i = i + 1;
        }
        true
    }
}

/// A snapshot taken at minute `t` answers openness exactly as the valley's
/// own blizzard projection does.
proof fn lemma_snap_matches(f: Snowfield, snap: SnowfieldSnapshot, t: int, p: Point)
    requires
        snap.start_col == f.start_col,
        snap.end_col == f.end_col,
        snap.max_row == f.max_row,
        snap.max_col == f.max_col,
        snap.blizzards@.len() == f.blizzards@.len(),
        forall|i: int|
            0 <= i < f.blizzards@.len() ==> ((#[trigger] snap.blizzards@[i]).row as int,
            snap.blizzards@[i].col as int) == blizzard_pos(f, i, t),
    ensures
        snap_open(snap, p) == open_at(f, t, p),
{
    if 1 <= p.row <= f.max_row && 1 <= p.col <= f.max_col {
        if forall|i: int| 0 <= i < snap.blizzards@.len() ==> #[trigger] snap.blizzards@[i] != p {
            assert forall|i: int| 0 <= i < f.blizzards@.len() implies #[trigger] blizzard_pos(
                f,
                i,
                t,
            ) != (p.row as int, p.col as int) by {
                assert(snap.blizzards@[i] != p);
                assert((snap.blizzards@[i].row as int, snap.blizzards@[i].col as int)
                    == blizzard_pos(f, i, t));
            }
            assert(open_at(f, t, p));
        } else {
            let i = choose|i: int|
                0 <= i < snap.blizzards@.len() && !(#[trigger] snap.blizzards@[i] != p);
            assert(blizzard_pos(f, i, t) == (p.row as int, p.col as int));
            assert(!open_at(f, t, p));
            assert(!snap_open(snap, p));
        }
    }
}

/// `p` is open in the valley `f` at minute `t`.
pub open spec fn open_at(f: Snowfield, t: int, p: Point) -> bool {
    ||| (1 <= p.row <= f.max_row && 1 <= p.col <= f.max_col && forall|i: int|
        0 <= i < f.blizzards@.len() ==> #[trigger] blizzard_pos(f, i, t) != (
        p.row as int,
        p.col as int,
    ))
    ||| (p.row == 0 && p.col == f.start_col)
    ||| (p.row == f.max_row + 1 && p.col == f.end_col)
}

/// A state may take part in a trip: its position is inside the valley or on
/// a portal row, and its time leaves room to advance.
pub open spec fn trip_state_ok(f: Snowfield, s: State) -> bool {
    &&& 0 <= s.position.row <= f.max_row + 1
    &&& 0 <= s.position.col <= f.max_col + 1
    &&& s.time < 1_000_000_000
}

/// The five candidate moves from `p`, in the order tried: down, right,
/// wait, up, left.
pub open spec fn candidate_moves(p: Point) -> Seq<Point> {
    seq![
        shifted(p, Direction::Down),
        shifted(p, Direction::Right),
        p,
        shifted(p, Direction::Up),
        shifted(p, Direction::Left),
    ]
}

/// The open candidate cells at minute `nt`, as unit-cost edges, in
/// candidate order.
pub open spec fn kept_moves(f: Snowfield, nt: usize, cands: Seq<Point>) -> Seq<(State, u64)>
    decreases cands.len(),
{
    if cands.len() == 0 {
        Seq::empty()
    } else {
        let rest = kept_moves(f, nt, cands.drop_last());
        if open_at(f, nt as int, cands.last()) {
            rest.push((State { position: cands.last(), time: nt }, 1u64))
        } else {
            rest
        }
    }
}

/// The edges out of a trip state: every open candidate cell one minute
/// later, at unit cost; nothing outside a well-formed valley.
pub open spec fn trip_edges(f: Snowfield, s: State) -> Seq<(State, u64)> {
    if f.wf() && trip_state_ok(f, s) {
        kept_moves(f, (s.time + 1) as usize, candidate_moves(s.position))
    } else {
        Seq::empty()
    }
}

/// One point-to-point trip through the valley: the goal is to stand on the
/// target cell, whatever the elapsed time.
pub struct Trip {
    pub field: Snowfield,
    pub target: Point,
}

impl Space for Trip {
    type St = State;

    /// The goal is the target position, at any time.
    open spec fn goal(&self, s: State) -> bool {
        s.position == self.target
    }

    /// The open candidate cells one minute later, at unit cost.
    open spec fn edges(&self, s: State) -> Seq<(State, u64)> {
        trip_edges(self.field, s)
    }

    fn is_goal(&self, s: &State) -> (r: bool) {
        s.position.row == self.target.row && s.position.col == self.target.col
    }

    fn neighbors(&self, s: &State) -> (v: Vec<(State, u64)>) {
        let mut v: Vec<(State, u64)> = Vec::new();
        if !self.field.check_wf() {
            return v;
        }
        if !(0 <= s.position.row && s.position.row <= self.field.max_row + 1 && 0 <= s.position.col
            && s.position.col <= self.field.max_col + 1 && s.time < 1_000_000_000) {
            return v;
        }
        let next_time = s.time + 1;
        let snapshot = self.field.snapshot(next_time);
        let ghost f = self.field;
        proof {
            assert forall|p: Point| #[trigger] snap_open(snapshot, p) == open_at(
                f,
                next_time as int,
                p,
            ) by {
                lemma_snap_matches(f, snapshot, next_time as int, p);
            }
        }
        let cands: [Point; 5] = [
            s.position.shift(Direction::Down),
            s.position.shift(Direction::Right),
            s.position,
            s.position.shift(Direction::Up),
            s.position.shift(Direction::Left),
        ];
        let ghost cseq = candidate_moves(s.position);
        proof {
            assert(cands@ =~= cseq);
        }
        let mut i: usize = 0;
        while i < 5
            invariant
                0 <= i <= 5,
                cands@ == cseq,
                cseq.len() == 5,
                f == self.field,
                f.wf(),
                trip_state_ok(f, *s),
                next_time == s.time + 1,
                snapshot.max_row == f.max_row,
                snapshot.max_col == f.max_col,
                forall|p: Point| #[trigger] snap_open(snapshot, p) == open_at(
                    f,
                    next_time as int,
                    p,
                ),
                v@ =~= kept_moves(f, next_time, cseq.take(i as int)),
            decreases 5 - i,
        {
            let cand = cands[i];
            proof {
                assert(cseq.take(i + 1).drop_last() =~= cseq.take(i as int));
                assert(cseq.take(i + 1).last() == cseq[i as int]);
            }
            if snapshot.is_open(cand) {
                v.push((State { position: cand, time: next_time }, 1));
            }
            i = i + 1;
        }
        proof {
            assert(cseq.take(5) =~= cseq);
        }
        v
    }
}

/// Runs one trip: searches from `start` for a cheapest path to `target`,
/// processing at most `limit` frontier entries.  `Found` carries the goal
/// state (with its arrival time) and the number of minutes spent, minimal
/// over all ways of reaching the target; `Exhausted` means no way through
/// exists at any representable cost; `Advanced` means the step budget ran
/// out with the search still open.
pub fn shortest_trip(field: Snowfield, start: State, target: Point, limit: u64) -> (r: StepResult<
    State,
>)
    ensures
        match r {
            StepResult::Found(s, c) => {
                &&& s.position == target
                &&& reaches::<Trip>((Trip { field, target }), start, s, c as int)
                &&& forall|t: State, d: int|
                    t.position == target && #[trigger] reaches::<Trip>(
                        (Trip { field, target }),
                        start,
                        t,
                        d,
                    ) ==> c as int <= d
            },
            StepResult::Advanced => true,
            StepResult::Exhausted => forall|t: State, d: int|
                t.position == target && #[trigger] reaches::<Trip>(
                    (Trip { field, target }),
                    start,
                    t,
                    d,
                ) ==> d > u64::MAX as int,
        },
        limit >= 1 && start.position == target ==> r == StepResult::Found(start, 0u64),
{
    let space = Trip { field, target };
    let mut engine = Dijkstra::<Trip>::new(start, &space);
    let out = engine.next(&space, limit);
    proof {
        lemma_state_identity();
    }
    match out {
        StepResult::Found(s, c) => StepResult::Found(s, c),
        StepResult::Advanced => StepResult::Advanced,
        StepResult::Exhausted => {
            proof {
                assert forall|t: State, d: int|
                    t.position == target && #[trigger] reaches::<Trip>(
                        space,
                        start,
                        t,
                        d,
                    ) implies d > u64::MAX as int by {
                    if d <= u64::MAX as int {
                        assert(space.goal(t));
                        assert(engine.results().len() == 0);
                    }
                }
            }
            StepResult::Exhausted
        },
    }
}

/// `b` draws a blizzard.
pub open spec fn is_arrow(b: u8) -> bool {
    b == 94 || b == 118 || b == 60 || b == 62
}

/// The direction a blizzard byte draws: `^ v < >`.
pub open spec fn arrow_dir(b: u8) -> Direction {
    if b == 94 {
        Direction::Up
    } else if b == 118 {
        Direction::Down
    } else if b == 60 {
        Direction::Left
    } else {
        Direction::Right
    }
}

/// The lines form a proper valley drawing: a bounded rectangle with an
/// open cell somewhere on the first and last lines, and every blizzard
/// arrow strictly inside the walls.
pub open spec fn good_valley(ps: Seq<Seq<u8>>) -> bool {
    &&& 3 <= ps.len() <= 50_000
    &&& forall|r: int| 0 <= r < ps.len() ==> (#[trigger] ps[r]).len() == ps[0].len()
    &&& 3 <= ps[0].len() <= 50_002
    &&& exists|c: int| 0 <= c < ps[0].len() && #[trigger] ps[0][c] == 46
    &&& exists|c: int| 0 <= c < ps[0].len() && #[trigger] ps[ps.len() - 1][c] == 46
    &&& forall|r: int, c: int|
        0 <= r < ps.len() && 0 <= c < ps[r].len() && is_arrow(#[trigger] ps[r][c]) ==> 1 <= r
            <= ps.len() - 2 && 1 <= c <= ps[0].len() - 2
}

/// `bytes` splits on newlines into a proper valley drawing.  The
/// decomposition is unique (`text::lemma_joined_unique`), so this is
/// exactly the success condition of [`parse_snowfield`].
pub open spec fn readable_valley(bytes: Seq<u8>) -> bool {
    exists|ps: Seq<Seq<u8>>|
        {
            &&& #[trigger] joined(ps, 10) == bytes
            &&& sep_free(ps, 10)
            &&& good_valley(ps)
        }
}

/// Some listed blizzard starts at the cell `(rr, cc)`.
pub open spec fn blizzard_listed(bs: Seq<Blizzard>, rr: int, cc: int) -> bool {
    exists|i: int|
        0 <= i < bs.len() && (#[trigger] bs[i]).start == (Point {
            row: rr as isize,
            col: cc as isize,
        })
}

/// A listed start stays listed when the list grows.
proof fn lemma_listed_push(bs: Seq<Blizzard>, x: Blizzard)
    ensures
        forall|rr: int, cc: int|
            blizzard_listed(bs, rr, cc) ==> #[trigger] blizzard_listed(bs.push(x), rr, cc),
{
    assert forall|rr: int, cc: int|
        blizzard_listed(bs, rr, cc) implies #[trigger] blizzard_listed(bs.push(x), rr, cc) by {
        let i = choose|i: int|
            0 <= i < bs.len() && (#[trigger] bs[i]).start == (Point {
                row: rr as isize,
                col: cc as isize,
            });
        assert(bs.push(x)[i] == bs[i]);
    }
}

/// Walks the interior rows and collects one blizzard per arrow, in reading
/// order; refuses an arrow touching the left or right wall.
#[verifier::rlimit(60)]
fn collect_blizzards(lines: &Vec<Vec<u8>>, n: usize, w: usize) -> (r: Option<Vec<Blizzard>>)
    requires
        n == lines@.len(),
        3 <= n <= 50_000,
        w == lines@[0]@.len(),
        3 <= w <= 50_002,
        forall|k: int| 0 <= k < lines@.len() ==> (#[trigger] lines@[k])@.len() == w,
    ensures
        match r {
            Some(bs) => {
                &&& forall|i: int|
                    0 <= i < bs@.len() ==> 1 <= (#[trigger] bs@[i]).start.row <= n - 2 && 1
                        <= bs@[i].start.col <= w - 2 && is_arrow(
                        lines@[(bs@[i].start.row) as int]@[(bs@[i].start.col) as int],
                    ) && bs@[i].direction == arrow_dir(
                        lines@[(bs@[i].start.row) as int]@[(bs@[i].start.col) as int],
                    )
                &&& forall|i: int, j: int|
                    0 <= i < j < bs@.len() ==> (#[trigger] bs@[i]).start.row < (
                    #[trigger] bs@[j]).start.row || (bs@[i].start.row == bs@[j].start.row
                        && bs@[i].start.col < bs@[j].start.col)
                &&& forall|kr: int, kc: int|
                    1 <= kr < n - 1 && 0 <= kc < w && is_arrow(#[trigger] lines@[kr]@[kc])
                        ==> blizzard_listed(bs@, kr, kc)
            },
            None => exists|kr: int, kc: int|
                1 <= kr < n - 1 && 0 <= kc < w && is_arrow(#[trigger] lines@[kr]@[kc]) && !(1 <= kc
                    <= w - 2),
        },
{
    let mut blizzards: Vec<Blizzard> = Vec::new();
    let mut r: usize = 1;
    while r < n - 1
        invariant
            1 <= r <= n - 1,
            n == lines@.len(),
            3 <= n <= 50_000,
            w == lines@[0]@.len(),
            3 <= w <= 50_002,
            forall|k: int| 0 <= k < lines@.len() ==> (#[trigger] lines@[k])@.len() == w,
            forall|i: int|
                0 <= i < blizzards@.len() ==> 1 <= (#[trigger] blizzards@[i]).start.row < r && 1
                    <= blizzards@[i].start.col <= w - 2 && is_arrow(
                    lines@[(blizzards@[i].start.row) as int]@[(blizzards@[i].start.col) as int],
                ) && blizzards@[i].direction == arrow_dir(
                    lines@[(blizzards@[i].start.row) as int]@[(blizzards@[i].start.col) as int],
                ),
            forall|i: int, j: int|
                0 <= i < j < blizzards@.len() ==> (#[trigger] blizzards@[i]).start.row < (
                #[trigger] blizzards@[j]).start.row || (blizzards@[i].start.row
                    == blizzards@[j].start.row && blizzards@[i].start.col
                    < blizzards@[j].start.col),
            forall|kr: int, kc: int|
                1 <= kr < r && 0 <= kc < w && is_arrow(#[trigger] lines@[kr]@[kc])
                    ==> blizzard_listed(blizzards@, kr, kc),
        decreases n - 1 - r,
    {
        let line = &lines[r];
        let mut cc: usize = 0;
        while cc < w
            invariant
                0 <= cc <= w,
                1 <= r < n - 1,
                n == lines@.len(),
                3 <= n <= 50_000,
                w == lines@[0]@.len(),
                3 <= w <= 50_002,
                forall|k: int| 0 <= k < lines@.len() ==> (#[trigger] lines@[k])@.len() == w,
                line@ == lines@[r as int]@,
                forall|i: int|
                    0 <= i < blizzards@.len() ==> 1 <= (#[trigger] blizzards@[i]).start.row <= r
                        && 1 <= blizzards@[i].start.col <= w - 2 && is_arrow(
                        lines@[(blizzards@[i].start.row) as int]@[(
                        blizzards@[i].start.col) as int],
                    ) && blizzards@[i].direction == arrow_dir(
                        lines@[(blizzards@[i].start.row) as int]@[(
                        blizzards@[i].start.col) as int],
                    ),
                forall|i: int|
                    0 <= i < blizzards@.len() ==> (#[trigger] blizzards@[i]).start.row < r || (
                    blizzards@[i].start.row == r && blizzards@[i].start.col < cc),
                forall|i: int, j: int|
                    0 <= i < j < blizzards@.len() ==> (#[trigger] blizzards@[i]).start.row < (
                    #[trigger] blizzards@[j]).start.row || (blizzards@[i].start.row
                        == blizzards@[j].start.row && blizzards@[i].start.col
                        < blizzards@[j].start.col),
                forall|kr: int, kc: int|
                    1 <= kr < r && 0 <= kc < w && is_arrow(#[trigger] lines@[kr]@[kc])
                        ==> blizzard_listed(blizzards@, kr, kc),
                forall|kc: int|
                    0 <= kc < cc && is_arrow(#[trigger] lines@[r as int]@[kc]) ==> blizzard_listed(
                        blizzards@,
                        r as int,
                        kc,
                    ),
            decreases w - cc,
        {
            let b = line[cc];
            let direction: Option<Direction> = if b == 94 {
                Some(Direction::Up)
            } else if b == 118 {
                Some(Direction::Down)
            } else if b == 60 {
                Some(Direction::Left)
            } else if b == 62 {
                Some(Direction::Right)
            } else {
                None
            };
            match direction {
                Some(d) => {
                    if cc == 0 || cc >= w - 1 {
                        proof {
                            assert(is_arrow(lines@[r as int]@[cc as int]));
                        }
                        return None;
                    }
                    let ghost bs0 = blizzards@;
                    blizzards.push(
                        Blizzard { start: Point::new(r as isize, cc as isize), direction: d },
                    );
                    proof {
                        lemma_listed_push(bs0, blizzards@.last());
                        assert(blizzards@.last().start == (Point {
                            row: r as isize,
                            col: cc as isize,
                        }));
                        assert(blizzard_listed(blizzards@, r as int, cc as int));
                        assert(is_arrow(lines@[r as int]@[cc as int]));
                        assert(arrow_dir(lines@[r as int]@[cc as int]) == d);
                    }
                },
                None => {},
            }
            cc = cc + 1;
        }
        r = r + 1;
    }
    Some(blizzards)
}

/// Parses a valley drawing: blizzards `^ v < >` inside the walls, an open
/// `.` column on the first line (the start portal) and on the last (the
/// end portal).  Succeeds exactly on ASCII input whose lines form a proper
/// drawing; the result records the interior size, the first open column of
/// each portal row, and one blizzard per arrow with its cell and
/// direction.
#[verifier::rlimit(100)]
pub fn parse_snowfield(input: &str) -> (r: Option<Snowfield>)
    ensures
        match r {
            Some(f) => {
                &&& f.wf()
                &&& exists|ps: Seq<Seq<u8>>|
                    {
                        &&& joined(ps, 10) == input.spec_bytes()
                        &&& sep_free(ps, 10)
                        &&& good_valley(ps)
                        &&& f.max_row == ps.len() - 2
                        &&& f.max_col == ps[0].len() - 2
                        &&& ps[0][f.start_col as int] == 46
                        &&& forall|c: int| 0 <= c < f.start_col ==> #[trigger] ps[0][c] != 46
                        &&& ps[ps.len() - 1][f.end_col as int] == 46
                        &&& forall|c: int|
                            0 <= c < f.end_col ==> #[trigger] ps[ps.len() - 1][c] != 46
                        &&& forall|i: int|
                            0 <= i < f.blizzards@.len() ==> is_arrow(
                                #[trigger] ps[(f.blizzards@[i].start.row) as int][(
                                f.blizzards@[i].start.col) as int],
                            ) && f.blizzards@[i].direction == arrow_dir(
                                ps[(f.blizzards@[i].start.row) as int][(
                                f.blizzards@[i].start.col) as int],
                            )
                        &&& forall|rr: int, cc: int|
                            0 <= rr < ps.len() && 0 <= cc < ps[rr].len() && is_arrow(
                                #[trigger] ps[rr][cc],
                            ) ==> exists|i: int|
                                0 <= i < f.blizzards@.len() && (#[trigger] f.blizzards@[i]).start
                                    == (Point { row: rr as isize, col: cc as isize })
                        &&& forall|i: int, j: int|
                            0 <= i < j < f.blizzards@.len() ==> (#[trigger] f.blizzards@[i]).start
                                != (#[trigger] f.blizzards@[j]).start
                    }
            },
            None => !input.is_ascii() || !readable_valley(input.spec_bytes()),
        },
{
    if !input.is_ascii() {
        return None;
    }
    let bytes = input.as_bytes_vec();
    let lines = crate::text::split(&bytes, 10);
    let ghost ps = lines@.map_values(|p: Vec<u8>| p@);
    let n = lines.len();
    let w = lines[0].len();
    if n < 3 || n > 50_000 || w < 3 || w > 50_002 {
        proof {
            if readable_valley(bytes@) {
                let ps2 = choose|ps2: Seq<Seq<u8>>|
                    {
                        &&& #[trigger] joined(ps2, 10) == bytes@
                        &&& sep_free(ps2, 10)
                        &&& good_valley(ps2)
                    };
                crate::text::lemma_joined_unique(ps2, ps, 10);
            }
        }
        return None;
    }
    let mut rr: usize = 0;
    while rr < n
        invariant
            0 <= rr <= n,
            n == ps.len(),
            w == ps[0].len(),
            ps == lines@.map_values(|p: Vec<u8>| p@),
            joined(ps, 10) == bytes@,
            sep_free(ps, 10),
            bytes@ == input.spec_bytes(),
            forall|k: int| 0 <= k < rr ==> (#[trigger] ps[k]).len() == w,
        decreases n - rr,
    {
        if lines[rr].len() != w {
            proof {
                if readable_valley(bytes@) {
                    let ps2 = choose|ps2: Seq<Seq<u8>>|
                        {
                            &&& #[trigger] joined(ps2, 10) == bytes@
                            &&& sep_free(ps2, 10)
                            &&& good_valley(ps2)
                        };
                    crate::text::lemma_joined_unique(ps2, ps, 10);
                    assert(ps[rr as int].len() == ps[0].len());
                }
            }
            return None;
        }
        rr = rr + 1;
    }
    // The wall rows may not hold blizzards.
    let mut wr: usize = 0;
    while wr < w
        invariant
            0 <= wr <= w,
            3 <= n,
            n == ps.len(),
            n == lines@.len(),
            w == ps[0].len(),
            ps == lines@.map_values(|p: Vec<u8>| p@),
            joined(ps, 10) == bytes@,
            sep_free(ps, 10),
            bytes@ == input.spec_bytes(),
            forall|k: int| 0 <= k < ps.len() ==> (#[trigger] ps[k]).len() == w,
            forall|j: int| 0 <= j < wr ==> !is_arrow(#[trigger] ps[0][j]),
        decreases w - wr,
    {
        proof {
            assert(ps[0] == lines@[0]@);
        }
        let b0 = lines[0][wr];
        if b0 == 94 || b0 == 118 || b0 == 60 || b0 == 62 {
            proof {
                if readable_valley(bytes@) {
                    let ps2 = choose|ps2: Seq<Seq<u8>>|
                        {
                            &&& #[trigger] joined(ps2, 10) == bytes@
                            &&& sep_free(ps2, 10)
                            &&& good_valley(ps2)
                        };
                    crate::text::lemma_joined_unique(ps2, ps, 10);
                    assert(is_arrow(ps[0][wr as int]));
                }
            }
            return None;
        }
        wr = wr + 1;
    }
    let mut wr2: usize = 0;
    while wr2 < w
        invariant
            0 <= wr2 <= w,
            3 <= n,
            n == ps.len(),
            n == lines@.len(),
            w == ps[0].len(),
            ps == lines@.map_values(|p: Vec<u8>| p@),
            joined(ps, 10) == bytes@,
            sep_free(ps, 10),
            bytes@ == input.spec_bytes(),
            forall|k: int| 0 <= k < ps.len() ==> (#[trigger] ps[k]).len() == w,
            forall|j: int| 0 <= j < w ==> !is_arrow(#[trigger] ps[0][j]),
            forall|j: int| 0 <= j < wr2 ==> !is_arrow(#[trigger] ps[ps.len() - 1][j]),
        decreases w - wr2,
    {
        proof {
            assert(ps[(n - 1) as int] == lines@[(n - 1) as int]@);
        }
        let bn = lines[n - 1][wr2];
        if bn == 94 || bn == 118 || bn == 60 || bn == 62 {
            proof {
                if readable_valley(bytes@) {
                    let ps2 = choose|ps2: Seq<Seq<u8>>|
                        {
                            &&& #[trigger] joined(ps2, 10) == bytes@
                            &&& sep_free(ps2, 10)
                            &&& good_valley(ps2)
                        };
                    crate::text::lemma_joined_unique(ps2, ps, 10);
                    assert(is_arrow(ps[ps.len() - 1][wr2 as int]));
                }
            }
            return None;
        }
        wr2 = wr2 + 1;
    }
    // The first open column of the top wall is the start portal.
    let first = &lines[0];
    let mut start_col: usize = 0;
    let mut found_start = false;
    let mut c: usize = 0;
    while c < w && !found_start
        invariant
            0 <= c <= w,
            w == ps[0].len(),
            ps == lines@.map_values(|p: Vec<u8>| p@),
            first@ == ps[0],
            !found_start ==> forall|j: int| 0 <= j < c ==> #[trigger] ps[0][j] != 46,
            found_start ==> start_col < w && ps[0][start_col as int] == 46 && forall|j: int|
                0 <= j < start_col ==> #[trigger] ps[0][j] != 46,
        decreases w - c + (if found_start {
            0int
        } else {
            1int
        }),
    {
        if first[c] == 46 {
            start_col = c;
            found_start = true;
        } else {
            c = c + 1;
        }
    }
    // The first open column of the bottom wall is the end portal.
    let last = &lines[n - 1];
    let mut end_col: usize = 0;
    let mut found_end = false;
    let mut c2: usize = 0;
    while c2 < w && !found_end
        invariant
            0 <= c2 <= w,
            n == ps.len(),
            n == lines@.len(),
            3 <= n,
            w == ps[0].len(),
            ps == lines@.map_values(|p: Vec<u8>| p@),
            forall|k: int| 0 <= k < ps.len() ==> (#[trigger] ps[k]).len() == w,
            last@ == ps[ps.len() - 1],
            !found_end ==> forall|j: int| 0 <= j < c2 ==> #[trigger] ps[ps.len() - 1][j] != 46,
            found_end ==> end_col < w && ps[ps.len() - 1][end_col as int] == 46 && forall|j: int|
                0 <= j < end_col ==> #[trigger] ps[ps.len() - 1][j] != 46,
        decreases w - c2 + (if found_end {
            0int
        } else {
            1int
        }),
    {
        if last[c2] == 46 {
            end_col = c2;
            found_end = true;
        } else {
            c2 = c2 + 1;
        }
    }
    if !found_start || !found_end {
        proof {
            if readable_valley(bytes@) {
                let ps2 = choose|ps2: Seq<Seq<u8>>|
                    {
                        &&& #[trigger] joined(ps2, 10) == bytes@
                        &&& sep_free(ps2, 10)
                        &&& good_valley(ps2)
                    };
                crate::text::lemma_joined_unique(ps2, ps, 10);
                if !found_start {
                    let cd = choose|cd: int| 0 <= cd < ps[0].len() && #[trigger] ps[0][cd] == 46;
                    assert(false);
                } else {
                    let cd = choose|cd: int|
                        0 <= cd < ps[0].len() && #[trigger] ps[ps.len() - 1][cd] == 46;
                    assert(false);
                }
            }
        }
        return None;
    }
    // One blizzard per arrow, scanned in reading order.
    proof {
        assert forall|k: int| 0 <= k < lines@.len() implies (#[trigger] lines@[k])@.len() == w by {
            assert(ps[k] == lines@[k]@);
            assert(ps[k].len() == w);
        }
    }
    let blizzards = match collect_blizzards(&lines, n, w) {
        Some(bs) => bs,
        None => {
            proof {
                if readable_valley(bytes@) {
                    let ps2 = choose|ps2: Seq<Seq<u8>>|
                        {
                            &&& #[trigger] joined(ps2, 10) == bytes@
                            &&& sep_free(ps2, 10)
                            &&& good_valley(ps2)
                        };
                    crate::text::lemma_joined_unique(ps2, ps, 10);
                    let (kr, kc) = choose|kr: int, kc: int|
                        1 <= kr < lines@.len() - 1 && 0 <= kc < w && is_arrow(
                            #[trigger] lines@[kr]@[kc],
                        ) && !(1 <= kc <= w - 2);
                    assert(ps[kr] == lines@[kr]@);
                    assert(is_arrow(ps[kr][kc]));
                }
            }
            return None;
        },
    };
    let max_row: isize = (n - 2) as isize;
    let max_col: isize = (w - 2) as isize;
    let field = Snowfield {
        blizzards,
        start_col: start_col as isize,
        end_col: end_col as isize,
        max_row,
        max_col,
    };
    proof {
        assert forall|k: int| 0 <= k < ps.len() implies #[trigger] ps[k] == lines@[k]@ by {}
        assert(field.wf());
        assert forall|i: int, j: int|
            0 <= i < j < field.blizzards@.len() implies (#[trigger] field.blizzards@[i]).start != (
        #[trigger] field.blizzards@[j]).start by {
            assert(field.blizzards@[i].start.row < field.blizzards@[j].start.row || (
            field.blizzards@[i].start.row == field.blizzards@[j].start.row
                && field.blizzards@[i].start.col < field.blizzards@[j].start.col));
        }
        assert(good_valley(ps)) by {
            assert forall|kr: int, kc: int|
                0 <= kr < ps.len() && 0 <= kc < ps[kr].len() && is_arrow(
                    #[trigger] ps[kr][kc],
                ) implies 1 <= kr <= ps.len() - 2 && 1 <= kc <= ps[0].len() - 2 by {
                if 1 <= kr < ps.len() - 1 {
                    assert(blizzard_listed(field.blizzards@, kr, kc));
                    let i = choose|i: int|
                        0 <= i < field.blizzards@.len() && (#[trigger] field.blizzards@[i]).start
                            == (Point { row: kr as isize, col: kc as isize });
                    assert(1 <= field.blizzards@[i].start.col <= w - 2);
                }
            }
        }
        assert forall|rr2: int, cc2: int|
            0 <= rr2 < ps.len() && 0 <= cc2 < ps[rr2].len() && is_arrow(
                #[trigger] ps[rr2][cc2],
            ) implies exists|i: int|
            0 <= i < field.blizzards@.len() && (#[trigger] field.blizzards@[i]).start == (Point {
                row: rr2 as isize,
                col: cc2 as isize,
            }) by {
            assert(rr2 != 0 && rr2 != ps.len() - 1);
            assert(blizzard_listed(field.blizzards@, rr2, cc2));
        }
    }
    Some(field)
}

} // verus!
