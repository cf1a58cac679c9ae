//! Shortest paths across a height-labeled grid: steps move to orthogonal
//! neighbors, and the climb per step is capped.  The grid drives the
//! best-first engine through the [`Ascent`] and [`Descent`] spaces.

use vstd::prelude::*;
use crate::dijkstra::{distinct_idents, reaches, Dijkstra, Space, StepResult, Value};
use crate::text::{joined, sep_free};
use vstd::string::StringSliceAdditionalSpecFns;

verus! {

/// A grid coordinate.
#[derive(Clone, Copy, Debug, PartialEq, Eq, Structural)]
pub struct Point {
    pub row: usize,
    pub col: usize,
}

impl Point {
    /// Builds the coordinate `(row, col)`.
    pub fn new(row: usize, col: usize) -> (p: Self)
        ensures
            p == (Point { row, col }),
    {
        Point { row, col }
    }
}

impl Value for Point {
    type Id = Point;

    /// A grid cell is its own identity.
    open spec fn ident(&self) -> Point {
        *self
    }

    fn same_ident(&self, other: &Self) -> (r: bool) {
        self.row == other.row && self.col == other.col
    }
}

/// The height of a map character: `'S'` is ground level, `'E'` is the top,
/// and the letters `'a'..='z'` rise in order.
pub open spec fn height_of(b: u8) -> int {
    if b == 83 {
        0
    } else if b == 69 {
        25
    } else {
        b - 97
    }
}

/// `b` may appear in a map line.
pub open spec fn is_map_byte(b: u8) -> bool {
    b == 83 || b == 69 || (97 <= b <= 122)
}

/// A rectangular grid of cell heights.
pub struct HeightMap {
    heights: Vec<Vec<u32>>,
}

impl HeightMap {
    /// The grid is non-empty, rectangular, and all heights are small.
    pub closed spec fn wf(&self) -> bool {
        &&& self.heights@.len() > 0
        &&& self.heights@[0]@.len() > 0
        &&& forall|r: int|
            0 <= r < self.heights@.len() ==> (#[trigger] self.heights@[r])@.len()
                == self.heights@[0]@.len()
        &&& forall|r: int, c: int|
            0 <= r < self.heights@.len() && 0 <= c < self.heights@[r]@.len() ==> (
            #[trigger] self.heights@[r]@[c]) <= 25
    }

    /// Number of grid rows.
    pub closed spec fn rows(&self) -> int {
        self.heights@.len() as int
    }

    /// Number of grid columns.
    pub closed spec fn cols(&self) -> int {
        self.heights@[0]@.len() as int
    }

    /// `p` addresses a cell of the grid.
    pub closed spec fn in_bounds(&self, p: Point) -> bool {
        p.row < self.rows() && p.col < self.cols()
    }

    /// The height stored at `p`.
    pub closed spec fn at(&self, p: Point) -> u32 {
        self.heights@[p.row as int]@[p.col as int]
    }

    /// Reads the height at `p`.
    pub fn get(&self, point: Point) -> (h: u32)
        requires
            self.wf(),
            self.in_bounds(point),
        ensures
            h == self.at(point),
    {
        self.heights[point.row][point.col]
    }

    /// The orthogonal neighbors of `p`, in row-up, row-down, column-left,
    /// column-right order.
    pub closed spec fn adjacent(&self, p: Point) -> Seq<Point> {
        (if p.row > 0 {
            seq![Point { row: (p.row - 1) as usize, col: p.col }]
        } else {
            Seq::empty()
        }) + (if p.row + 1 < self.rows() {
            seq![Point { row: (p.row + 1) as usize, col: p.col }]
        } else {
            Seq::empty()
        }) + (if p.col > 0 {
            seq![Point { row: p.row, col: (p.col - 1) as usize }]
        } else {
            Seq::empty()
        }) + (if p.col + 1 < self.cols() {
            seq![Point { row: p.row, col: (p.col + 1) as usize }]
        } else {
            Seq::empty()
        })
    }

    /// Lists the in-bounds orthogonal neighbors of `point`.
    pub fn neighbors(&self, point: Point) -> (v: Vec<Point>)
        requires
            self.wf(),
            self.in_bounds(point),
        ensures
            v@ == self.adjacent(point),
    {
        let mut options: Vec<Point> = Vec::new();
        if point.row > 0 {
            options.push(Point::new(point.row - 1, point.col));
        }
        if point.row < self.heights.len() - 1 {
            options.push(Point::new(point.row + 1, point.col));
        }
        if point.col > 0 {
            options.push(Point::new(point.row, point.col - 1));
        }
        if point.col < self.heights[0].len() - 1 {
            options.push(Point::new(point.row, point.col + 1));
        }
        proof {
            assert(options@ =~= self.adjacent(point));
        }
        options
    }

    /// Executable check of [`HeightMap::wf`].
    pub fn check_wf(&self) -> (r: bool)
        ensures
            r == self.wf(),
    {
        if self.heights.len() == 0 {
            return false;
        }
        let width = self.heights[0].len();
        if width == 0 {
            return false;
        }
        let mut r: usize = 0;
        while r < self.heights.len()
            invariant
                0 <= r <= self.heights@.len(),
                self.heights@.len() > 0,
                width == self.heights@[0]@.len(),
                forall|k: int|
                    0 <= k < r ==> (#[trigger] self.heights@[k])@.len() == self.heights@[0]@.len(),
                forall|k: int, c: int|
                    0 <= k < r && 0 <= c < self.heights@[k]@.len() ==> (
                    #[trigger] self.heights@[k]@[c]) <= 25,
            decreases self.heights@.len() - r,
        {
            if self.heights[r].len() != width {
                return false;
            }
            let mut c: usize = 0;
            while c < self.heights[r].len()
                invariant
                    0 <= r < self.heights@.len(),
                    0 <= c <= self.heights@[r as int]@.len(),
                    forall|j: int|
                        0 <= j < c ==> (#[trigger] self.heights@[r as int]@[j]) <= 25,
                decreases self.heights@[r as int]@.len() - c,
            {
                if self.heights[r][c] > 25 {
                    return false;
                }
                c = c + 1;
            }
            r = r + 1;
        }
        true
    }
}

/// The search space of climbing paths: a step may rise by at most one unit,
/// every step costs one, and the goal is one fixed cell.
pub struct Ascent {
    pub map: HeightMap,
    pub end: Point,
}

/// A step from `p` to `q` is allowed: climbing caps the destination height
/// at one above the current cell, descending caps the drop at one below.
pub open spec fn step_ok(m: HeightMap, p: Point, q: Point, up: bool) -> bool {
    if up {
        m.at(q) <= m.at(p) + 1
    } else {
        m.at(q) + 1 >= m.at(p)
    }
}

/// The allowed steps among the candidate cells `cands`, each at unit cost,
/// in candidate order.
pub open spec fn kept_edges(m: HeightMap, p: Point, cands: Seq<Point>, up: bool) -> Seq<
    (Point, u64),
>
    decreases cands.len(),
{
    if cands.len() == 0 {
        Seq::empty()
    } else {
        let rest = kept_edges(m, p, cands.drop_last(), up);
        if step_ok(m, p, cands.last(), up) {
            rest.push((cands.last(), 1u64))
        } else {
            rest
        }
    }
}

/// The weighted edges out of `p`: the allowed steps among its in-bounds
/// orthogonal neighbors, or nothing at all outside a well-formed grid.
pub open spec fn step_edges(m: HeightMap, p: Point, up: bool) -> Seq<(Point, u64)> {
    if m.wf() && m.in_bounds(p) {
        kept_edges(m, p, m.adjacent(p), up)
    } else {
        Seq::empty()
    }
}

/// Filters the in-bounds neighbors of `p` by the step predicate and tags
/// each with unit cost.
fn step_neighbors(m: &HeightMap, p: &Point, up: bool) -> (v: Vec<(Point, u64)>)
    ensures
        v@ == step_edges(*m, *p, up),
{
    let mut v: Vec<(Point, u64)> = Vec::new();
    if !m.check_wf() {
        return v;
    }
    if !(p.row < m.heights.len() && p.col < m.heights[0].len()) {
        return v;
    }
    let cur = m.get(*p);
    let cands = m.neighbors(*p);
    let mut i: usize = 0;
    proof {
        assert(m.adjacent(*p).take(0) =~= Seq::<Point>::empty());
    }
    while i < cands.len()
        invariant
            0 <= i <= cands@.len(),
            cands@ == m.adjacent(*p),
            m.wf(),
            m.in_bounds(*p),
            cur == m.at(*p),
            forall|j: int| 0 <= j < cands@.len() ==> m.in_bounds(#[trigger] cands@[j]),
            v@ =~= kept_edges(*m, *p, cands@.take(i as int), up),
        decreases cands@.len() - i,
    {
        let q = cands[i];
        let h = m.get(q);
        let keep = if up {
            h <= cur + 1
        } else {
            h + 1 >= cur
        };
        proof {
            assert(cands@.take(i + 1).drop_last() =~= cands@.take(i as int));
            assert(cands@.take(i + 1).last() == cands@[i as int]);
            assert(keep == step_ok(*m, *p, cands@[i as int], up));
        }
        if keep {
            v.push((q, 1));
        }
        i = i + 1;
    }
    proof {
        assert(cands@.take(cands@.len() as int) =~= cands@);
    }
    v
}

impl Ascent {
    /// Builds the climbing space over `map` with terminus `end`.
    pub fn new(map: HeightMap, end: Point) -> (a: Self)
        ensures
            a.map == map,
            a.end == end,
    {
        Ascent { map, end }
    }
}

impl Space for Ascent {
    type St = Point;

    /// The goal is exactly the end cell.
    open spec fn goal(&self, p: Point) -> bool {
        p == self.end
    }

    /// A unit-cost edge to each in-bounds neighbor at most one unit higher.
    open spec fn edges(&self, p: Point) -> Seq<(Point, u64)> {
        step_edges(self.map, p, true)
    }

    fn is_goal(&self, p: &Point) -> (r: bool) {
        p.row == self.end.row && p.col == self.end.col
    }

    fn neighbors(&self, p: &Point) -> (v: Vec<(Point, u64)>) {
        step_neighbors(&self.map, p, true)
    }
}

/// The reversed search space: walking down from the top, a step may drop by
/// at most one unit, and the goal is any ground-level cell.
pub struct Descent {
    pub map: HeightMap,
}

impl Descent {
    /// Builds the descending space over `map`.
    pub fn new(map: HeightMap) -> (d: Self)
        ensures
            d.map == map,
    {
        Descent { map }
    }
}

impl Space for Descent {
    type St = Point;

    /// The goal is any in-bounds cell at ground level.
    open spec fn goal(&self, p: Point) -> bool {
        self.map.wf() && self.map.in_bounds(p) && self.map.at(p) == 0
    }

    /// A unit-cost edge to each in-bounds neighbor at most one unit lower.
    open spec fn edges(&self, p: Point) -> Seq<(Point, u64)> {
        step_edges(self.map, p, false)
    }

    fn is_goal(&self, p: &Point) -> (r: bool) {
        if !self.map.check_wf() {
            return false;
        }
        if p.row < self.map.heights.len() && p.col < self.map.heights[0].len() {
            self.map.get(*p) == 0
        } else {
            false
        }
    }

    fn neighbors(&self, p: &Point) -> (v: Vec<(Point, u64)>) {
        step_neighbors(&self.map, p, false)
    }
}

/// The identity projection on grid cells is injective.
pub proof fn lemma_point_identity()
    ensures
        distinct_idents::<Point>(),
{
}

/// Finds a cheapest climbing path: searches from `start` for the `end`
/// cell, processing at most `limit` frontier entries.  `Found` carries the
/// number of steps of a real path that no path undercuts; `Exhausted` means
/// no path to `end` exists at any representable cost; `Advanced` means the
/// step budget ran out with the search still open.
pub fn shortest_climb(map: HeightMap, start: Point, end: Point, limit: u64) -> (r: StepResult<
    Point,
>)
    ensures
        match r {
            StepResult::Found(s, c) => {
                &&& s == end
                &&& reaches::<Ascent>((Ascent { map, end }), start, end, c as int)
                &&& forall|d: int|
                    #[trigger] reaches::<Ascent>((Ascent { map, end }), start, end, d) ==> c as int
                        <= d
            },
            StepResult::Advanced => true,
            StepResult::Exhausted => forall|d: int|
                #[trigger] reaches::<Ascent>((Ascent { map, end }), start, end, d) ==> d
                    > u64::MAX as int,
        },
        limit >= 1 && start == end ==> r == StepResult::Found(start, 0u64),
{
    let space = Ascent { map, end };
    let mut engine = Dijkstra::<Ascent>::new(start, &space);
    let out = engine.next(&space, limit);
    proof {
        lemma_point_identity();
    }
    match out {
        StepResult::Found(s, c) => {
            proof {
                assert(s == end);
            }
            StepResult::Found(s, c)
        },
        StepResult::Advanced => StepResult::Advanced,
        StepResult::Exhausted => {
            proof {
                assert forall|d: int| #[trigger] reaches::<Ascent>(
                    space,
                    start,
                    end,
                    d,
                ) implies d > u64::MAX as int by {
                    if d <= u64::MAX as int {
                        assert(space.goal(end));
                        assert(engine.results().len() == 0);
                    }
                }
            }
            StepResult::Exhausted
        },
    }
}

/// Some cell of the grid holds the byte `b`.
pub open spec fn grid_has(ps: Seq<Seq<u8>>, b: u8) -> bool {
    exists|r: int, c: int| 0 <= r < ps.len() && 0 <= c < ps[r].len() && #[trigger] ps[r][c] == b
}

/// The lines form a proper map drawing: non-empty rows of equal width made
/// of map characters only.
pub open spec fn good_grid(ps: Seq<Seq<u8>>) -> bool {
    &&& ps.len() >= 1
    &&& ps[0].len() > 0
    &&& forall|r: int| 0 <= r < ps.len() ==> (#[trigger] ps[r]).len() == ps[0].len()
    &&& forall|r: int, c: int|
        0 <= r < ps.len() && 0 <= c < ps[r].len() ==> is_map_byte(#[trigger] ps[r][c])
}

/// `bytes` splits on newlines into a proper map drawing.  The
/// decomposition is unique (`text::lemma_joined_unique`), so this is
/// exactly the success condition of [`parse_map`].
pub open spec fn readable_map(bytes: Seq<u8>) -> bool {
    exists|ps: Seq<Seq<u8>>|
        {
            &&& #[trigger] joined(ps, 10) == bytes
            &&& sep_free(ps, 10)
            &&& good_grid(ps)
        }
}

/// Parses a height map: one line per row, `'a'..='z'` for rising heights,
/// `'S'` for the start (ground level) and `'E'` for the end (top).
/// Succeeds exactly on ASCII input whose lines form a proper drawing; the
/// returned start and end sit on an `'S'` and an `'E'` cell (the last of
/// each in reading order), or default to the top-left corner when the
/// letter is absent, as the original convention had it.
pub fn parse_map(input: &str) -> (r: Option<(HeightMap, Point, Point)>)
    ensures
        match r {
            Some((m, start, end)) => {
                &&& m.wf()
                &&& m.in_bounds(start)
                &&& m.in_bounds(end)
                &&& exists|ps: Seq<Seq<u8>>|
                    {
                        &&& joined(ps, 10) == input.spec_bytes()
                        &&& sep_free(ps, 10)
                        &&& ps.len() == m.rows()
                        &&& forall|rr: int| 0 <= rr < ps.len() ==> (#[trigger] ps[rr]).len()
                            == m.cols()
                        &&& forall|rr: int, cc: int|
                            0 <= rr < ps.len() && 0 <= cc < ps[rr].len() ==> is_map_byte(
                                #[trigger] ps[rr][cc],
                            ) && m.at(Point { row: rr as usize, col: cc as usize }) == height_of(
                                ps[rr][cc],
                            )
                        &&& grid_has(ps, 83) ==> ps[start.row as int][start.col as int] == 83
                        &&& !grid_has(ps, 83) ==> start == (Point { row: 0, col: 0 })
                        &&& grid_has(ps, 69) ==> ps[end.row as int][end.col as int] == 69
                        &&& !grid_has(ps, 69) ==> end == (Point { row: 0, col: 0 })
                    }
            },
            None => !input.is_ascii() || !readable_map(input.spec_bytes()),
        },
{
    if !input.is_ascii() {
        return None;
    }
    let bytes = input.as_bytes_vec();
    let lines = crate::text::split(&bytes, 10);
    let ghost ps = lines@.map_values(|p: Vec<u8>| p@);
    let mut heights: Vec<Vec<u32>> = Vec::new();
    let mut start = Point::new(0, 0);
    let mut end = Point::new(0, 0);
    let ghost mut seen_s: bool = false;
    let ghost mut seen_e: bool = false;
    let width = lines[0].len();
    if width == 0 {
        proof {
            if readable_map(bytes@) {
                let ps2 = choose|ps2: Seq<Seq<u8>>|
                    {
                        &&& #[trigger] joined(ps2, 10) == bytes@
                        &&& sep_free(ps2, 10)
                        &&& good_grid(ps2)
                    };
                crate::text::lemma_joined_unique(ps2, ps, 10);
            }
        }
        return None;
    }
    let mut r: usize = 0;
    while r < lines.len()
        invariant
            0 <= r <= lines@.len(),
            ps == lines@.map_values(|p: Vec<u8>| p@),
            joined(ps, 10) == bytes@,
            sep_free(ps, 10),
            bytes@ == input.spec_bytes(),
            width == ps[0].len(),
            width > 0,
            heights@.len() == r,
            forall|k: int| 0 <= k < r ==> (#[trigger] ps[k]).len() == width,
            forall|k: int| 0 <= k < r ==> (#[trigger] heights@[k])@.len() == width,
            forall|k: int, c: int|
                0 <= k < r && 0 <= c < width ==> is_map_byte(#[trigger] ps[k][c]) && heights@[k]@[c]
                    == height_of(ps[k][c]) && heights@[k]@[c] <= 25,
            !seen_s ==> start == (Point { row: 0, col: 0 }) && forall|k: int, cc: int|
                0 <= k < r && 0 <= cc < ps[k].len() ==> #[trigger] ps[k][cc] != 83,
            seen_s ==> start.row < r && start.col < width && ps[start.row as int][start.col as int]
                == 83,
            !seen_e ==> end == (Point { row: 0, col: 0 }) && forall|k: int, cc: int|
                0 <= k < r && 0 <= cc < ps[k].len() ==> #[trigger] ps[k][cc] != 69,
            seen_e ==> end.row < r && end.col < width && ps[end.row as int][end.col as int] == 69,
        decreases lines@.len() - r,
    {
        if lines[r].len() != width {
            proof {
                if readable_map(bytes@) {
                    let ps2 = choose|ps2: Seq<Seq<u8>>|
                        {
                            &&& #[trigger] joined(ps2, 10) == bytes@
                            &&& sep_free(ps2, 10)
                            &&& good_grid(ps2)
                        };
                    crate::text::lemma_joined_unique(ps2, ps, 10);
                    assert(ps[r as int].len() == ps[0].len());
                }
            }
            return None;
        }
        let mut row: Vec<u32> = Vec::new();
        let mut c: usize = 0;
        while c < lines[r].len()
            invariant
                0 <= r < lines@.len(),
                ps == lines@.map_values(|p: Vec<u8>| p@),
                joined(ps, 10) == bytes@,
                sep_free(ps, 10),
                bytes@ == input.spec_bytes(),
                ps[r as int].len() == width,
                width == ps[0].len(),
                width > 0,
                0 <= c <= width,
                row@.len() == c,
                forall|j: int|
                    0 <= j < c ==> is_map_byte(#[trigger] ps[r as int][j]) && row@[j] == height_of(
                        ps[r as int][j],
                    ) && row@[j] <= 25,
                !seen_s ==> start == (Point { row: 0, col: 0 }) && (forall|k: int, cc: int|
                    0 <= k < r && 0 <= cc < ps[k].len() ==> #[trigger] ps[k][cc] != 83) && (forall|
                    j: int,
                |
                    0 <= j < c ==> #[trigger] ps[r as int][j] != 83),
                seen_s ==> (start.row < r || (start.row == r && start.col < c)) && start.col < width
                    && ps[start.row as int][start.col as int] == 83,
                !seen_e ==> end == (Point { row: 0, col: 0 }) && (forall|k: int, cc: int|
                    0 <= k < r && 0 <= cc < ps[k].len() ==> #[trigger] ps[k][cc] != 69) && (forall|
                    j: int,
                |
                    0 <= j < c ==> #[trigger] ps[r as int][j] != 69),
                seen_e ==> (end.row < r || (end.row == r && end.col < c)) && end.col < width
                    && ps[end.row as int][end.col as int] == 69,
            decreases width - c,
        {
            let b = lines[r][c];
            proof {
                assert(ps[r as int] == lines@[r as int]@);
                assert(ps[r as int][c as int] == b);
            }
            if b == 83 {
                start = Point::new(r, c);
                proof {
                    seen_s = true;
                }
                row.push(0);
            } else if b == 69 {
                end = Point::new(r, c);
                proof {
                    seen_e = true;
                }
                row.push(25);
            } else if 97 <= b && b <= 122 {
                row.push((b - 97) as u32);
            } else {
                proof {
                    if readable_map(bytes@) {
                        let ps2 = choose|ps2: Seq<Seq<u8>>|
                            {
                                &&& #[trigger] joined(ps2, 10) == bytes@
                                &&& sep_free(ps2, 10)
                                &&& good_grid(ps2)
                            };
                        crate::text::lemma_joined_unique(ps2, ps, 10);
                        assert(is_map_byte(ps[r as int][c as int]));
                    }
                }
                return None;
            }
            c = c + 1;
        }
        heights.push(row);
        r = r + 1;
    }
    let map = HeightMap { heights };
    proof {
        assert(ps.len() == lines@.len());
        assert forall|rr: int, cc: int|
            0 <= rr < map.heights@.len() && 0 <= cc < map.heights@[rr]@.len() implies (
        #[trigger] map.heights@[rr]@[cc]) <= 25 by {
            assert(map.heights@[rr]@.len() == width);
            assert(is_map_byte(ps[rr][cc]));
        }
        assert(map.wf());
        assert(map.in_bounds(start));
        assert(map.in_bounds(end));
        assert(joined(ps, 10) == input.spec_bytes());
        if grid_has(ps, 83) {
            let (rr, cc) = choose|rr: int, cc: int|
                0 <= rr < ps.len() && 0 <= cc < ps[rr].len() && #[trigger] ps[rr][cc] == 83;
            assert(seen_s) by {
                if !seen_s {
                    assert(ps[rr][cc] != 83);
                }
            }
        }
        if grid_has(ps, 69) {
            let (rr, cc) = choose|rr: int, cc: int|
                0 <= rr < ps.len() && 0 <= cc < ps[rr].len() && #[trigger] ps[rr][cc] == 69;
            assert(seen_e) by {
                if !seen_e {
                    assert(ps[rr][cc] != 69);
                }
            }
        }
        if !seen_s {
            assert(!grid_has(ps, 83)) by {
                if grid_has(ps, 83) {
                    assert(false);
                }
            }
        }
        if !seen_e {
            assert(!grid_has(ps, 69)) by {
                if grid_has(ps, 69) {
                    assert(false);
                }
            }
        }
    }
    Some((map, start, end))
}

} // verus!
