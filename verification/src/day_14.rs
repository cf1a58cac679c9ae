//! Falling sand: units drop from a source, sliding down, down-left or
//! down-right past blocked cells, until they rest, fall past the lowest
//! rock, or clog the source.

use vstd::prelude::*;

verus! {

/// A cave cell; `y` grows downward.
#[derive(Clone, Copy, Debug, PartialEq, Eq, Structural)]
pub struct Point {
    pub x: isize,
    pub y: isize,
}

impl Point {
    /// Builds the cell `(x, y)`.
    pub fn new(x: isize, y: isize) -> (p: Self)
        ensures
            p == (Point { x, y }),
    {
        Self { x, y }
    }

    /// The three cells a sand unit tries next: straight down, down-left,
    /// down-right.
    pub fn moves(self) -> (v: Vec<Point>)
        requires
            -1_000_000 <= self.x <= 1_000_000,
            -1_000_000 <= self.y <= 1_000_000,
        ensures
            v@ =~= fall_moves(self),
    {
        let mut v: Vec<Point> = Vec::new();
        v.push(Point::new(self.x, self.y + 1));
        v.push(Point::new(self.x - 1, self.y + 1));
        v.push(Point::new(self.x + 1, self.y + 1));
        v
    }
}

/// The candidate cells below `p`, in the order tried.
pub open spec fn fall_moves(p: Point) -> Seq<Point> {
    seq![
        Point { x: p.x, y: (p.y + 1) as isize },
        Point { x: (p.x - 1) as isize, y: (p.y + 1) as isize },
        Point { x: (p.x + 1) as isize, y: (p.y + 1) as isize },
    ]
}

/// `p` occurs in `s`.
pub open spec fn cell_in(s: Seq<Point>, p: Point) -> bool {
    exists|i: int| 0 <= i < s.len() && #[trigger] s[i] == p
}

/// What became of one dropped sand unit.
#[derive(Clone, Copy, Debug, PartialEq, Eq, Structural)]
pub enum SandResult {
    /// The unit came to rest and now blocks a cell.
    Stopped,
    /// The unit fell past the lowest rock.
    FellIntoAbyss,
    /// The unit could not leave the source.
    Clogged,
}

/// The cave: the blocked cells (rock and resting sand) and the depth of
/// the lowest rock.
pub struct Rock {
    pub blocked: Vec<Point>,
    pub max_y: isize,
}

impl Rock {
    /// Cells are near the source and the depth is small.
    pub open spec fn wf(&self) -> bool {
        &&& 0 <= self.max_y <= 100_000
        &&& forall|i: int|
            0 <= i < self.blocked@.len() ==> -1_000_000 <= (#[trigger] self.blocked@[i]).x
                <= 1_000_000 && -1_000_000 <= self.blocked@[i].y <= 1_000_000
    }

    /// Whether `p` is blocked.
    fn is_blocked(&self, p: Point) -> (r: bool)
        ensures
            r == cell_in(self.blocked@, p),
    {
        let mut i: usize = 0;
        while i < self.blocked.len()
            invariant
                0 <= i <= self.blocked@.len(),
                forall|k: int| 0 <= k < i ==> #[trigger] self.blocked@[k] != p,
            decreases self.blocked@.len() - i,
        {
            let b = self.blocked[i];
            if b.x == p.x && b.y == p.y {
                proof {
                    assert(self.blocked@[i as int] == p);
                }
                return true;
            }
            i = i + 1;
        }
        false
    }

    /// Drops one unit from `(500, 0)` with no floor: it either rests on a
    /// new cell whose three lower neighbors are all blocked, or falls past
    /// the lowest rock and the cave is unchanged.
    pub fn sand_unit(&mut self) -> (r: SandResult)
        requires
            old(self).wf(),
        ensures
            final(self).wf(),
            final(self).max_y == old(self).max_y,
            match r {
                SandResult::Stopped => (exists|p: Point|
                    {
                        &&& final(self).blocked@ == #[trigger] old(self).blocked@.push(p)
                        &&& !cell_in(old(self).blocked@, p)
                        &&& 0 <= p.y <= old(self).max_y
                        &&& forall|j: int| 0 <= j < 3 ==> cell_in(
                            old(self).blocked@,
                            #[trigger] fall_moves(p)[j],
                        )
                    }) || (final(self).blocked@ == old(self).blocked@ && cell_in(
                    old(self).blocked@,
                    (Point { x: 500, y: 0 }),
                )),
                SandResult::FellIntoAbyss => final(self).blocked@ == old(self).blocked@,
                SandResult::Clogged => false,
            },
    {
        let mut position = Point::new(500, 0);
        while position.y <= self.max_y
            invariant
                self.wf(),
                *self == *old(self),
                0 <= position.y <= self.max_y + 1,
                499 - position.y <= position.x <= 501 + position.y,
                position.y == 0 ==> position.x == 500,
                position.y > 0 ==> !cell_in(self.blocked@, position),
            decreases self.max_y + 1 - position.y,
        {
            let cands = position.moves();
            let c0 = cands[0];
            let c1 = cands[1];
            let c2 = cands[2];
            if !self.is_blocked(c0) {
                position = c0;
            } else if !self.is_blocked(c1) {
                position = c1;
            } else if !self.is_blocked(c2) {
                position = c2;
            } else {
                proof {
                    assert(fall_moves(position)[0] == c0);
                    assert(fall_moves(position)[1] == c1);
                    assert(fall_moves(position)[2] == c2);
                }
                if position.y == 0 {
                    let already = self.is_blocked(position);
                    if already {
                        // The unit cannot even enter the blocked source
                        // cell; nothing changes.
                        return SandResult::Stopped;
                    }
                }
                self.blocked.push(position);
                return SandResult::Stopped;
            }
        }
        SandResult::FellIntoAbyss
    }

    /// Drops one unit from `(500, 0)` above an infinite floor at depth
    /// `max_y + 2`: it rests on a new cell (on the floor, or with its three
    /// lower neighbors blocked), or reports the source clogged.
    pub fn sand_unit_floor(&mut self) -> (r: SandResult)
        requires
            old(self).wf(),
        ensures
            final(self).wf(),
            final(self).max_y == old(self).max_y,
            match r {
                SandResult::Stopped => exists|p: Point|
                    {
                        &&& final(self).blocked@ == #[trigger] old(self).blocked@.push(p)
                        &&& !cell_in(old(self).blocked@, p)
                        &&& 0 <= p.y <= old(self).max_y + 1
                        &&& (p.y == old(self).max_y + 1 || forall|j: int|
                            0 <= j < 3 ==> cell_in(old(self).blocked@, #[trigger] fall_moves(p)[j]))
                    },
                SandResult::FellIntoAbyss => false,
                SandResult::Clogged => {
                    &&& final(self).blocked@ == old(self).blocked@
                    &&& (cell_in(old(self).blocked@, (Point { x: 500, y: 0 })) || forall|j: int|
                        0 <= j < 3 ==> cell_in(
                            old(self).blocked@,
                            #[trigger] fall_moves((Point { x: 500, y: 0 }))[j],
                        ))
                },
            },
    {
        let mut position = Point::new(500, 0);
        while position.y <= self.max_y
            invariant
                self.wf(),
                *self == *old(self),
                0 <= position.y <= self.max_y + 1,
                499 - position.y <= position.x <= 501 + position.y,
                position.y == 0 ==> position.x == 500,
                position.y > 0 ==> !cell_in(self.blocked@, position),
            decreases self.max_y + 1 - position.y,
        {
            let cands = position.moves();
            let c0 = cands[0];
            let c1 = cands[1];
            let c2 = cands[2];
            proof {
                assert(fall_moves(position)[0] == c0);
                assert(fall_moves(position)[1] == c1);
                assert(fall_moves(position)[2] == c2);
            }
            if !self.is_blocked(c0) {
                position = c0;
            } else if !self.is_blocked(c1) {
                position = c1;
            } else if !self.is_blocked(c2) {
                position = c2;
            } else {
                if position.y == 0 {
                    return SandResult::Clogged;
                }
                self.blocked.push(position);
                return SandResult::Stopped;
            }
        }
        // Resting on the floor one past the lowest rock.
        if position.y > 0 {
            self.blocked.push(position);
            SandResult::Stopped
        } else {
            SandResult::Clogged
        }
    }
}

/// Parses one rock path `x,y -> x,y -> ...` and expands it into the cells
/// of its horizontal and vertical segments; also reports the deepest `y`
/// on the path.  Coordinates must be small and segments axis-aligned.
pub fn parse_path(input: &Vec<u8>) -> (r: Option<(isize, Vec<Point>)>)
    ensures
        match r {
            Some((my, path)) => {
                &&& 0 <= my <= 100_000
                &&& forall|i: int|
                    0 <= i < path@.len() ==> -1_000_000 <= (#[trigger] path@[i]).x <= 1_000_000
                        && 0 <= path@[i].y <= 100_000
            },
            None => true,
        },
{
    let parts = crate::text::split(input, 32);
    // Tokens alternate "x,y" and "->"; keep the coordinate tokens.
    let mut points: Vec<Point> = Vec::new();
    let mut i: usize = 0;
    while i < parts.len()
        invariant
            0 <= i <= parts@.len(),
            forall|k: int|
                0 <= k < points@.len() ==> -1_000_000 <= (#[trigger] points@[k]).x <= 1_000_000
                    && 0 <= points@[k].y <= 100_000,
        decreases parts@.len() - i,
    {
        let token = &parts[i];
        if !(token.len() == 2 && token[0] == 45 && token[1] == 62) {
            let pair = crate::text::split(token, 44);
            if pair.len() != 2 {
                return None;
            }
            let x = match crate::text::parse_u64(&pair[0]) {
                Some(n) => n,
                None => {
                    return None;
                },
            };
            let y = match crate::text::parse_u64(&pair[1]) {
                Some(n) => n,
                None => {
                    return None;
                },
            };
            if x > 1_000_000 || y > 100_000 {
                return None;
            }
            points.push(Point::new(x as isize, y as isize));
        }
        i = i + 1;
    }
    let mut path: Vec<Point> = Vec::new();
    let mut max_y: isize = 0;
    let mut index: usize = 1;
    while index < points.len()
        invariant
            1 <= index <= points@.len() || points@.len() == 0,
            0 <= max_y <= 100_000,
            forall|k: int|
                0 <= k < points@.len() ==> -1_000_000 <= (#[trigger] points@[k]).x <= 1_000_000
                    && 0 <= points@[k].y <= 100_000,
            forall|k: int|
                0 <= k < path@.len() ==> -1_000_000 <= (#[trigger] path@[k]).x <= 1_000_000 && 0
                    <= path@[k].y <= 100_000,
        decreases points@.len() - index,
    {
        let start = points[index - 1];
        let end = points[index];
        if start.x == end.x {
            let lo = if start.y < end.y {
                start.y
            } else {
                end.y
            };
            let hi = if start.y < end.y {
                end.y
            } else {
                start.y
            };
            if hi > max_y {
                max_y = hi;
            }
            let mut y = lo;
            while y <= hi
                invariant
                    0 <= lo <= y,
                    y <= hi + 1,
                    hi <= 100_000,
                    -1_000_000 <= start.x <= 1_000_000,
                    forall|k: int|
                        0 <= k < path@.len() ==> -1_000_000 <= (#[trigger] path@[k]).x <= 1_000_000
                            && 0 <= path@[k].y <= 100_000,
                decreases hi + 1 - y,
            {
                path.push(Point::new(start.x, y));
                y = y + 1;
            }
        } else if start.y == end.y {
            if start.y > max_y {
                max_y = start.y;
            }
            let lo = if start.x < end.x {
                start.x
            } else {
                end.x
            };
            let hi = if start.x < end.x {
                end.x
            } else {
                start.x
            };
            let mut x = lo;
            while x <= hi
                invariant
                    -1_000_000 <= lo <= x,
                    x <= hi + 1,
                    hi <= 1_000_000,
                    0 <= start.y <= 100_000,
                    forall|k: int|
                        0 <= k < path@.len() ==> -1_000_000 <= (#[trigger] path@[k]).x <= 1_000_000
                            && 0 <= path@[k].y <= 100_000,
                decreases hi + 1 - x,
            {
                path.push(Point::new(x, start.y));
                x = x + 1;
            }
        } else {
            return None;
        }
        index = index + 1;
    }
    Some((max_y, path))
}

/// Parses a whole rock drawing, one path per line, into the cave.
pub fn parse_rock(input: &str) -> (r: Option<Rock>)
    ensures
        match r {
            Some(rock) => rock.wf(),
            None => true,
        },
{
    if !input.is_ascii() {
        return None;
    }
    let bytes = input.as_bytes_vec();
    let lines = crate::text::split(&bytes, 10);
    let mut blocked: Vec<Point> = Vec::new();
    let mut max_y: isize = 0;
    let mut i: usize = 0;
    while i < lines.len()
        invariant
            0 <= i <= lines@.len(),
            0 <= max_y <= 100_000,
            forall|k: int|
                0 <= k < blocked@.len() ==> -1_000_000 <= (#[trigger] blocked@[k]).x <= 1_000_000
                    && -1_000_000 <= blocked@[k].y <= 1_000_000,
        decreases lines@.len() - i,
    {
        let (y, mut path) = match parse_path(&lines[i]) {
            Some(p) => p,
            None => {
                return None;
            },
        };
        if y > max_y {
            max_y = y;
        }
        let mut j: usize = 0;
        while j < path.len()
            invariant
                0 <= j <= path@.len(),
                forall|k: int|
                    0 <= k < path@.len() ==> -1_000_000 <= (#[trigger] path@[k]).x <= 1_000_000 && 0
                        <= path@[k].y <= 100_000,
                forall|k: int|
                    0 <= k < blocked@.len() ==> -1_000_000 <= (#[trigger] blocked@[k]).x
                        <= 1_000_000 && -1_000_000 <= blocked@[k].y <= 1_000_000,
            decreases path@.len() - j,
        {
            blocked.push(path[j]);
            j = j + 1;
        }
        i = i + 1;
    }
    Some(Rock { blocked, max_y })
}

} // verus!
