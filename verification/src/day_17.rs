//! Falling rocks in a narrow chamber: five rock shapes drop in rotation,
//! pushed sideways by a repeating jet pattern, and pile up on the floor.

use vstd::prelude::*;

verus! {

/// A chamber cell: `x` counts from the left wall, `y` from the floor
/// (row 0 is the floor itself).
#[derive(Clone, Copy, Debug, PartialEq, Eq, Structural)]
pub struct Point {
    pub x: usize,
    pub y: usize,
}

impl Point {
    /// Builds the cell `(x, y)`.
    pub fn new(x: usize, y: usize) -> (p: Self)
        ensures
            p == (Point { x, y }),
    {
        Point { x, y }
    }
}

/// One sideways push.
#[derive(Clone, Copy, Debug, PartialEq, Eq, Structural)]
pub enum Jet {
    Left,
    Right,
}

impl Jet {
    /// Decodes a jet character: `<` pushes left, `>` pushes right.
    pub fn from_char(chr: char) -> (j: Self)
        requires
            chr == '<' || chr == '>',
        ensures
            j == if chr == '<' {
                Jet::Left
            } else {
                Jet::Right
            },
    {
        if chr == '<' {
            Jet::Left
        } else {
            Jet::Right
        }
    }
}

/// The five rock shapes, in drop order.
#[derive(Clone, Copy, Debug, PartialEq, Eq, Structural)]
pub enum RockKind {
    Horizontal,
    Plus,
    L,
    Vertical,
    Box,
}

/// The rightmost column a rock of this kind may have as its origin while
/// staying inside the seven-column chamber.
pub open spec fn max_origin_x(kind: RockKind) -> int {
    match kind {
        RockKind::Horizontal => 3,
        RockKind::Plus => 4,
        RockKind::L => 4,
        RockKind::Vertical => 6,
        RockKind::Box => 5,
    }
}

/// A falling rock: its shape and the cell of its lower-left corner.
#[derive(Clone, Copy, Debug, PartialEq, Eq, Structural)]
pub struct Rock {
    pub kind: RockKind,
    pub origin: Point,
}

/// The cells a rock occupies.
pub open spec fn rock_cells(r: Rock) -> Seq<Point> {
    let x = r.origin.x as int;
    let y = r.origin.y as int;
    match r.kind {
        RockKind::Horizontal => seq![
            Point { x: x as usize, y: y as usize },
            Point { x: (x + 1) as usize, y: y as usize },
            Point { x: (x + 2) as usize, y: y as usize },
            Point { x: (x + 3) as usize, y: y as usize },
        ],
        RockKind::Plus => seq![
            Point { x: (x + 1) as usize, y: y as usize },
            Point { x: x as usize, y: (y + 1) as usize },
            Point { x: (x + 1) as usize, y: (y + 1) as usize },
            Point { x: (x + 1) as usize, y: (y + 2) as usize },
            Point { x: (x + 2) as usize, y: (y + 1) as usize },
        ],
        RockKind::L => seq![
            Point { x: x as usize, y: y as usize },
            Point { x: (x + 1) as usize, y: y as usize },
            Point { x: (x + 2) as usize, y: y as usize },
            Point { x: (x + 2) as usize, y: (y + 1) as usize },
            Point { x: (x + 2) as usize, y: (y + 2) as usize },
        ],
        RockKind::Vertical => seq![
            Point { x: x as usize, y: y as usize },
            Point { x: x as usize, y: (y + 1) as usize },
            Point { x: x as usize, y: (y + 2) as usize },
            Point { x: x as usize, y: (y + 3) as usize },
        ],
        RockKind::Box => seq![
            Point { x: x as usize, y: y as usize },
            Point { x: x as usize, y: (y + 1) as usize },
            Point { x: (x + 1) as usize, y: y as usize },
            Point { x: (x + 1) as usize, y: (y + 1) as usize },
        ],
    }
}

impl Rock {
    /// A rock of the given shape at the given origin.
    pub fn new(kind: RockKind, origin: Point) -> (r: Self)
        ensures
            r == (Rock { kind, origin }),
    {
        Rock { kind, origin }
    }

    /// The rock one column to the left, unless it touches the left wall.
    pub fn move_left(self) -> (r: Option<Self>)
        ensures
            r == if self.origin.x > 0 {
                Some(
                    Rock {
                        kind: self.kind,
                        origin: (Point { x: (self.origin.x - 1) as usize, y: self.origin.y }),
                    },
                )
            } else {
                None::<Rock>
            },
    {
        if self.origin.x > 0 {
            Some(Rock::new(self.kind, Point::new(self.origin.x - 1, self.origin.y)))
        } else {
            None
        }
    }

    /// The rock one column to the right, unless its shape touches the
    /// right wall.
    pub fn move_right(self) -> (r: Option<Self>)
        requires
            self.origin.x <= 6,
        ensures
            r == if self.origin.x < max_origin_x(self.kind) {
                Some(
                    Rock {
                        kind: self.kind,
                        origin: (Point { x: (self.origin.x + 1) as usize, y: self.origin.y }),
                    },
                )
            } else {
                None::<Rock>
            },
    {
        let max_x: usize = match self.kind {
            RockKind::Horizontal => 3,
            RockKind::Plus => 4,
            RockKind::L => 4,
            RockKind::Vertical => 6,
            RockKind::Box => 5,
        };
        if self.origin.x < max_x {
            Some(Rock::new(self.kind, Point::new(self.origin.x + 1, self.origin.y)))
        } else {
            None
        }
    }

    /// The rock one row down, unless it sits just above the floor.
    pub fn move_down(self) -> (r: Option<Self>)
        ensures
            r == if self.origin.y > 1 {
                Some(
                    Rock {
                        kind: self.kind,
                        origin: (Point { x: self.origin.x, y: (self.origin.y - 1) as usize }),
                    },
                )
            } else {
                None::<Rock>
            },
    {
        if self.origin.y > 1 {
            Some(Rock::new(self.kind, Point::new(self.origin.x, self.origin.y - 1)))
        } else {
            None
        }
    }

    /// The cells this rock occupies.
    pub fn points(self) -> (v: Vec<Point>)
        requires
            self.origin.x <= 1_000_000,
            self.origin.y <= 1_000_000,
        ensures
            v@ =~= rock_cells(self),
    {
        let x = self.origin.x;
        let y = self.origin.y;
        let mut v: Vec<Point> = Vec::new();
        match self.kind {
            RockKind::Horizontal => {
                v.push(Point::new(x, y));
                v.push(Point::new(x + 1, y));
                v.push(Point::new(x + 2, y));
                v.push(Point::new(x + 3, y));
            },
            RockKind::Plus => {
                v.push(Point::new(x + 1, y));
                v.push(Point::new(x, y + 1));
                v.push(Point::new(x + 1, y + 1));
                v.push(Point::new(x + 1, y + 2));
                v.push(Point::new(x + 2, y + 1));
            },
            RockKind::L => {
                v.push(Point::new(x, y));
                v.push(Point::new(x + 1, y));
                v.push(Point::new(x + 2, y));
                v.push(Point::new(x + 2, y + 1));
                v.push(Point::new(x + 2, y + 2));
            },
            RockKind::Vertical => {
                v.push(Point::new(x, y));
                v.push(Point::new(x, y + 1));
                v.push(Point::new(x, y + 2));
                v.push(Point::new(x, y + 3));
            },
            RockKind::Box => {
                v.push(Point::new(x, y));
                v.push(Point::new(x, y + 1));
                v.push(Point::new(x + 1, y));
                v.push(Point::new(x + 1, y + 1));
            },
        }
        v
    }
}

/// `p` occurs in `s`.
pub open spec fn cell_blocked(s: Seq<Point>, p: Point) -> bool {
    exists|i: int| 0 <= i < s.len() && #[trigger] s[i] == p
}

/// Some cell of the rock is already blocked.
pub open spec fn rock_covered(blocked: Seq<Point>, r: Rock) -> bool {
    exists|j: int| 0 <= j < rock_cells(r).len() && cell_blocked(blocked, #[trigger] rock_cells(r)[j])
}

/// The chamber: the repeating jet pattern with its cursor, the settled
/// cells, and the height of the pile.
pub struct Cave {
    pub jets: Vec<Jet>,
    pub jet_index: usize,
    pub blocked: Vec<Point>,
    pub max_y: usize,
}

impl Cave {
    /// There is at least one jet, the cursor is in range, the pile is not
    /// absurdly high, and every settled cell lies in the chamber below the
    /// recorded height.
    pub open spec fn wf(&self) -> bool {
        &&& self.jets@.len() >= 1
        &&& self.jet_index < self.jets@.len()
        &&& self.max_y <= 1_000_000
        &&& forall|i: int|
            0 <= i < self.blocked@.len() ==> (#[trigger] self.blocked@[i]).x <= 6 && 1
                <= self.blocked@[i].y <= self.max_y
    }

    /// An empty chamber driven by the given jet pattern.
    pub fn new(jets: Vec<Jet>) -> (c: Self)
        requires
            jets@.len() >= 1,
        ensures
            c.wf(),
            c.jets@ == jets@,
            c.jet_index == 0,
            c.blocked@ =~= Seq::<Point>::empty(),
            c.max_y == 0,
    {
        Cave { jets, jet_index: 0, blocked: Vec::new(), max_y: 0 }
    }

    /// Whether any cell of `rock` is already settled.
    pub fn is_covered(&self, rock: Rock) -> (r: bool)
        requires
            rock.origin.x <= 1_000_000,
            rock.origin.y <= 1_000_000,
        ensures
            r == rock_covered(self.blocked@, rock),
    {
        let cells = rock.points();
        let mut j: usize = 0;
        while j < cells.len()
            invariant
                0 <= j <= cells@.len(),
                cells@ =~= rock_cells(rock),
                forall|k: int| 0 <= k < j ==> !cell_blocked(self.blocked@, #[trigger] cells@[k]),
            decreases cells@.len() - j,
        {
            let p = cells[j];
            let mut i: usize = 0;
            while i < self.blocked.len()
                invariant
                    0 <= i <= self.blocked@.len(),
                    0 <= j < cells@.len(),
                    cells@ =~= rock_cells(rock),
                    p == cells@[j as int],
                    forall|k: int| 0 <= k < i ==> #[trigger] self.blocked@[k] != p,
                decreases self.blocked@.len() - i,
            {
                let b = self.blocked[i];
                if b.x == p.x && b.y == p.y {
                    proof {
                        assert(self.blocked@[i as int] == p);
                        assert(cell_blocked(self.blocked@, cells@[j as int]));
                        assert(cell_blocked(self.blocked@, rock_cells(rock)[j as int]));
                    }
                    return true;
                }
                i = i + 1;
            }
            j = j + 1;
        }
        false
    }

    /// A fingerprint of the top forty rows: `#` for settled cells and `.`
    /// for air, row by row from forty below the top, used to detect cycles
    /// of the dropping process.
    pub fn hash_top(&self) -> (s: String)
        requires
            self.wf(),
            self.max_y >= 39,
        ensures
            s@.len() == 280,
            forall|k: int|
                0 <= k < 280 ==> (#[trigger] s@[k]) == if cell_blocked(
                    self.blocked@,
                    (Point {
                        x: (k % 7) as usize,
                        y: (self.max_y - 39 + k / 7) as usize,
                    }),
                ) {
                    '#'
                } else {
                    '.'
                },
    {
        let mut out: Vec<u8> = Vec::new();
        let mut y = self.max_y - 39;
        proof {
            assert(out@.len() == 0);
        }
        while y <= self.max_y
            invariant
                self.wf(),
                self.max_y >= 39,
                self.max_y - 39 <= y <= self.max_y + 1,
                out@.len() == (y - (self.max_y - 39)) * 7,
                forall|k: int|
                    0 <= k < out@.len() ==> (#[trigger] out@[k]) == if cell_blocked(
                        self.blocked@,
                        (Point {
                            x: (k % 7) as usize,
                            y: (self.max_y - 39 + k / 7) as usize,
                        }),
                    ) {
                        35u8
                    } else {
                        46u8
                    },
            decreases self.max_y + 1 - y,
        {
            let mut x: usize = 0;
            while x < 7
                invariant
                    0 <= x <= 7,
                    self.wf(),
                    self.max_y >= 39,
                    self.max_y - 39 <= y <= self.max_y,
                    out@.len() == (y - (self.max_y - 39)) * 7 + x,
                    forall|k: int|
                        0 <= k < out@.len() ==> (#[trigger] out@[k]) == if cell_blocked(
                            self.blocked@,
                            (Point {
                                x: (k % 7) as usize,
                                y: (self.max_y - 39 + k / 7) as usize,
                            }),
                        ) {
                            35u8
                        } else {
                            46u8
                        },
                decreases 7 - x,
            {
                let p = Point::new(x, y);
                let mut blocked_here = false;
                let mut i: usize = 0;
                while i < self.blocked.len()
                    invariant
                        0 <= i <= self.blocked@.len(),
                        blocked_here ==> cell_blocked(self.blocked@, p),
                        !blocked_here ==> forall|k: int|
                            0 <= k < i ==> #[trigger] self.blocked@[k] != p,
                    decreases self.blocked@.len() - i,
                {
                    let b = self.blocked[i];
                    if b.x == p.x && b.y == p.y {
                        proof {
                            assert(self.blocked@[i as int] == p);
                        }
                        blocked_here = true;
                    }
                    i = i + 1;
                }
                proof {
                    let k = out@.len() as int;
                    assert(k % 7 == x && k / 7 == y - (self.max_y - 39)) by (nonlinear_arith)
                        requires
                            k == (y - (self.max_y - 39)) * 7 + x,
                            0 <= x < 7,
                            self.max_y - 39 <= y,
                    ;
                }
                if blocked_here {
                    out.push(35);
                } else {
                    out.push(46);
                }
                x = x + 1;
            }
            y = y + 1;
        }
        proof {
            assert(out@.len() == 280);
            assert forall|k: int| 0 <= k < out@.len() implies out@[k] < 128 by {}
        }
        crate::text::ascii_string(&out)
    }

    /// Keeps a candidate position only when it exists and is not covered.
    pub fn moved_rock(&self, maybe_rock: Option<Rock>) -> (r: Option<Rock>)
        requires
            maybe_rock matches Some(rk) ==> rk.origin.x <= 1_000_000 && rk.origin.y <= 1_000_000,
        ensures
            r == match maybe_rock {
                Some(rk) => if rock_covered(self.blocked@, rk) {
                    None::<Rock>
                } else {
                    Some(rk)
                },
                None => None::<Rock>,
            },
    {
        match maybe_rock {
            Some(rock) => {
                if self.is_covered(rock) {
                    None
                } else {
                    Some(rock)
                }
            },
            None => None,
        }
    }

    /// Drops one rock of the given shape from above the pile: alternating
    /// jet pushes and falls until the rock settles, its cells joining the
    /// settled set and the pile height growing by at most its own height.
    /// The settled rock rests inside the chamber on the floor or on a cell
    /// that blocks the row below it, at most one row above the old pile.
    pub fn drop_rock(&mut self, kind: RockKind)
        requires
            old(self).wf(),
            old(self).max_y <= 999_000,
        ensures
            final(self).wf(),
            final(self).jets@ == old(self).jets@,
            old(self).max_y <= final(self).max_y <= old(self).max_y + 4,
            exists|landed: Rock|
                {
                    &&& landed.kind == kind
                    &&& final(self).blocked@ =~= old(self).blocked@ + #[trigger] rock_cells(landed)
                    &&& !rock_covered(old(self).blocked@, landed)
                    &&& landed.origin.x <= max_origin_x(landed.kind)
                    &&& 1 <= landed.origin.y <= old(self).max_y + 1
                    &&& (landed.origin.y == 1 || rock_covered(
                        old(self).blocked@,
                        (Rock {
                            kind: landed.kind,
                            origin: (Point {
                                x: landed.origin.x,
                                y: (landed.origin.y - 1) as usize,
                            }),
                        }),
                    ))
                },
    {
        let start = Point::new(2, self.max_y + 4);
        let mut rock = Rock::new(kind, start);
        loop
            invariant_except_break
                self.wf(),
                old(self).max_y <= 999_000,
                self.blocked@ == old(self).blocked@,
                self.max_y == old(self).max_y,
                rock.origin.x <= max_origin_x(rock.kind),
                1 <= rock.origin.y <= self.max_y + 4,
                rock.kind == kind,
                !rock_covered(self.blocked@, rock) || rock.origin.y > self.max_y,
            invariant
                self.jets@ == old(self).jets@,
                self.jets@.len() >= 1,
                self.jet_index < self.jets@.len(),
                self.max_y <= 1_000_000,
            ensures
                self.wf(),
                self.jets@ == old(self).jets@,
                old(self).max_y <= self.max_y <= old(self).max_y + 4,
                exists|landed: Rock|
                    {
                        &&& landed.kind == kind
                        &&& self.blocked@ =~= old(self).blocked@ + #[trigger] rock_cells(landed)
                        &&& !rock_covered(old(self).blocked@, landed)
                        &&& landed.origin.x <= max_origin_x(landed.kind)
                        &&& 1 <= landed.origin.y <= old(self).max_y + 1
                        &&& (landed.origin.y == 1 || rock_covered(
                            old(self).blocked@,
                            (Rock {
                                kind: landed.kind,
                                origin: (Point {
                                    x: landed.origin.x,
                                    y: (landed.origin.y - 1) as usize,
                                }),
                            }),
                        ))
                    },
            decreases rock.origin.y,
        {
            proof {
                if rock.origin.y > self.max_y {
                    assert(!rock_covered(self.blocked@, rock)) by {
                        assert forall|j: int|
                            0 <= j < rock_cells(rock).len() implies !cell_blocked(
                            self.blocked@,
                            #[trigger] rock_cells(rock)[j],
                        ) by {
                            assert(rock_cells(rock)[j].y >= rock.origin.y);
                            if cell_blocked(self.blocked@, rock_cells(rock)[j]) {
                                let i = choose|i: int|
                                    0 <= i < self.blocked@.len() && #[trigger] self.blocked@[i]
                                        == rock_cells(rock)[j];
                                assert(self.blocked@[i].y <= self.max_y);
                            }
                        }
                    }
                }
            }
            let jet = self.jets[self.jet_index];
            let njets = self.jets.len();
            self.jet_index = (self.jet_index + 1) % njets;
            let pushed = match jet {
                Jet::Left => rock.move_left(),
                Jet::Right => rock.move_right(),
            };
            match self.moved_rock(pushed) {
                Some(moved) => {
                    rock = moved;
                },
                None => {},
            }
            let below = rock.move_down();
            let fallen = self.moved_rock(below);
            match fallen {
                Some(moved) => {
                    rock = moved;
                },
                None => {
                    // The rock settles here: either it sits on the floor,
                    // or some cell one row down is already taken, which
                    // bounds how high it can rest above the pile.
                    proof {
                        match below {
                            Some(b) => {
                                assert(rock_covered(self.blocked@, b));
                                let j = choose|j: int|
                                    0 <= j < rock_cells(b).len() && cell_blocked(
                                        self.blocked@,
                                        #[trigger] rock_cells(b)[j],
                                    );
                                let i = choose|i: int|
                                    0 <= i < self.blocked@.len() && #[trigger] self.blocked@[i]
                                        == rock_cells(b)[j];
                                assert(self.blocked@[i].y <= self.max_y);
                                assert(rock_cells(b)[j].y >= b.origin.y);
                                assert(rock.origin.y <= self.max_y + 1);
                            },
                            None => {
                                assert(rock.origin.y == 1);
                            },
                        }
                    }
                    let cells = rock.points();
                    let ghost landed = rock;
                    let ghost blocked0 = self.blocked@;
                    let ghost base_max = self.max_y;
                    let mut j: usize = 0;
                    while j < cells.len()
                        invariant
                            0 <= j <= cells@.len(),
                            cells@ =~= rock_cells(landed),
                            self.jets@ == old(self).jets@,
                            self.jets@.len() >= 1,
                            self.jet_index < self.jets@.len(),
                            self.blocked@ =~= blocked0 + cells@.take(j as int),
                            landed.origin.x <= max_origin_x(landed.kind),
                            1 <= landed.origin.y <= base_max + 1,
                            base_max <= 999_000 + 4,
                            base_max <= self.max_y <= base_max + 4,
                            self.max_y <= 1_000_000,
                            forall|i: int|
                                0 <= i < self.blocked@.len() ==> (#[trigger] self.blocked@[i]).x
                                    <= 6 && 1 <= self.blocked@[i].y <= self.max_y,
                        decreases cells@.len() - j,
                    {
                        let p = cells[j];
                        proof {
                            assert(cells@[j as int].x <= 6);
                            assert(cells@[j as int].y <= landed.origin.y + 3);
                            assert(cells@[j as int].y >= landed.origin.y);
                            assert(cells@.take(j + 1) =~= cells@.take(j as int).push(
                                cells@[j as int],
                            ));
                        }
                        self.blocked.push(p);
                        if p.y > self.max_y {
                            self.max_y = p.y;
                        }
                        j = j + 1;
                    }
                    proof {
                        assert(cells@.take(cells@.len() as int) =~= cells@);
                        assert(self.blocked@ =~= blocked0 + rock_cells(landed));
                    }
                    break ;
                },
            }
        }
    }
}

/// Parses the jet pattern: a line of `<` and `>` characters.  Succeeds
/// exactly when every byte is one of the two arrows.
pub fn parse_jets(input: &str) -> (r: Option<Vec<Jet>>)
    requires
        input.is_ascii(),
    ensures
        ({
            let s = vstd::string::StringSliceAdditionalSpecFns::spec_bytes(input);
            match r {
                Some(v) => v@.len() == s.len() && forall|i: int|
                    0 <= i < s.len() ==> (#[trigger] v@[i]) == if s[i] == 60 {
                        Jet::Left
                    } else {
                        Jet::Right
                    } && (s[i] == 60 || s[i] == 62),
                None => exists|i: int| 0 <= i < s.len() && #[trigger] s[i] != 60 && s[i] != 62,
            }
        }),
{
    let bytes = input.as_bytes_vec();
    let mut v: Vec<Jet> = Vec::new();
    let mut i: usize = 0;
    while i < bytes.len()
        invariant
            0 <= i <= bytes@.len(),
            bytes@ == vstd::string::StringSliceAdditionalSpecFns::spec_bytes(input),
            v@.len() == i,
            forall|k: int|
                0 <= k < i ==> (#[trigger] v@[k]) == (if bytes@[k] == 60 {
                    Jet::Left
                } else {
                    Jet::Right
                }) && (bytes@[k] == 60 || bytes@[k] == 62),
        decreases bytes@.len() - i,
    {
        let b = bytes[i];
        if b == 60 {
            v.push(Jet::Left);
        } else if b == 62 {
            v.push(Jet::Right);
        } else {
            proof {
                assert(bytes@[i as int] != 60 && bytes@[i as int] != 62);
            }
            return None;
        }
        i = i + 1;
    }
    Some(v)
}

/// The five shapes in drop order; droppers cycle through this list.
pub fn rocks() -> (v: Vec<RockKind>)
    ensures
        v@ =~= seq![
            RockKind::Horizontal,
            RockKind::Plus,
            RockKind::L,
            RockKind::Vertical,
            RockKind::Box,
        ],
{
    let mut v: Vec<RockKind> = Vec::new();
    v.push(RockKind::Horizontal);
    v.push(RockKind::Plus);
    v.push(RockKind::L);
    v.push(RockKind::Vertical);
    v.push(RockKind::Box);
    v
}

} // verus!
