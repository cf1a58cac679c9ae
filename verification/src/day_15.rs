//! Sensors and beacons on a grid: each sensor precludes beacons within its
//! Manhattan radius, and a collection of disjoint inclusive ranges merges
//! the precluded intervals of one row.

use vstd::prelude::*;

verus! {

/// A grid position.
#[derive(Clone, Copy, Debug, PartialEq, Eq, Structural)]
pub struct Point {
    pub x: i64,
    pub y: i64,
}

/// The absolute value of `d`.
pub open spec fn abs_of(d: int) -> int {
    if d >= 0 {
        d
    } else {
        -d
    }
}

impl Point {
    /// The Manhattan distance to `other`.
    pub fn distance(self, other: Point) -> (d: i64)
        requires
            -1_000_000_000 <= self.x <= 1_000_000_000,
            -1_000_000_000 <= self.y <= 1_000_000_000,
            -1_000_000_000 <= other.x <= 1_000_000_000,
            -1_000_000_000 <= other.y <= 1_000_000_000,
        ensures
            d == abs_of(self.x - other.x) + abs_of(self.y - other.y),
    {
        let dx = if self.x >= other.x {
            self.x - other.x
        } else {
            other.x - self.x
        };
        let dy = if self.y >= other.y {
            self.y - other.y
        } else {
            other.y - self.y
        };
        dx + dy
    }
}

/// An inclusive range of `x` positions.
#[derive(Clone, Copy, Debug, PartialEq, Eq, Structural)]
pub struct Span {
    pub lo: i64,
    pub hi: i64,
}

/// `x` lies in the span.
pub open spec fn in_span(sp: Span, x: int) -> bool {
    sp.lo <= x <= sp.hi
}

/// A sensor and the beacon closest to it.
#[derive(Clone, Copy, Debug, PartialEq, Eq, Structural)]
pub struct Sensor {
    pub position: Point,
    pub closest_beacon: Point,
}

impl Sensor {
    /// The sensor and its beacon sit in the supported coordinate window.
    pub open spec fn wf(&self) -> bool {
        &&& -1_000_000_000 <= self.position.x <= 1_000_000_000
        &&& -1_000_000_000 <= self.position.y <= 1_000_000_000
        &&& -1_000_000_000 <= self.closest_beacon.x <= 1_000_000_000
        &&& -1_000_000_000 <= self.closest_beacon.y <= 1_000_000_000
    }

    /// The Manhattan radius this sensor clears.
    pub fn distance_to_beacon(&self) -> (d: i64)
        requires
            self.wf(),
        ensures
            d == abs_of(self.position.x - self.closest_beacon.x) + abs_of(
                self.position.y - self.closest_beacon.y,
            ),
    {
        self.position.distance(self.closest_beacon)
    }

    /// The `x` positions of row `y` that lie strictly inside this sensor's
    /// radius: exactly those whose Manhattan distance from the sensor is at
    /// most the beacon distance, when the row cuts the radius at all.
    pub fn precluded_x_range(&self, y: i64) -> (r: Option<Span>)
        requires
            self.wf(),
            -1_000_000_000 <= y <= 1_000_000_000,
        ensures
            ({
                let reach = abs_of(self.position.x - self.closest_beacon.x) + abs_of(
                    self.position.y - self.closest_beacon.y,
                );
                let dy = abs_of(self.position.y - y);
                match r {
                    Some(sp) => reach > dy && sp.lo == self.position.x - (reach - dy) && sp.hi
                        == self.position.x + (reach - dy),
                    None => reach <= dy,
                }
            }),
    {
        let precluded_distance = self.distance_to_beacon();
        let distance_to_y = if self.position.y >= y {
            self.position.y - y
        } else {
            y - self.position.y
        };
        if precluded_distance > distance_to_y {
            let x_extent = precluded_distance - distance_to_y;
            Some(Span { lo: self.position.x - x_extent, hi: self.position.x + x_extent })
        } else {
            None
        }
    }
}

/// `x` lies in some range of `rs`.
pub open spec fn covered(rs: Seq<Span>, x: int) -> bool {
    exists|i: int| 0 <= i < rs.len() && in_span(#[trigger] rs[i], x)
}

/// Pushing a range extends coverage by exactly that range.
proof fn lemma_covered_push(rs: Seq<Span>, sp: Span, x: int)
    ensures
        covered(rs.push(sp), x) == (covered(rs, x) || in_span(sp, x)),
{
    if covered(rs, x) {
        let i = choose|i: int| 0 <= i < rs.len() && in_span(#[trigger] rs[i], x);
        assert(in_span(rs.push(sp)[i], x));
    }
    if in_span(sp, x) {
        assert(in_span(rs.push(sp)[rs.len() as int], x));
    }
    if covered(rs.push(sp), x) {
        let i = choose|i: int| 0 <= i < rs.push(sp).len() && in_span(#[trigger] rs.push(sp)[i], x);
        if i < rs.len() {
            assert(in_span(rs[i], x));
        } else {
            assert(rs.push(sp)[i] == sp);
        }
    }
}

/// A set of merged, disjoint, sorted inclusive ranges.
pub struct RangeCollection {
    pub ranges: Vec<Span>,
}

impl RangeCollection {
    /// Ranges are proper, bounded, sorted, and separated by at least one
    /// uncovered position.
    pub open spec fn wf(&self) -> bool {
        &&& forall|i: int|
            0 <= i < self.ranges@.len() ==> -5_000_000_000 <= (#[trigger] self.ranges@[i]).lo <= self.ranges@[i].hi
                <= 5_000_000_000
        &&& forall|i: int, j: int|
            0 <= i < j < self.ranges@.len() ==> (#[trigger] self.ranges@[i]).hi + 1 < (
            #[trigger] self.ranges@[j]).lo
    }

    /// An empty collection.
    pub fn new() -> (c: Self)
        ensures
            c.wf(),
            c.ranges@ =~= Seq::<Span>::empty(),
    {
        RangeCollection { ranges: Vec::new() }
    }

    /// Merges one range in.  Afterwards a position is covered exactly when
    /// it was covered before or lies in the new range.
    pub fn add_range(&mut self, range: Span)
        requires
            old(self).wf(),
            -5_000_000_000 <= range.lo <= range.hi <= 5_000_000_000,
        ensures
            final(self).wf(),
            forall|x: int|
                #![trigger covered(final(self).ranges@, x)]
                covered(final(self).ranges@, x) == (covered(old(self).ranges@, x) || in_span(
                    range,
                    x,
                )),
    {
        let ghost olds = self.ranges@;
        let mut out: Vec<Span> = Vec::new();
        let mut cur: Option<Span> = Some(range);
        let mut k: usize = 0;
        while k < self.ranges.len()
            invariant
                0 <= k <= olds.len(),
                self.ranges@ == olds,
                forall|i: int|
                    0 <= i < olds.len() ==> -5_000_000_000 <= (#[trigger] olds[i]).lo <= olds[i].hi
                        <= 5_000_000_000,
                forall|i: int, j: int|
                    0 <= i < j < olds.len() ==> (#[trigger] olds[i]).hi + 1 < (
                    #[trigger] olds[j]).lo,
                forall|i: int|
                    0 <= i < out@.len() ==> -5_000_000_000 <= (#[trigger] out@[i]).lo
                        <= out@[i].hi <= 5_000_000_000,
                forall|i: int, j: int|
                    0 <= i < j < out@.len() ==> (#[trigger] out@[i]).hi + 1 < (
                    #[trigger] out@[j]).lo,
                cur matches Some(c) ==> -5_000_000_000 <= c.lo <= c.hi <= 5_000_000_000,
                cur matches Some(c) ==> (out@.len() > 0 ==> out@.last().hi + 1 < c.lo),
                out@.len() > 0 ==> forall|j: int|
                    k <= j < olds.len() ==> out@.last().hi + 1 < (#[trigger] olds[j]).lo,
                forall|x: int|
                    #![trigger covered(out@, x)]
                    (covered(out@, x) || (cur matches Some(c) && in_span(c, x))) == (covered(
                        olds.take(k as int),
                        x,
                    ) || in_span(range, x)),
            decreases olds.len() - k,
        {
            let r = self.ranges[k];
            let ghost outs = out@;
            let ghost cur0 = cur;
            proof {
                assert(olds.take(k + 1).drop_last() =~= olds.take(k as int));
                assert(olds.take(k + 1) =~= olds.take(k as int).push(olds[k as int]));
            }
            match cur {
                None => {
                    out.push(r);
                    proof {
                        assert forall|x: int|
                            #![trigger covered(out@, x)]
                            (covered(out@, x) || (cur matches Some(c) && in_span(c, x))) == (
                            covered(olds.take(k + 1), x) || in_span(range, x)) by {
                            lemma_covered_push(outs, r, x);
                            lemma_covered_push(olds.take(k as int), olds[k as int], x);
                        }
                    }
                },
                Some(curr) => {
                    if r.hi < curr.lo && curr.lo - 1 > r.hi {
                        out.push(r);
                        proof {
                            assert forall|x: int|
                                #![trigger covered(out@, x)]
                                (covered(out@, x) || (cur matches Some(c) && in_span(c, x))) == (
                                covered(olds.take(k + 1), x) || in_span(range, x)) by {
                                lemma_covered_push(outs, r, x);
                                lemma_covered_push(olds.take(k as int), olds[k as int], x);
                            }
                        }
                    } else if r.lo > curr.hi && r.lo - 1 > curr.hi {
                        out.push(curr);
                        out.push(r);
                        cur = None;
                        proof {
                            assert(out@ =~= outs.push(curr).push(r));
                            assert forall|x: int|
                                #![trigger covered(out@, x)]
                                (covered(out@, x) || (cur matches Some(c) && in_span(c, x))) == (
                                covered(olds.take(k + 1), x) || in_span(range, x)) by {
                                lemma_covered_push(outs, curr, x);
                                lemma_covered_push(outs.push(curr), r, x);
                                lemma_covered_push(olds.take(k as int), olds[k as int], x);
                                assert(covered(out@, x) == (covered(outs, x) || in_span(curr, x)
                                    || in_span(r, x)));
                                assert((covered(outs, x) || in_span(curr, x)) == (covered(
                                    olds.take(k as int),
                                    x,
                                ) || in_span(range, x)));
                                assert(r == olds[k as int]);
                                assert(covered(olds.take(k + 1), x) == (covered(
                                    olds.take(k as int),
                                    x,
                                ) || in_span(olds[k as int], x)));
                            }
                        }
                    } else {
                        let lo = if curr.lo < r.lo {
                            curr.lo
                        } else {
                            r.lo
                        };
                        let hi = if curr.hi > r.hi {
                            curr.hi
                        } else {
                            r.hi
                        };
                        cur = Some(Span { lo, hi });
                        proof {
                            assert forall|x: int|
                                #![trigger covered(out@, x)]
                                (covered(out@, x) || (cur matches Some(c) && in_span(c, x))) == (
                                covered(olds.take(k + 1), x) || in_span(range, x)) by {
                                lemma_covered_push(olds.take(k as int), olds[k as int], x);
                                assert(out@ == outs);
                                assert((covered(outs, x) || in_span(curr, x)) == (covered(
                                    olds.take(k as int),
                                    x,
                                ) || in_span(range, x)));
                                assert(in_span((Span { lo, hi }), x) == (in_span(curr, x)
                                    || in_span(r, x)));
                            }
                        }
                    }
                },
            }
            k = k + 1;
        }
        proof {
            assert(olds.take(olds.len() as int) =~= olds);
        }
        let ghost outs = out@;
        match cur {
            Some(curr) => {
                out.push(curr);
                proof {
                    assert forall|x: int|
                        covered(out@, x) == (covered(olds, x) || in_span(range, x)) by {
                        lemma_covered_push(outs, curr, x);
                    }
                }
            },
            None => {},
        }
        self.ranges = out;
    }

    /// The total number of covered positions, over the first `i` ranges.
    pub open spec fn size_upto(rs: Seq<Span>, i: int) -> int
        decreases i,
    {
        if i <= 0 {
            0
        } else {
            Self::size_upto(rs, i - 1) + (rs[i - 1].hi - rs[i - 1].lo + 1)
        }
    }

    /// The total number of covered positions.
    pub fn size(&self) -> (n: i64)
        requires
            self.wf(),
            self.ranges@.len() <= 1_000_000,
        ensures
            n == Self::size_upto(self.ranges@, self.ranges@.len() as int),
    {
        let mut n: i64 = 0;
        let mut i: usize = 0;
        while i < self.ranges.len()
            invariant
                0 <= i <= self.ranges@.len(),
                self.wf(),
                self.ranges@.len() <= 1_000_000,
                n == Self::size_upto(self.ranges@, i as int),
                0 <= n <= i * 10_000_000_001,
            decreases self.ranges@.len() - i,
        {
            let sp = self.ranges[i];
            proof {
                assert(i * 10_000_000_001 + 10_000_000_001 == (i + 1) * 10_000_000_001)
                    by (nonlinear_arith);
                assert((i + 1) * 10_000_000_001 <= 1_000_000 * 10_000_000_001) by (nonlinear_arith)
                    requires
                        0 <= i + 1 <= 1_000_000,
                ;
            }
            n = n + (sp.hi - sp.lo + 1);
            i = i + 1;
        }
        n
    }

    /// Looks for an uncovered position in `start..=end`, assuming the
    /// covered positions are dense there with at most one gap.  A returned
    /// position is genuinely uncovered and in range; `None` means either no
    /// range touches the window at all, or one range covers it whole.
    pub fn gap(&self, start: i64, end: i64) -> (r: Option<i64>)
        requires
            self.wf(),
            -5_000_000_000 <= start <= end <= 5_000_000_000,
        ensures
            match r {
                Some(x) => start <= x <= end && !covered(self.ranges@, x as int),
                None => (forall|k: int|
                    0 <= k < self.ranges@.len() ==> (#[trigger] self.ranges@[k]).hi < start
                        || self.ranges@[k].lo > end) || forall|x: int|
                    start <= x <= end ==> covered(self.ranges@, x),
            },
    {
        let mut i: usize = 0;
        while i < self.ranges.len()
            invariant
                0 <= i <= self.ranges@.len(),
                self.wf(),
                -5_000_000_000 <= start <= end <= 5_000_000_000,
                forall|k: int|
                    0 <= k < i ==> (#[trigger] self.ranges@[k]).hi < start || self.ranges@[k].lo
                        > end,
            decreases self.ranges@.len() - i,
        {
            let sp = self.ranges[i];
            if sp.hi < start || sp.lo > end {
                i = i + 1;
                continue ;
            }
            if sp.lo > start {
                proof {
                    assert forall|k: int|
                        0 <= k < self.ranges@.len() implies !in_span(
                        #[trigger] self.ranges@[k],
                        sp.lo - 1,
                    ) by {
                        if k < i {
                        } else if k == i {
                        } else {
                            assert(self.ranges@[i as int].hi + 1 < self.ranges@[k].lo);
                        }
                    }
                }
                return Some(sp.lo - 1);
            }
            if sp.hi < end {
                proof {
                    assert forall|k: int|
                        0 <= k < self.ranges@.len() implies !in_span(
                        #[trigger] self.ranges@[k],
                        sp.hi + 1,
                    ) by {
                        if k < i {
                        } else if k == i {
                        } else {
                            assert(self.ranges@[i as int].hi + 1 < self.ranges@[k].lo);
                        }
                    }
                }
                return Some(sp.hi + 1);
            }
            return None;
        }
        None
    }
}

/// Parses sensors, one
/// `Sensor at x=..., y=...: closest beacon is at x=..., y=...` per line.
pub fn parse_sensors(input: &str) -> (r: Option<Vec<Sensor>>)
    ensures
        match r {
            Some(v) => forall|i: int| 0 <= i < v@.len() ==> (#[trigger] v@[i]).wf(),
            None => true,
        },
{
    if !input.is_ascii() {
        return None;
    }
    let bytes = input.as_bytes_vec();
    let lines = crate::text::split(&bytes, 10);
    let mut out: Vec<Sensor> = Vec::new();
    let mut i: usize = 0;
    while i < lines.len()
        invariant
            0 <= i <= lines@.len(),
            forall|k: int| 0 <= k < out@.len() ==> (#[trigger] out@[k]).wf(),
        decreases lines@.len() - i,
    {
        let parts = crate::text::split(&lines[i], 61);
        if parts.len() != 5 {
            return None;
        }
        let sx = match leading_i64(&parts[1]) {
            Some(n) => n,
            None => {
                return None;
            },
        };
        let sy = match leading_i64(&parts[2]) {
            Some(n) => n,
            None => {
                return None;
            },
        };
        let bx = match leading_i64(&parts[3]) {
            Some(n) => n,
            None => {
                return None;
            },
        };
        let by = match leading_i64(&parts[4]) {
            Some(n) => n,
            None => {
                return None;
            },
        };
        if sx < -1_000_000_000 || sx > 1_000_000_000 || sy < -1_000_000_000 || sy > 1_000_000_000
            || bx < -1_000_000_000 || bx > 1_000_000_000 || by < -1_000_000_000 || by
            > 1_000_000_000 {
            return None;
        }
        out.push(
            Sensor {
                position: Point { x: sx, y: sy },
                closest_beacon: Point { x: bx, y: by },
            },
        );
        i = i + 1;
    }
    Some(out)
}

/// Reads the decimal number (with optional minus) that starts `s`, ignoring
/// whatever follows it.
fn leading_i64(s: &Vec<u8>) -> (r: Option<i64>)
    ensures
        true,
{
    let mut digits: Vec<u8> = Vec::new();
    let mut j: usize = 0;
    if s.len() > 0 && s[0] == 45 {
        digits.push(45);
        j = 1;
    }
    let mut done = false;
    while j < s.len() && !done
        invariant
            0 <= j <= s@.len(),
        decreases s@.len() - j + (if done {
            0int
        } else {
            1int
        }),
    {
        let b = s[j];
        if b < 48 || b > 57 {
            done = true;
        } else {
            digits.push(b);
            j = j + 1;
        }
    }
    crate::text::parse_i64(&digits)
}

} // verus!
