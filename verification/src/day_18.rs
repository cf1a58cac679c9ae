//! Surface area of a lava droplet made of unit cubes: total exposed faces,
//! and the exterior faces found by flooding the space around the droplet
//! with the best-first engine.

use vstd::prelude::*;
use crate::dijkstra::{distinct_idents, reaches, Dijkstra, Space, StepResult, Value};

verus! {

/// A unit cube position.
#[derive(Clone, Copy, Debug, PartialEq, Eq, Structural)]
pub struct Point {
    pub x: isize,
    pub y: isize,
    pub z: isize,
}

impl Point {
    /// Builds the cube `(x, y, z)`.
    pub fn new(x: isize, y: isize, z: isize) -> (p: Self)
        ensures
            p == (Point { x, y, z }),
    {
        Point { x, y, z }
    }

    /// The six face-adjacent cubes.
    pub fn adjacents(self) -> (v: Vec<Point>)
        requires
            -1_000_000 <= self.x <= 1_000_000,
            -1_000_000 <= self.y <= 1_000_000,
            -1_000_000 <= self.z <= 1_000_000,
        ensures
            v@ =~= adjacent_cubes(self),
    {
        let mut v: Vec<Point> = Vec::new();
        v.push(Point::new(self.x - 1, self.y, self.z));
        v.push(Point::new(self.x + 1, self.y, self.z));
        v.push(Point::new(self.x, self.y - 1, self.z));
        v.push(Point::new(self.x, self.y + 1, self.z));
        v.push(Point::new(self.x, self.y, self.z - 1));
        v.push(Point::new(self.x, self.y, self.z + 1));
        v
    }
}

impl Value for Point {
    type Id = Point;

    /// A cube is its own identity.
    open spec fn ident(&self) -> Point {
        *self
    }

    fn same_ident(&self, other: &Self) -> (r: bool) {
        self.x == other.x && self.y == other.y && self.z == other.z
    }
}

/// The identity projection on cubes is injective.
pub proof fn lemma_cube_identity()
    ensures
        distinct_idents::<Point>(),
{
}

/// The six face-adjacent cubes of `p`.
pub open spec fn adjacent_cubes(p: Point) -> Seq<Point> {
    seq![
        Point { x: (p.x - 1) as isize, y: p.y, z: p.z },
        Point { x: (p.x + 1) as isize, y: p.y, z: p.z },
        Point { x: p.x, y: (p.y - 1) as isize, z: p.z },
        Point { x: p.x, y: (p.y + 1) as isize, z: p.z },
        Point { x: p.x, y: p.y, z: (p.z - 1) as isize },
        Point { x: p.x, y: p.y, z: (p.z + 1) as isize },
    ]
}

/// `p` occurs in `s`.
pub open spec fn cube_in(s: Seq<Point>, p: Point) -> bool {
    exists|i: int| 0 <= i < s.len() && #[trigger] s[i] == p
}

/// The number of faces of `p` whose neighbor cube is missing from `cubes`,
/// counting the first `j` faces.
pub open spec fn exposed_upto(cubes: Seq<Point>, p: Point, j: int) -> int
    decreases j,
{
    if j <= 0 {
        0
    } else {
        exposed_upto(cubes, p, j - 1) + if cube_in(cubes, adjacent_cubes(p)[j - 1]) {
            0int
        } else {
            1int
        }
    }
}

/// The total exposed faces of the first `i` cubes.
pub open spec fn area_upto(cubes: Seq<Point>, i: int) -> int
    decreases i,
{
    if i <= 0 {
        0
    } else {
        area_upto(cubes, i - 1) + exposed_upto(cubes, cubes[i - 1], 6)
    }
}

/// The droplet: its cubes and a bounding box.
pub struct LavaDroplet {
    pub min: Point,
    pub max: Point,
    pub cubes: Vec<Point>,
}

impl LavaDroplet {
    /// Cubes are few, small, and inside the bounding box.
    pub open spec fn wf(&self) -> bool {
        &&& self.cubes@.len() <= 100_000
        &&& -1_000 <= self.min.x <= self.max.x <= 1_000
        &&& -1_000 <= self.min.y <= self.max.y <= 1_000
        &&& -1_000 <= self.min.z <= self.max.z <= 1_000
        &&& forall|i: int|
            0 <= i < self.cubes@.len() ==> self.min.x <= (#[trigger] self.cubes@[i]).x
                <= self.max.x && self.min.y <= self.cubes@[i].y <= self.max.y && self.min.z
                <= self.cubes@[i].z <= self.max.z
    }

    /// Whether `p` is one of the droplet's cubes.
    fn has_cube(&self, p: Point) -> (r: bool)
        ensures
            r == cube_in(self.cubes@, p),
    {
        let mut i: usize = 0;
        while i < self.cubes.len()
            invariant
                0 <= i <= self.cubes@.len(),
                forall|k: int| 0 <= k < i ==> #[trigger] self.cubes@[k] != p,
            decreases self.cubes@.len() - i,
        {
            let b = self.cubes[i];
            if b.x == p.x && b.y == p.y && b.z == p.z {
                proof {
                    assert(self.cubes@[i as int] == p);
                }
                return true;
            }
            i = i + 1;
        }
        false
    }

    /// The total number of cube faces not covered by another cube of the
    /// droplet.
    pub fn surface_area(&self) -> (area: usize)
        requires
            self.wf(),
        ensures
            area == area_upto(self.cubes@, self.cubes@.len() as int),
    {
        let mut area: usize = 0;
        let mut i: usize = 0;
        while i < self.cubes.len()
            invariant
                0 <= i <= self.cubes@.len(),
                self.wf(),
                area == area_upto(self.cubes@, i as int),
                area <= i * 6,
            decreases self.cubes@.len() - i,
        {
            let p = self.cubes[i];
            let nbrs = p.adjacents();
            let mut j: usize = 0;
            let mut exposed: usize = 0;
            while j < 6
                invariant
                    0 <= j <= 6,
                    nbrs@ =~= adjacent_cubes(p),
                    exposed == exposed_upto(self.cubes@, p, j as int),
                    exposed <= j,
                decreases 6 - j,
            {
                if !self.has_cube(nbrs[j]) {
                    exposed = exposed + 1;
                }
                j = j + 1;
            }
            proof {
                assert(i * 6 + 6 <= self.cubes@.len() * 6) by (nonlinear_arith)
                    requires
                        i < self.cubes@.len(),
                ;
                assert(i * 6 + 6 == (i + 1) * 6) by (nonlinear_arith);
                assert(self.cubes@.len() * 6 <= 600_000);
            }
            area = area + exposed;
            i = i + 1;
        }
        area
    }

    /// The air cells reachable from outside the bounding box, found by
    /// flooding the box (padded by one) from its corner with the search
    /// engine.  `None` when `limit` frontier entries were not enough.
    pub fn outside_blocks(&self, limit: u64) -> (r: Option<Vec<Point>>)
        requires
            self.wf(),
        ensures
            r is Some ==> exists|fl: Flood| #[trigger] flooded_outside(fl, *self, r.unwrap()@),
{
        let corner = Point::new(self.min.x - 1, self.min.y - 1, self.min.z - 1);
        let mut cubes2: Vec<Point> = Vec::new();
        let mut ci: usize = 0;
        while ci < self.cubes.len()
            invariant
                0 <= ci <= self.cubes@.len(),
                cubes2@ =~= self.cubes@.take(ci as int),
            decreases self.cubes@.len() - ci,
        {
            cubes2.push(self.cubes[ci]);
            ci = ci + 1;
        }
        proof {
            assert(cubes2@ =~= self.cubes@);
        }
        let space = Flood { droplet: LavaDroplet { min: self.min, max: self.max, cubes: cubes2 } };
        let mut engine = Dijkstra::<Flood>::new(corner, &space);
        let mut out: Vec<Point> = Vec::new();
        let mut fuel: u64 = limit;
        proof {
            lemma_cube_identity();
        }
        while fuel > 0
            invariant
                self.wf(),
                engine.wf(),
                engine.space_v() == space,
                engine.start_v() == corner,
                space.droplet.min == self.min,
                space.droplet.max == self.max,
                space.droplet.cubes@ == self.cubes@,
                corner == (Point {
                    x: (self.min.x - 1) as isize,
                    y: (self.min.y - 1) as isize,
                    z: (self.min.z - 1) as isize,
                }),
                out@.len() == engine.results().len(),
                forall|i: int|
                    0 <= i < out@.len() ==> (#[trigger] out@[i]) == engine.results()[i].0,
            decreases fuel,
        {
            let step = engine.step(&space);
            match step {
                StepResult::Found(p, _c) => {
                    out.push(p);
                },
                StepResult::Advanced => {},
                StepResult::Exhausted => {
                    proof {
                        lemma_cube_identity();
                        assert forall|p: Point, d: int|
                            #[trigger] reaches::<Flood>(space, corner, p, d) && d
                                <= u64::MAX as int implies cube_in(out@, p) by {
                            assert(space.goal(p));
                            assert(reaches::<Flood>(engine.space_v(), engine.start_v(), p, d));
                            assert(exists|l: int|
                                0 <= l < engine.results().len() && (
                                #[trigger] engine.results()[l]).0 == p);
                            let l = choose|l: int|
                                0 <= l < engine.results().len() && (
                                #[trigger] engine.results()[l]).0 == p;
                            assert(out@[l] == p);
                        }
                        engine.lemma_results_reached();
                        assert forall|i: int| 0 <= i < out@.len() implies flood_reaches(
                            space,
                            corner,
                            #[trigger] out@[i],
                        ) by {
                            assert(reaches::<Flood>(
                                space,
                                corner,
                                engine.results()[i].0,
                                engine.results()[i].1 as int,
                            ));
                            assert(out@[i] == engine.results()[i].0);
                            assert(reaches::<Flood>(
                                space,
                                corner,
                                out@[i],
                                engine.results()[i].1 as int,
                            ));
                        }
                        assert(flooded_outside(space, *self, out@));
                    }
                    let result = Some(out);
                    proof {
                        assert(result.unwrap()@ == out@);
                        assert(flooded_outside(space, *self, result.unwrap()@));
                        assert(exists|fl: Flood|
                            #[trigger] flooded_outside(fl, *self, result.unwrap()@));
                    }
                    return result;
                },
            }
            fuel = fuel - 1;
        }
        None
    }

    /// The number of cube faces that touch outside air: computed against
    /// the flooded outside cells.
    pub fn exterior_surface_area(&self, outside: &Vec<Point>) -> (area: usize)
        requires
            self.wf(),
        ensures
            area == exterior_upto(self.cubes@, outside@, self.cubes@.len() as int),
    {
        let mut area: usize = 0;
        let mut i: usize = 0;
        while i < self.cubes.len()
            invariant
                0 <= i <= self.cubes@.len(),
                self.wf(),
                area == exterior_upto(self.cubes@, outside@, i as int),
                area <= i * 6,
            decreases self.cubes@.len() - i,
        {
            let p = self.cubes[i];
            let nbrs = p.adjacents();
            let mut j: usize = 0;
            let mut touching: usize = 0;
            while j < 6
                invariant
                    0 <= j <= 6,
                    nbrs@ =~= adjacent_cubes(p),
                    touching == touching_upto(outside@, p, j as int),
                    touching <= j,
                decreases 6 - j,
            {
                if contains_cube(outside, nbrs[j]) {
                    touching = touching + 1;
                }
                j = j + 1;
            }
            proof {
                assert(i * 6 + 6 <= self.cubes@.len() * 6) by (nonlinear_arith)
                    requires
                        i < self.cubes@.len(),
                ;
                assert(i * 6 + 6 == (i + 1) * 6) by (nonlinear_arith);
                assert(self.cubes@.len() * 6 <= 600_000);
            }
            area = area + touching;
            i = i + 1;
        }
        area
    }
}

/// The number of the first `j` faces of `p` that touch a cell of `outside`.
pub open spec fn touching_upto(outside: Seq<Point>, p: Point, j: int) -> int
    decreases j,
{
    if j <= 0 {
        0
    } else {
        touching_upto(outside, p, j - 1) + if cube_in(outside, adjacent_cubes(p)[j - 1]) {
            1int
        } else {
            0int
        }
    }
}

/// The total outside-touching faces of the first `i` cubes.
pub open spec fn exterior_upto(cubes: Seq<Point>, outside: Seq<Point>, i: int) -> int
    decreases i,
{
    if i <= 0 {
        0
    } else {
        exterior_upto(cubes, outside, i - 1) + touching_upto(outside, cubes[i - 1], 6)
    }
}

/// Whether `p` occurs in `v`.
fn contains_cube(v: &Vec<Point>, p: Point) -> (r: bool)
    ensures
        r == cube_in(v@, p),
{
    let mut i: usize = 0;
    while i < v.len()
        invariant
            0 <= i <= v@.len(),
            forall|k: int| 0 <= k < i ==> #[trigger] v@[k] != p,
        decreases v@.len() - i,
    {
        let b = v[i];
        if b.x == p.x && b.y == p.y && b.z == p.z {
            proof {
                assert(v@[i as int] == p);
            }
            return true;
        }
        i = i + 1;
    }
    false
}

/// `v` is exactly what flooding from `corner` through the space `fl`
/// finds: every listed cell is reachable outside air, and every cell
/// reachable at a representable cost is listed.
/// Some walk of the flood space leads from `corner` to `p`.
pub open spec fn flood_reaches(fl: Flood, corner: Point, p: Point) -> bool {
    exists|dd: int| #[trigger] reaches::<Flood>(fl, corner, p, dd)
}

pub open spec fn flooded_outside(fl: Flood, d: LavaDroplet, v: Seq<Point>) -> bool {
    let corner = (Point {
        x: (d.min.x - 1) as isize,
        y: (d.min.y - 1) as isize,
        z: (d.min.z - 1) as isize,
    });
    &&& fl.droplet.cubes@ == d.cubes@
    &&& fl.droplet.min == d.min
    &&& fl.droplet.max == d.max
    &&& forall|i: int| 0 <= i < v.len() ==> flood_reaches(fl, corner, #[trigger] v[i])
    &&& forall|p: Point, dd: int|
        #[trigger] reaches::<Flood>(fl, corner, p, dd) && dd <= u64::MAX as int ==> cube_in(v, p)
}

/// The flooding space around a droplet: states are air cells of the padded
/// bounding box, every cell is a goal (so the engine enumerates them all),
/// and edges connect face-adjacent air cells inside the padded box.
pub struct Flood {
    pub droplet: LavaDroplet,
}

/// A cell lies inside the padded bounding box of the droplet.
pub open spec fn in_padded_box(d: LavaDroplet, p: Point) -> bool {
    &&& d.min.x - 1 <= p.x <= d.max.x + 1
    &&& d.min.y - 1 <= p.y <= d.max.y + 1
    &&& d.min.z - 1 <= p.z <= d.max.z + 1
}

/// The admissible flood steps from `p` among the candidate cells `cands`.
pub open spec fn flood_kept(d: LavaDroplet, cands: Seq<Point>) -> Seq<(Point, u64)>
    decreases cands.len(),
{
    if cands.len() == 0 {
        Seq::empty()
    } else {
        let rest = flood_kept(d, cands.drop_last());
        if in_padded_box(d, cands.last()) && !cube_in(d.cubes@, cands.last()) {
            rest.push((cands.last(), 1u64))
        } else {
            rest
        }
    }
}

impl Space for Flood {
    type St = Point;

    /// Every flooded cell is of interest.
    open spec fn goal(&self, p: Point) -> bool {
        true
    }

    /// Unit-cost edges to face-adjacent air cells inside the padded box.
    open spec fn edges(&self, p: Point) -> Seq<(Point, u64)> {
        if self.droplet.wf() && in_padded_box(self.droplet, p) {
            flood_kept(self.droplet, adjacent_cubes(p))
        } else {
            Seq::empty()
        }
    }

    fn is_goal(&self, p: &Point) -> (r: bool) {
        true
    }

    fn neighbors(&self, p: &Point) -> (v: Vec<(Point, u64)>) {
        let mut v: Vec<(Point, u64)> = Vec::new();
        let d = &self.droplet;
        if !(d.cubes.len() <= 100_000 && -1_000 <= d.min.x && d.min.x <= d.max.x && d.max.x <= 1_000
            && -1_000 <= d.min.y && d.min.y <= d.max.y && d.max.y <= 1_000 && -1_000 <= d.min.z
            && d.min.z <= d.max.z && d.max.z <= 1_000) {
            return v;
        }
        let mut boxed = true;
        let mut i: usize = 0;
        while i < d.cubes.len()
            invariant
                0 <= i <= d.cubes@.len(),
                -1_000 <= d.min.x <= d.max.x <= 1_000,
                -1_000 <= d.min.y <= d.max.y <= 1_000,
                -1_000 <= d.min.z <= d.max.z <= 1_000,
                boxed == forall|k: int|
                    0 <= k < i ==> d.min.x <= (#[trigger] d.cubes@[k]).x <= d.max.x && d.min.y
                        <= d.cubes@[k].y <= d.max.y && d.min.z <= d.cubes@[k].z <= d.max.z,
            decreases d.cubes@.len() - i,
        {
            let c = d.cubes[i];
            if !(d.min.x <= c.x && c.x <= d.max.x && d.min.y <= c.y && c.y <= d.max.y && d.min.z
                <= c.z && c.z <= d.max.z) {
                boxed = false;
            }
            i = i + 1;
        }
        if !boxed {
            return v;
        }
        if !(d.min.x - 1 <= p.x && p.x <= d.max.x + 1 && d.min.y - 1 <= p.y && p.y <= d.max.y + 1
            && d.min.z - 1 <= p.z && p.z <= d.max.z + 1) {
            return v;
        }
        let cands = p.adjacents();
        let ghost cseq = adjacent_cubes(*p);
        let mut j: usize = 0;
        while j < cands.len()
            invariant
                0 <= j <= cands@.len(),
                cands@ == cseq,
                cseq.len() == 6,
                *d == self.droplet,
                self.droplet.wf(),
                in_padded_box(self.droplet, *p),
                -1_001 <= p.x <= 1_001,
                -1_001 <= p.y <= 1_001,
                -1_001 <= p.z <= 1_001,
                v@ =~= flood_kept(self.droplet, cseq.take(j as int)),
            decreases cands@.len() - j,
        {
            let cand = cands[j];
            proof {
                assert(cseq.take(j + 1).drop_last() =~= cseq.take(j as int));
                assert(cseq.take(j + 1).last() == cseq[j as int]);
            }
            let inside = d.min.x - 1 <= cand.x && cand.x <= d.max.x + 1 && d.min.y - 1 <= cand.y
                && cand.y <= d.max.y + 1 && d.min.z - 1 <= cand.z && cand.z <= d.max.z + 1;
            if inside && !self.droplet.has_cube(cand) {
                v.push((cand, 1));
            }
            j = j + 1;
        }
        proof {
            assert(cseq.take(6) =~= cseq);
        }
        v
    }
}

/// Parses a droplet: one `x,y,z` cube per line, with its bounding box.
pub fn parse_droplet(input: &str) -> (r: Option<LavaDroplet>)
    ensures
        match r {
            Some(d) => d.wf(),
            None => true,
        },
{
    if !input.is_ascii() {
        return None;
    }
    let bytes = input.as_bytes_vec();
    let lines = crate::text::split(&bytes, 10);
    let mut cubes: Vec<Point> = Vec::new();
    let mut minp = Point::new(1_000, 1_000, 1_000);
    let mut maxp = Point::new(-1_000, -1_000, -1_000);
    let mut i: usize = 0;
    while i < lines.len()
        invariant
            0 <= i <= lines@.len(),
            -1_000 <= minp.x <= 1_000,
            -1_000 <= minp.y <= 1_000,
            -1_000 <= minp.z <= 1_000,
            -1_000 <= maxp.x <= 1_000,
            -1_000 <= maxp.y <= 1_000,
            -1_000 <= maxp.z <= 1_000,
            forall|k: int|
                0 <= k < cubes@.len() ==> minp.x <= (#[trigger] cubes@[k]).x <= maxp.x && minp.y
                    <= cubes@[k].y <= maxp.y && minp.z <= cubes@[k].z <= maxp.z,
        decreases lines@.len() - i,
    {
        let parts = crate::text::split(&lines[i], 44);
        if parts.len() != 3 {
            return None;
        }
        let x = match crate::text::parse_i64(&parts[0]) {
            Some(n) => n,
            None => {
                return None;
            },
        };
        let y = match crate::text::parse_i64(&parts[1]) {
            Some(n) => n,
            None => {
                return None;
            },
        };
        let z = match crate::text::parse_i64(&parts[2]) {
            Some(n) => n,
            None => {
                return None;
            },
        };
        if x < -999 || x > 999 || y < -999 || y > 999 || z < -999 || z > 999 {
            return None;
        }
        let cube = Point::new(x as isize, y as isize, z as isize);
        if cube.x < minp.x {
            minp = Point::new(cube.x, minp.y, minp.z);
        }
        if cube.y < minp.y {
            minp = Point::new(minp.x, cube.y, minp.z);
        }
        if cube.z < minp.z {
            minp = Point::new(minp.x, minp.y, cube.z);
        }
        if cube.x > maxp.x {
            maxp = Point::new(cube.x, maxp.y, maxp.z);
        }
        if cube.y > maxp.y {
            maxp = Point::new(maxp.x, cube.y, maxp.z);
        }
        if cube.z > maxp.z {
            maxp = Point::new(maxp.x, maxp.y, cube.z);
        }
        cubes.push(cube);
        i = i + 1;
    }
    if cubes.len() > 100_000 || minp.x > maxp.x || minp.y > maxp.y || minp.z > maxp.z {
        return None;
    }
    Some(LavaDroplet { min: minp, max: maxp, cubes })
}

} // verus!
