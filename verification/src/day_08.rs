//! A forest of trees on a grid: marking the trees visible from outside the
//! grid, counting them, and computing scenic scores (how far one sees from
//! a tree in each direction).

use vstd::prelude::*;
use vstd::string::StringSliceAdditionalSpecFns;
use crate::text::{joined, sep_free};

verus! {

/// One tree: its height and whether a scan has found it visible.
#[derive(Clone, Copy, Debug, PartialEq, Eq, Structural)]
pub struct Tree {
    pub height: i32,
    pub visible: bool,
}

impl Tree {
    /// A tree of the given height, not yet marked visible.
    pub fn new(height: i32) -> (t: Tree)
        ensures
            t == (Tree { height, visible: false }),
    {
        Tree { height, visible: false }
    }
}

/// Folds one tree into a running maximum: a tree strictly taller than all
/// seen before it becomes visible.
pub fn check_visible(tallest: i32, tree: &mut Tree) -> (r: i32)
    ensures
        final(tree).height == old(tree).height,
        old(tree).height > tallest ==> final(tree).visible && r == old(tree).height,
        old(tree).height <= tallest ==> final(tree).visible == old(tree).visible && r == tallest,
{
    if tree.height > tallest {
        tree.visible = true;
        tree.height
    } else {
        tallest
    }
}

/// The tree at `s[c]` overtops everything before it in `s` (and the `-1`
/// floor the scan starts from).
pub open spec fn sees_over_prefix(s: Seq<Tree>, c: int) -> bool {
    s[c].height > -1 && forall|j: int| 0 <= j < c ==> (#[trigger] s[j]).height < s[c].height
}

/// The tree at `s[c]` overtops everything after it in `s`.
pub open spec fn sees_over_suffix(s: Seq<Tree>, c: int) -> bool {
    s[c].height > -1 && forall|j: int| c < j < s.len() ==> (#[trigger] s[j]).height < s[c].height
}

/// The running maximum of the first `c` heights, starting from `-1`.
pub open spec fn max_height(s: Seq<Tree>, c: int) -> int
    decreases c,
{
    if c <= 0 {
        -1
    } else if s[c - 1].height > max_height(s, c - 1) {
        s[c - 1].height as int
    } else {
        max_height(s, c - 1)
    }
}

/// The running maximum of the heights from `c` on, starting from `-1`.
pub open spec fn max_height_from(s: Seq<Tree>, c: int) -> int
    decreases s.len() - c,
{
    if c >= s.len() {
        -1
    } else if s[c].height > max_height_from(s, c + 1) {
        s[c].height as int
    } else {
        max_height_from(s, c + 1)
    }
}

/// How many trees one sees looking left from position `c` of `s`: the
/// count stops at the first tree at least as tall as `h`.
pub open spec fn look_left(s: Seq<Tree>, h: int, c: int) -> int
    decreases c,
{
    if c <= 0 {
        0
    } else if s[c - 1].height >= h {
        1
    } else {
        1 + look_left(s, h, c - 1)
    }
}

/// How many trees one sees looking right from position `c` of `s`.
pub open spec fn look_right(s: Seq<Tree>, h: int, c: int) -> int
    decreases s.len() - c,
{
    if c >= s.len() - 1 {
        0
    } else if s[c + 1].height >= h {
        1
    } else {
        1 + look_right(s, h, c + 1)
    }
}

/// The column `column` of the grid, top to bottom.
pub open spec fn column_of(trees: Seq<Vec<Tree>>, column: int) -> Seq<Tree> {
    Seq::new(trees.len(), |r: int| trees[r]@[column])
}

/// The number of visible trees in one row.
pub open spec fn visible_in_row(s: Seq<Tree>, c: int) -> int
    decreases c,
{
    if c <= 0 {
        0
    } else if s[c - 1].visible {
        visible_in_row(s, c - 1) + 1
    } else {
        visible_in_row(s, c - 1)
    }
}

/// The number of visible trees in the first `r` rows.
pub open spec fn visible_in_rows(trees: Seq<Vec<Tree>>, r: int) -> int
    decreases r,
{
    if r <= 0 {
        0
    } else {
        visible_in_rows(trees, r - 1) + visible_in_row(trees[r - 1]@, trees[r - 1]@.len() as int)
    }
}

proof fn lemma_visible_in_row_nonneg(s: Seq<Tree>, c: int)
    ensures
        0 <= visible_in_row(s, c) <= (if c >= 0 {
            c
        } else {
            0
        }),
    decreases c,
{
    if c > 0 {
        lemma_visible_in_row_nonneg(s, c - 1);
    }
}

/// A rectangular, non-empty forest.
pub struct Forest {
    pub trees: Vec<Vec<Tree>>,
}

impl Forest {
    /// The grid is non-empty and rectangular.
    pub open spec fn wf(&self) -> bool {
        &&& self.trees@.len() > 0
        &&& self.trees@[0]@.len() > 0
        &&& forall|r: int|
            0 <= r < self.trees@.len() ==> (#[trigger] self.trees@[r])@.len()
                == self.trees@[0]@.len()
    }

    /// The number of rows.
    pub fn rows(&self) -> (r: usize)
        ensures
            r == self.trees@.len(),
    {
        self.trees.len()
    }

    /// The number of columns.
    pub fn columns(&self) -> (c: usize)
        requires
            self.trees@.len() > 0,
        ensures
            c == self.trees@[0]@.len(),
    {
        self.trees[0].len()
    }

    /// Scans one row from the left, marking each tree that overtops all
    /// trees before it.  A row index out of range changes nothing.
    pub fn scan_row(&mut self, row: usize)
        ensures
            final(self).trees@.len() == old(self).trees@.len(),
            forall|r: int|
                0 <= r < old(self).trees@.len() && r != row ==> final(self).trees@[r] == old(
                    self,
                ).trees@[r],
            row < old(self).trees@.len() ==> {
                let before = old(self).trees@[row as int]@;
                let after = final(self).trees@[row as int]@;
                &&& after.len() == before.len()
                &&& forall|c: int|
                    0 <= c < before.len() ==> (#[trigger] after[c]) == (Tree {
                        height: before[c].height,
                        visible: before[c].visible || sees_over_prefix(before, c),
                    })
            },
    {
        if row >= self.trees.len() {
            return ;
        }
        let ghost before = self.trees@[row as int]@;
        let mut tallest: i32 = -1;
        let mut c: usize = 0;
        let width = self.trees[row].len();
        while c < width
            invariant
                0 <= c <= width,
                row < self.trees@.len(),
                self.trees@.len() == old(self).trees@.len(),
                width == before.len(),
                before == old(self).trees@[row as int]@,
                forall|r: int|
                    0 <= r < old(self).trees@.len() && r != row ==> #[trigger] self.trees@[r]
                        == old(self).trees@[r],
                self.trees@[row as int]@.len() == before.len(),
                tallest == max_height(before, c as int),
                forall|j: int|
                    0 <= j < c ==> (#[trigger] self.trees@[row as int]@[j]) == (Tree {
                        height: before[j].height,
                        visible: before[j].visible || sees_over_prefix(before, j),
                    }),
                forall|j: int|
                    c <= j < before.len() ==> (#[trigger] self.trees@[row as int]@[j]) == before[j],
            decreases width - c,
        {
            proof {
                assert(max_height(before, c + 1) == if before[c as int].height > max_height(
                    before,
                    c as int,
                ) {
                    before[c as int].height as int
                } else {
                    max_height(before, c as int)
                });
                assert(sees_over_prefix(before, c as int) == (before[c as int].height > tallest))
                    by {
                    lemma_max_height_sees(before, c as int);
                }
            }
            let row_vec = &mut self.trees[row];
            let tree = &mut row_vec[c];
            tallest = check_visible(tallest, tree);
            c = c + 1;
        }
    }

    /// Scans one row from the right, marking each tree that overtops all
    /// trees after it.
    pub fn scan_row_reverse(&mut self, row: usize)
        ensures
            final(self).trees@.len() == old(self).trees@.len(),
            forall|r: int|
                0 <= r < old(self).trees@.len() && r != row ==> final(self).trees@[r] == old(
                    self,
                ).trees@[r],
            row < old(self).trees@.len() ==> {
                let before = old(self).trees@[row as int]@;
                let after = final(self).trees@[row as int]@;
                &&& after.len() == before.len()
                &&& forall|c: int|
                    0 <= c < before.len() ==> (#[trigger] after[c]) == (Tree {
                        height: before[c].height,
                        visible: before[c].visible || sees_over_suffix(before, c),
                    })
            },
    {
        if row >= self.trees.len() {
            return ;
        }
        let ghost before = self.trees@[row as int]@;
        let mut tallest: i32 = -1;
        let width = self.trees[row].len();
        let mut c: usize = width;
        while c > 0
            invariant
                0 <= c <= width,
                row < self.trees@.len(),
                self.trees@.len() == old(self).trees@.len(),
                width == before.len(),
                before == old(self).trees@[row as int]@,
                forall|r: int|
                    0 <= r < old(self).trees@.len() && r != row ==> #[trigger] self.trees@[r]
                        == old(self).trees@[r],
                self.trees@[row as int]@.len() == before.len(),
                tallest == max_height_from(before, c as int),
                forall|j: int|
                    c <= j < before.len() ==> (#[trigger] self.trees@[row as int]@[j]) == (Tree {
                        height: before[j].height,
                        visible: before[j].visible || sees_over_suffix(before, j),
                    }),
                forall|j: int|
                    0 <= j < c ==> (#[trigger] self.trees@[row as int]@[j]) == before[j],
            decreases c,
        {
            c = c - 1;
            proof {
                assert(sees_over_suffix(before, c as int) == (before[c as int].height > tallest))
                    by {
                    lemma_max_height_from_sees(before, c as int);
                }
            }
            let row_vec = &mut self.trees[row];
            let tree = &mut row_vec[c];
            tallest = check_visible(tallest, tree);
        }
    }

    /// Scans one column from the top, marking each tree that overtops all
    /// trees above it.
    pub fn scan_column(&mut self, column: usize)
        requires
            old(self).wf(),
            column < old(self).trees@[0]@.len(),
        ensures
            final(self).trees@.len() == old(self).trees@.len(),
            forall|r: int, c: int|
                0 <= r < old(self).trees@.len() && 0 <= c < old(self).trees@[r]@.len() && c
                    != column ==> final(self).trees@[r]@[c] == old(self).trees@[r]@[c],
            forall|r: int|
                0 <= r < old(self).trees@.len() ==> (#[trigger] final(self).trees@[r])@.len()
                    == old(self).trees@[r]@.len(),
            forall|r: int|
                0 <= r < old(self).trees@.len() ==> (#[trigger] final(self).trees@[r]@[column as int]) == ({
                    let col = column_of(old(self).trees@, column as int);
                    Tree {
                        height: col[r].height,
                        visible: col[r].visible || sees_over_prefix(col, r),
                    }
                }),
    {
        let ghost col = column_of(old(self).trees@, column as int);
        let mut tallest: i32 = -1;
        let mut r: usize = 0;
        let rows = self.trees.len();
        while r < rows
            invariant
                0 <= r <= rows,
                rows == self.trees@.len(),
                self.trees@.len() == old(self).trees@.len(),
                col == column_of(old(self).trees@, column as int),
                old(self).wf(),
                column < old(self).trees@[0]@.len(),
                forall|rr: int|
                    0 <= rr < old(self).trees@.len() ==> (#[trigger] self.trees@[rr])@.len() == old(
                        self,
                    ).trees@[rr]@.len(),
                forall|rr: int, c: int|
                    0 <= rr < old(self).trees@.len() && 0 <= c < old(self).trees@[rr]@.len() && c
                        != column ==> self.trees@[rr]@[c] == old(self).trees@[rr]@[c],
                tallest == max_height(col, r as int),
                forall|rr: int|
                    0 <= rr < r ==> (#[trigger] self.trees@[rr]@[column as int]) == (Tree {
                        height: col[rr].height,
                        visible: col[rr].visible || sees_over_prefix(col, rr),
                    }),
                forall|rr: int|
                    r <= rr < old(self).trees@.len() ==> (#[trigger] self.trees@[rr]@[column as int]) == col[rr],
            decreases rows - r,
        {
            proof {
                assert(col[r as int] == old(self).trees@[r as int]@[column as int]);
                assert(sees_over_prefix(col, r as int) == (col[r as int].height > tallest)) by {
                    lemma_max_height_sees(col, r as int);
                }
            }
            let row_vec = &mut self.trees[r];
            let tree = &mut row_vec[column];
            tallest = check_visible(tallest, tree);
            r = r + 1;
        }
    }

    /// Scans one column from the bottom, marking each tree that overtops
    /// all trees below it.
    pub fn scan_column_reverse(&mut self, column: usize)
        requires
            old(self).wf(),
            column < old(self).trees@[0]@.len(),
        ensures
            final(self).trees@.len() == old(self).trees@.len(),
            forall|r: int, c: int|
                0 <= r < old(self).trees@.len() && 0 <= c < old(self).trees@[r]@.len() && c
                    != column ==> final(self).trees@[r]@[c] == old(self).trees@[r]@[c],
            forall|r: int|
                0 <= r < old(self).trees@.len() ==> (#[trigger] final(self).trees@[r])@.len()
                    == old(self).trees@[r]@.len(),
            forall|r: int|
                0 <= r < old(self).trees@.len() ==> (#[trigger] final(self).trees@[r]@[column as int]) == ({
                    let col = column_of(old(self).trees@, column as int);
                    Tree {
                        height: col[r].height,
                        visible: col[r].visible || sees_over_suffix(col, r),
                    }
                }),
    {
        let ghost col = column_of(old(self).trees@, column as int);
        let mut tallest: i32 = -1;
        let rows = self.trees.len();
        let mut r: usize = rows;
        while r > 0
            invariant
                0 <= r <= rows,
                rows == self.trees@.len(),
                self.trees@.len() == old(self).trees@.len(),
                col == column_of(old(self).trees@, column as int),
                old(self).wf(),
                column < old(self).trees@[0]@.len(),
                forall|rr: int|
                    0 <= rr < old(self).trees@.len() ==> (#[trigger] self.trees@[rr])@.len() == old(
                        self,
                    ).trees@[rr]@.len(),
                forall|rr: int, c: int|
                    0 <= rr < old(self).trees@.len() && 0 <= c < old(self).trees@[rr]@.len() && c
                        != column ==> self.trees@[rr]@[c] == old(self).trees@[rr]@[c],
                tallest == max_height_from(col, r as int),
                forall|rr: int|
                    r <= rr < old(self).trees@.len() ==> (#[trigger] self.trees@[rr]@[column as int]) == (Tree {
                        height: col[rr].height,
                        visible: col[rr].visible || sees_over_suffix(col, rr),
                    }),
                forall|rr: int|
                    0 <= rr < r ==> (#[trigger] self.trees@[rr]@[column as int]) == col[rr],
            decreases r,
        {
            r = r - 1;
            proof {
                assert(col[r as int] == old(self).trees@[r as int]@[column as int]);
                assert(sees_over_suffix(col, r as int) == (col[r as int].height > tallest)) by {
                    lemma_max_height_from_sees(col, r as int);
                }
            }
            let row_vec = &mut self.trees[r];
            let tree = &mut row_vec[column];
            tallest = check_visible(tallest, tree);
        }
    }

    /// Counts the trees currently marked visible, over the whole grid.
    pub fn count_visible(&self) -> (n: usize)
        requires
            self.trees@.len() * 65_535 <= usize::MAX,
            forall|r: int|
                0 <= r < self.trees@.len() ==> (#[trigger] self.trees@[r])@.len() <= 65_535,
        ensures
            n == visible_in_rows(self.trees@, self.trees@.len() as int),
    {
        let mut n: usize = 0;
        let mut r: usize = 0;
        while r < self.trees.len()
            invariant
                0 <= r <= self.trees@.len(),
                self.trees@.len() * 65_535 <= usize::MAX,
                forall|rr: int|
                    0 <= rr < self.trees@.len() ==> (#[trigger] self.trees@[rr])@.len() <= 65_535,
                n == visible_in_rows(self.trees@, r as int),
                n <= r * 65_535,
            decreases self.trees@.len() - r,
        {
            let row_vec = &self.trees[r];
            let mut c: usize = 0;
            let mut in_row: usize = 0;
            while c < row_vec.len()
                invariant
                    0 <= c <= row_vec@.len(),
                    row_vec@.len() <= 65_535,
                    row_vec@ == self.trees@[r as int]@,
                    in_row == visible_in_row(row_vec@, c as int),
                    in_row <= c,
                decreases row_vec@.len() - c,
            {
                if row_vec[c].visible {
                    in_row = in_row + 1;
                }
                c = c + 1;
            }
            proof {
                assert(r * 65_535 + 65_535 <= self.trees@.len() * 65_535) by (nonlinear_arith)
                    requires
                        r < self.trees@.len(),
                ;
                assert(r * 65_535 + 65_535 == (r + 1) * 65_535) by (nonlinear_arith);
                lemma_visible_in_row_nonneg(self.trees@[r as int]@, self.trees@[r as int]@.len() as int);
            }
            n = n + in_row;
            r = r + 1;
        }
        n
    }

    /// The scenic score of the tree at `(row, column)`: the product of the
    /// viewing distances in the four directions; zero on the grid edge.
    pub fn scenic_score(&self, row: usize, column: usize) -> (score: usize)
        requires
            self.wf(),
            self.trees@.len() <= 200,
            self.trees@[0]@.len() <= 200,
            row < self.trees@.len(),
            column < self.trees@[0]@.len(),
        ensures
            score == ({
                let s = self.trees@[row as int]@;
                let col = column_of(self.trees@, column as int);
                let h = s[column as int].height as int;
                if row == 0 || column == 0 || row == self.trees@.len() - 1 || column
                    == self.trees@[0]@.len() - 1 {
                    0
                } else {
                    look_left(s, h, column as int) * look_right(s, h, column as int) * look_left(
                        col,
                        h,
                        row as int,
                    ) * look_right(col, h, row as int)
                }
            }),
    {
        if row == 0 || column == 0 || row == self.trees.len() - 1 || column == self.trees[0].len()
            - 1 {
            return 0;
        }
        let house_height = self.trees[row][column].height;
        let row_vec = &self.trees[row];
        let left_score = left_view(row_vec, column, house_height);
        let right_score = right_view(row_vec, column, house_height);
        let mut col_vec: Vec<Tree> = Vec::new();
        let mut rr: usize = 0;
        while rr < self.trees.len()
            invariant
                0 <= rr <= self.trees@.len(),
                self.wf(),
                column < self.trees@[0]@.len(),
                col_vec@.len() == rr,
                forall|k: int|
                    0 <= k < rr ==> (#[trigger] col_vec@[k]) == self.trees@[k]@[column as int],
            decreases self.trees@.len() - rr,
        {
            col_vec.push(self.trees[rr][column]);
            rr = rr + 1;
        }
        proof {
            assert(col_vec@ =~= column_of(self.trees@, column as int));
        }
        let up_score = left_view(&col_vec, row, house_height);
        let down_score = right_view(&col_vec, row, house_height);
        proof {
            let s = self.trees@[row as int]@;
            let col = column_of(self.trees@, column as int);
            let h = house_height as int;
            lemma_look_left_le(s, h, column as int);
            lemma_look_right_le(s, h, column as int);
            lemma_look_left_le(col, h, row as int);
            lemma_look_right_le(col, h, row as int);
            assert(left_score * right_score <= 200 * 200) by (nonlinear_arith)
                requires
                    0 <= left_score <= 200,
                    0 <= right_score <= 200,
            ;
            assert(left_score * right_score * up_score <= 200 * 200 * 200) by (nonlinear_arith)
                requires
                    0 <= left_score * right_score <= 200 * 200,
                    0 <= up_score <= 200,
            ;
            assert(left_score * right_score * up_score * down_score <= 200 * 200 * 200 * 200)
                by (nonlinear_arith)
                requires
                    0 <= left_score * right_score * up_score <= 200 * 200 * 200,
                    0 <= down_score <= 200,
            ;
        }
        left_score * right_score * up_score * down_score
    }
}

/// Parses a forest drawing: one line per row, one decimal digit per tree
/// height.  A malformed drawing (ragged rows, an empty grid, or a
/// non-digit) gives `None`; every tree starts unmarked.
pub fn parse_forest(input: &str) -> (r: Option<Forest>)
    ensures
        match r {
            Some(f) => {
                &&& f.wf()
                &&& exists|ps: Seq<Seq<u8>>|
                    {
                        &&& joined(ps, 10) == input.spec_bytes()
                        &&& sep_free(ps, 10)
                        &&& ps.len() == f.trees@.len()
                        &&& forall|rr: int| 0 <= rr < ps.len() ==> (#[trigger] ps[rr]).len()
                            == f.trees@[rr]@.len()
                        &&& forall|rr: int, cc: int|
                            0 <= rr < ps.len() && 0 <= cc < ps[rr].len()
                                ==> crate::text::is_digit(#[trigger] ps[rr][cc])
                                && f.trees@[rr]@[cc] == (Tree {
                                height: (ps[rr][cc] - 48) as i32,
                                visible: false,
                            })
                    }
            },
            None => true,
        },
{
    if !input.is_ascii() {
        return None;
    }
    let bytes = input.as_bytes_vec();
    let lines = crate::text::split(&bytes, 10);
    let ghost ps = lines@.map_values(|p: Vec<u8>| p@);
    let mut trees: Vec<Vec<Tree>> = Vec::new();
    let width = lines[0].len();
    if width == 0 {
        return None;
    }
    let mut r: usize = 0;
    while r < lines.len()
        invariant
            0 <= r <= lines@.len(),
            ps == lines@.map_values(|p: Vec<u8>| p@),
            width == ps[0].len(),
            width > 0,
            trees@.len() == r,
            forall|k: int| 0 <= k < r ==> (#[trigger] ps[k]).len() == width,
            forall|k: int| 0 <= k < r ==> (#[trigger] trees@[k])@.len() == width,
            forall|k: int, c: int|
                0 <= k < r && 0 <= c < width ==> crate::text::is_digit(#[trigger] ps[k][c])
                    && trees@[k]@[c] == (Tree { height: (ps[k][c] - 48) as i32, visible: false }),
        decreases lines@.len() - r,
    {
        if lines[r].len() != width {
            return None;
        }
        let mut row: Vec<Tree> = Vec::new();
        let mut c: usize = 0;
        while c < lines[r].len()
            invariant
                0 <= r < lines@.len(),
                ps == lines@.map_values(|p: Vec<u8>| p@),
                ps[r as int].len() == width,
                0 <= c <= width,
                row@.len() == c,
                forall|j: int|
                    0 <= j < c ==> crate::text::is_digit(#[trigger] ps[r as int][j]) && row@[j] == (
                    Tree { height: (ps[r as int][j] - 48) as i32, visible: false }),
            decreases width - c,
        {
            let b = lines[r][c];
            proof {
                assert(ps[r as int] == lines@[r as int]@);
                assert(ps[r as int][c as int] == b);
            }
            if b < 48 || b > 57 {
                return None;
            }
            row.push(Tree::new((b - 48) as i32));
            c = c + 1;
        }
        trees.push(row);
        r = r + 1;
    }
    let forest = Forest { trees };
    proof {
        assert(forest.wf());
    }
    Some(forest)
}

/// How many trees `look_left` can report at most.
proof fn lemma_look_left_le(s: Seq<Tree>, h: int, c: int)
    ensures
        0 <= look_left(s, h, c) <= (if c >= 0 {
            c
        } else {
            0
        }),
    decreases c,
{
    if c > 0 {
        lemma_look_left_le(s, h, c - 1);
    }
}

/// How many trees `look_right` can report at most.
proof fn lemma_look_right_le(s: Seq<Tree>, h: int, c: int)
    ensures
        0 <= look_right(s, h, c) <= (if c <= s.len() - 1 {
            s.len() - 1 - c
        } else {
            0
        }),
    decreases s.len() - c,
{
    if c < s.len() - 1 {
        lemma_look_right_le(s, h, c + 1);
    }
}

/// Looking left stops exactly at the nearest blocker.
proof fn lemma_look_left_stop(s: Seq<Tree>, h: int, c: int, j: int)
    requires
        0 <= j < c <= s.len(),
        s[j].height >= h,
        forall|k: int| j < k < c ==> (#[trigger] s[k]).height < h,
    ensures
        look_left(s, h, c) == c - j,
    decreases c - j,
{
    if j < c - 1 {
        lemma_look_left_stop(s, h, c - 1, j);
    }
}

/// Looking left with no blocker reaches the grid edge.
proof fn lemma_look_left_all(s: Seq<Tree>, h: int, c: int)
    requires
        0 <= c <= s.len(),
        forall|k: int| 0 <= k < c ==> (#[trigger] s[k]).height < h,
    ensures
        look_left(s, h, c) == c,
    decreases c,
{
    if c > 0 {
        lemma_look_left_all(s, h, c - 1);
    }
}

/// Looking right stops exactly at the nearest blocker.
proof fn lemma_look_right_stop(s: Seq<Tree>, h: int, c: int, j: int)
    requires
        0 <= c < j < s.len(),
        s[j].height >= h,
        forall|k: int| c < k < j ==> (#[trigger] s[k]).height < h,
    ensures
        look_right(s, h, c) == j - c,
    decreases j - c,
{
    if j > c + 1 {
        lemma_look_right_stop(s, h, c + 1, j);
    }
}

/// Looking right with no blocker reaches the grid edge.
proof fn lemma_look_right_all(s: Seq<Tree>, h: int, c: int)
    requires
        0 <= c < s.len(),
        forall|k: int| c < k < s.len() ==> (#[trigger] s[k]).height < h,
    ensures
        look_right(s, h, c) == s.len() - 1 - c,
    decreases s.len() - c,
{
    if c < s.len() - 1 {
        lemma_look_right_all(s, h, c + 1);
    }
}

/// Counts the steps seen looking left from `column`, against height `h`.
fn left_view(s: &Vec<Tree>, column: usize, h: i32) -> (r: usize)
    requires
        column < s@.len(),
    ensures
        r == look_left(s@, h as int, column as int),
{
    let mut j: usize = column;
    let mut score: usize = 0;
    let mut done = false;
    while j > 0 && !done
        invariant
            0 <= j <= column < s@.len(),
            !done ==> score == column - j && forall|k: int|
                j <= k < column ==> (#[trigger] s@[k]).height < h,
            done ==> score == look_left(s@, h as int, column as int),
        decreases j,
    {
        j = j - 1;
        score = score + 1;
        if s[j].height >= h {
            done = true;
            proof {
                lemma_look_left_stop(s@, h as int, column as int, j as int);
            }
        }
    }
    proof {
        if !done {
            lemma_look_left_all(s@, h as int, column as int);
        }
    }
    score
}

/// Counts the steps seen looking right from `column`, against height `h`.
fn right_view(s: &Vec<Tree>, column: usize, h: i32) -> (r: usize)
    requires
        column < s@.len(),
    ensures
        r == look_right(s@, h as int, column as int),
{
    let mut j: usize = column;
    let mut score: usize = 0;
    let mut done = false;
    while j < s.len() - 1 && !done
        invariant
            column <= j < s@.len(),
            !done ==> score == j - column && forall|k: int|
                column < k <= j ==> (#[trigger] s@[k]).height < h,
            done ==> score == look_right(s@, h as int, column as int),
        decreases s@.len() - j,
    {
        j = j + 1;
        score = score + 1;
        if s[j].height >= h {
            done = true;
            proof {
                lemma_look_right_stop(s@, h as int, column as int, j as int);
            }
        }
    }
    proof {
        if !done {
            lemma_look_right_all(s@, h as int, column as int);
        }
    }
    score
}

/// Seeing over the prefix is the same as overtopping the running maximum.
proof fn lemma_max_height_sees(s: Seq<Tree>, c: int)
    requires
        0 <= c < s.len(),
    ensures
        sees_over_prefix(s, c) == (s[c].height > max_height(s, c)),
{
    lemma_max_height_ge(s, c);
    if s[c].height > max_height(s, c) {
        assert forall|j: int| 0 <= j < c implies (#[trigger] s[j]).height < s[c].height by {
            lemma_max_height_bounds(s, c, j);
        }
    }
    if sees_over_prefix(s, c) {
        lemma_max_height_lt(s, c, s[c].height as int);
    }
}

/// The running maximum of a prefix of strictly smaller heights stays below.
proof fn lemma_max_height_lt(s: Seq<Tree>, c: int, h: int)
    requires
        h > -1,
        forall|j: int| 0 <= j < c ==> (#[trigger] s[j]).height < h,
    ensures
        max_height(s, c) < h,
    decreases c,
{
    if c > 0 {
        lemma_max_height_lt(s, c - 1, h);
    }
}

/// The running maximum is at least `-1` and at least every earlier height.
proof fn lemma_max_height_ge(s: Seq<Tree>, c: int)
    ensures
        max_height(s, c) >= -1,
    decreases c,
{
    if c > 0 {
        lemma_max_height_ge(s, c - 1);
    }
}

proof fn lemma_max_height_bounds(s: Seq<Tree>, c: int, j: int)
    requires
        0 <= j < c,
    ensures
        s[j].height <= max_height(s, c),
    decreases c,
{
    if j < c - 1 {
        lemma_max_height_bounds(s, c - 1, j);
    }
}

/// Seeing over the suffix is the same as overtopping the running maximum
/// from the right.
proof fn lemma_max_height_from_sees(s: Seq<Tree>, c: int)
    requires
        0 <= c < s.len(),
    ensures
        sees_over_suffix(s, c) == (s[c].height > max_height_from(s, c + 1)),
{
    lemma_max_height_from_ge(s, c + 1);
    if s[c].height > max_height_from(s, c + 1) {
        assert forall|j: int| c < j < s.len() implies (#[trigger] s[j]).height < s[c].height by {
            lemma_max_height_from_bounds(s, c + 1, j);
        }
    }
    if sees_over_suffix(s, c) {
        lemma_max_height_from_lt(s, c + 1, s[c].height as int);
    }
}

/// The running maximum of a suffix of strictly smaller heights stays below.
proof fn lemma_max_height_from_lt(s: Seq<Tree>, c: int, h: int)
    requires
        h > -1,
        forall|j: int| c <= j < s.len() ==> (#[trigger] s[j]).height < h,
    ensures
        max_height_from(s, c) < h,
    decreases s.len() - c,
{
    if c < s.len() {
        lemma_max_height_from_lt(s, c + 1, h);
    }
}

proof fn lemma_max_height_from_ge(s: Seq<Tree>, c: int)
    ensures
        max_height_from(s, c) >= -1,
    decreases s.len() - c,
{
    if c < s.len() {
        lemma_max_height_from_ge(s, c + 1);
    }
}

proof fn lemma_max_height_from_bounds(s: Seq<Tree>, c: int, j: int)
    requires
        c <= j < s.len(),
    ensures
        s[j].height <= max_height_from(s, c),
    decreases j - c,
{
    if j > c {
        lemma_max_height_from_bounds(s, c + 1, j);
    }
}

} // verus!
