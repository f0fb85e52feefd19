//! Box line-reduction: when, inside a box, a digit is allowed only on one row
//! (or one column), the digit must lie in that segment, so it is removed from
//! the rest of that row (or column) outside the box.
use vstd::prelude::*;
use crate::solution::{at, unit_pos, lemma_unit_covers, lemma_unit_pos};
use crate::field::Field;
use crate::sudoku::{Sudoku, on_grid, peers};

verus! {

/// Cell `k` (0 to 8) of the box whose top-left cell is (cx, cy).
pub open spec fn box_pos(cx: int, cy: int, k: int) -> (int, int) {
    (cx + k / 3, cy + k % 3)
}

/// (i, j) lies on line `l`: a row for `dir` 0, a column for `dir` 1.
pub open spec fn on_line(dir: int, i: int, j: int, l: int) -> bool {
    if dir == 0 {
        j == l
    } else {
        i == l
    }
}

/// Cell `m` (0 to 8) of line `l`.
pub open spec fn line_pos(dir: int, l: int, m: int) -> (int, int) {
    if dir == 0 {
        (m, l)
    } else {
        (l, m)
    }
}

/// Cell `m` of a line through the box at (cx, cy) lies outside the box.
pub open spec fn outside_box(dir: int, cx: int, cy: int, m: int) -> bool {
    if dir == 0 {
        m < cx || m >= cx + 3
    } else {
        m < cy || m >= cy + 3
    }
}

/// Line `l` passes through the box at (cx, cy).
pub open spec fn crosses(dir: int, cx: int, cy: int, l: int) -> bool {
    if dir == 0 {
        cy <= l < cy + 3
    } else {
        cx <= l < cx + 3
    }
}

/// Cell (i, j) lies on line `l` outside the box at (cx, cy).
pub open spec fn on_line_outside(dir: int, cx: int, cy: int, l: int, i: int, j: int) -> bool {
    on_line(dir, i, j, l) && if dir == 0 {
        i < cx || i >= cx + 3
    } else {
        j < cy || j >= cy + 3
    }
}

/// Cell (i, j) lies in the box at (cx, cy).
pub open spec fn in_box(cx: int, cy: int, i: int, j: int) -> bool {
    cx <= i < cx + 3 && cy <= j < cy + 3
}

/// The position of (i, j) along a line: its column on a row, its row on a column.
pub open spec fn along(dir: int, i: int, j: int) -> int {
    if dir == 0 {
        i
    } else {
        j
    }
}

/// (cx, cy) is the top-left cell of a box.
pub open spec fn is_corner(cx: int, cy: int) -> bool {
    0 <= cx < 9 && 0 <= cy < 9 && cx % 3 == 0 && cy % 3 == 0
}

impl Sudoku {
    /// Cell `k` of the box at (cx, cy) allows `d`.
    pub open spec fn box_allows(&self, cx: int, cy: int, k: int, d: int) -> bool {
        self.cell(box_pos(cx, cy, k).0, box_pos(cx, cy, k).1).has(d)
    }

    /// Inside the box at (cx, cy), digit `d` is allowed on line `l` and nowhere else.
    pub open spec fn confined(&self, dir: int, cx: int, cy: int, l: int, d: int) -> bool {
        &&& 1 <= d <= 9
        &&& exists|k: int|
            0 <= k < 9 && on_line(dir, box_pos(cx, cy, k).0, box_pos(cx, cy, k).1, l)
                && #[trigger] self.box_allows(cx, cy, k, d)
        &&& forall|k: int|
            0 <= k < 9 && #[trigger] self.box_allows(cx, cy, k, d) ==> on_line(
                dir,
                box_pos(cx, cy, k).0,
                box_pos(cx, cy, k).1,
                l,
            )
    }

    /// Cell `m` of line `l`, outside the box at (cx, cy), is open and allows `d`.
    pub open spec fn pending(&self, dir: int, cx: int, cy: int, l: int, d: int, m: int) -> bool {
        &&& 0 <= m < 9
        &&& outside_box(dir, cx, cy, m)
        &&& !self.cell(line_pos(dir, l, m).0, line_pos(dir, l, m).1).is_single()
        &&& self.cell(line_pos(dir, l, m).0, line_pos(dir, l, m).1).has(d)
    }

    /// Line-reduction in the box at (cx, cy) would remove `d` from cell `m` of line `l`.
    pub open spec fn reducible(&self, dir: int, cx: int, cy: int, l: int, d: int, m: int) -> bool {
        self.confined(dir, cx, cy, l, d) && self.pending(dir, cx, cy, l, d, m)
    }

    /// Line-reduction in the box at (cx, cy) would remove some candidate.
    pub open spec fn box_reducible(&self, cx: int, cy: int) -> bool {
        exists|dir: int, l: int, d: int, m: int|
            0 <= dir < 2 && crosses(dir, cx, cy, l) && #[trigger] self.reducible(dir, cx, cy, l, d, m)
    }

    /// Line-reduction would remove no candidate anywhere.
    pub open spec fn no_line_reduction(&self) -> bool {
        forall|bx: int, by: int|
            0 <= bx < 3 && 0 <= by < 3 ==> !#[trigger] self.box_reducible(3 * bx, 3 * by)
    }

    /// A digit confined to a line of a box is not in any admitted solution on
    /// that line outside the box.
    pub proof fn lemma_confined_excludable(g: Sudoku, dir: int, cx: int, cy: int, l: int, d: int, m: int)
        requires
            g.wf(),
            0 <= dir < 2,
            is_corner(cx, cy),
            crosses(dir, cx, cy, l),
            g.confined(dir, cx, cy, l, d),
            0 <= m < 9,
            outside_box(dir, cx, cy, m),
        ensures
            g.excludable(line_pos(dir, l, m).0, line_pos(dir, l, m).1, d),
    {
        let (x, y) = line_pos(dir, l, m);
        assert forall|s: Seq<int>| #[trigger] g.admits(s) implies at(s, x, y) != d by {
            lemma_unit_covers(s, 2, cx, cy, d);
            let k = choose|k: int| 0 <= k < 9 && at(s, unit_pos(2, cx, cy, k).0, unit_pos(2, cx, cy, k).1) == d;
            lemma_unit_pos(2, cx, cy, k);
            assert(unit_pos(2, cx, cy, k) == box_pos(cx, cy, k));
            let (i, j) = box_pos(cx, cy, k);
            assert(g.cell(i, j).has(at(s, i, j)));
            assert(g.box_allows(cx, cy, k, d));
            assert(peers(i, j, x, y));
        }
    }

    /// Whatever one solution does not need at a cell, a narrower grid does not need either.
    pub proof fn lemma_excludable_narrow(g0: Sudoku, g: Sudoku, x: int, y: int, d: int)
        requires
            g.narrows(g0),
            g0.excludable(x, y, d),
        ensures
            g.excludable(x, y, d),
    {
        assert forall|s: Seq<int>| #[trigger] g.admits(s) implies at(s, x, y) != d by {
            assert forall|i: int, j: int| on_grid(i, j) implies (#[trigger] g0.cell(i, j)).has(at(s, i, j)) by {
                assert(g.cell(i, j).has(at(s, i, j)));
            }
            assert(g0.admits(s));
        }
    }
}

impl Sudoku {
    /// A cell that is determined, or lacks `d`, stays so under narrowing.
    pub proof fn lemma_not_pending_kept(
        g1: Sudoku,
        g2: Sudoku,
        dir: int,
        cx: int,
        cy: int,
        l: int,
        d: int,
        m: int,
    )
        requires
            g1.wf(),
            g2.wf(),
            g2.narrows(g1),
            0 <= dir < 2,
            crosses(dir, cx, cy, l),
            is_corner(cx, cy),
            !g1.pending(dir, cx, cy, l, d, m),
        ensures
            !g2.pending(dir, cx, cy, l, d, m),
    {
        if 0 <= m < 9 {
            let (x, y) = line_pos(dir, l, m);
            assert(on_grid(x, y));
            if g1.cell(x, y).is_single() && g2.cell(x, y).has(d) {
                Field::lemma_narrow_single(g1.cell(x, y), g2.cell(x, y));
            }
        }
    }

    /// Whether a digit is confined to a line of a box depends on the cells of
    /// the box alone.
    pub proof fn lemma_confined_same_box(g0: Sudoku, g1: Sudoku, dir: int, cx: int, cy: int, l: int, d: int)
        requires
            is_corner(cx, cy),
            forall|i: int, j: int| on_grid(i, j) && in_box(cx, cy, i, j) ==> #[trigger] g1.cell(i, j) == g0.cell(i, j),
        ensures
            g1.confined(dir, cx, cy, l, d) == g0.confined(dir, cx, cy, l, d),
    {
        assert forall|k: int| 0 <= k < 9 implies #[trigger] g1.box_allows(cx, cy, k, d) == g0.box_allows(cx, cy, k, d) by {
            let (i, j) = box_pos(cx, cy, k);
            assert(on_grid(i, j) && in_box(cx, cy, i, j));
            assert(g1.cell(i, j) == g0.cell(i, j));
        }
        if g0.confined(dir, cx, cy, l, d) {
            let k = choose|k: int|
                0 <= k < 9 && on_line(dir, box_pos(cx, cy, k).0, box_pos(cx, cy, k).1, l)
                    && #[trigger] g0.box_allows(cx, cy, k, d);
            assert(g1.box_allows(cx, cy, k, d));
            assert forall|k2: int| 0 <= k2 < 9 && #[trigger] g1.box_allows(cx, cy, k2, d) implies on_line(
                dir,
                box_pos(cx, cy, k2).0,
                box_pos(cx, cy, k2).1,
                l,
            ) by {
                assert(g0.box_allows(cx, cy, k2, d));
            }
        }
        if g1.confined(dir, cx, cy, l, d) {
            let k = choose|k: int|
                0 <= k < 9 && on_line(dir, box_pos(cx, cy, k).0, box_pos(cx, cy, k).1, l)
                    && #[trigger] g1.box_allows(cx, cy, k, d);
            assert(g0.box_allows(cx, cy, k, d));
            assert forall|k2: int| 0 <= k2 < 9 && #[trigger] g0.box_allows(cx, cy, k2, d) implies on_line(
                dir,
                box_pos(cx, cy, k2).0,
                box_pos(cx, cy, k2).1,
                l,
            ) by {
                assert(g1.box_allows(cx, cy, k2, d));
            }
        }
    }

    /// Under narrowing that keeps a solution, a digit confined to a line of a
    /// box stays confined to it.
    pub proof fn lemma_confined_narrowed(
        g0: Sudoku,
        g1: Sudoku,
        s: Seq<int>,
        dir: int,
        cx: int,
        cy: int,
        l: int,
        d: int,
    )
        requires
            g0.wf(),
            g1.wf(),
            g1.narrows(g0),
            g1.admits(s),
            is_corner(cx, cy),
            g0.confined(dir, cx, cy, l, d),
        ensures
            g1.confined(dir, cx, cy, l, d),
    {
        assert forall|k: int| 0 <= k < 9 && #[trigger] g1.box_allows(cx, cy, k, d) implies on_line(
            dir,
            box_pos(cx, cy, k).0,
            box_pos(cx, cy, k).1,
            l,
        ) by {
            lemma_unit_pos(2, cx, cy, k);
            assert(unit_pos(2, cx, cy, k) == box_pos(cx, cy, k));
            assert(g0.box_allows(cx, cy, k, d));
        }
        lemma_unit_covers(s, 2, cx, cy, d);
        let k = choose|k: int| 0 <= k < 9 && at(s, unit_pos(2, cx, cy, k).0, unit_pos(2, cx, cy, k).1) == d;
        lemma_unit_pos(2, cx, cy, k);
        assert(unit_pos(2, cx, cy, k) == box_pos(cx, cy, k));
        let (i, j) = box_pos(cx, cy, k);
        assert(g1.cell(i, j).has(at(s, i, j)));
        assert(g1.box_allows(cx, cy, k, d));
    }
}

/// Where line `l` comes among the six lines through the box at (cx, cy):
/// its three rows, then its three columns.
pub open spec fn line_index(dir: int, cx: int, cy: int, l: int) -> int {
    3 * dir + if dir == 0 {
        l - cy
    } else {
        l - cx
    }
}

/// Applies line-reduction to every box. Returns whether any candidate was removed.
pub trait ProjectLines {
    /// The value is in a state in which line-reduction can run.
    spec fn lines_ready(&self) -> bool;

    /// Removes every candidate that line-reduction rules out.
    fn project_lines(&mut self) -> (r: bool)
        requires
            old(self).lines_ready(),
    ;
}

impl ProjectLines for Sudoku {
    open spec fn lines_ready(&self) -> bool {
        self.wf()
    }

    /// Checks every box for rows and columns whose digits can be projected.
    fn project_lines(&mut self) -> (r: bool)
        ensures
            final(self).step_from(*old(self), r),
            !r ==> *final(self) == *old(self) && old(self).no_line_reduction(),
            old(self).no_line_reduction() ==> !r,
            final(self).projected_since(*old(self)),
            (exists|s: Seq<int>| old(self).admits(s)) ==> forall|bx: int, by: int, dir: int, l: int, d: int, m: int|
                0 <= bx < 3 && 0 <= by < 3 && 0 <= dir < 2 && crosses(dir, 3 * bx, 3 * by, l)
                    && #[trigger] old(self).reducible(dir, 3 * bx, 3 * by, l, d, m) ==> !final(self).pending(
                    dir,
                    3 * bx,
                    3 * by,
                    l,
                    d,
                    m,
                ),
    {
        let ghost g0 = *self;
        let mut progress = false;
        proof {
            Sudoku::lemma_step_refl(g0, *self);
        }
        let mut b: usize = 0;
        while b < 9
            invariant
                b <= 9,
                self.step_from(g0, progress),
                !progress ==> *self == g0,
                !progress ==> forall|b2: int|
                    0 <= b2 < b ==> !#[trigger] g0.box_reducible(3 * (b2 / 3), 3 * (b2 % 3)),
                g0.no_line_reduction() ==> !progress,
                g0.wf(),
                self.projected_since(g0),
                (exists|s: Seq<int>| g0.admits(s)) ==> forall|b2: int, dir: int, l: int, d: int, m: int|
                    0 <= b2 < b && 0 <= dir < 2 && crosses(dir, 3 * (b2 / 3), 3 * (b2 % 3), l)
                        && #[trigger] g0.reducible(dir, 3 * (b2 / 3), 3 * (b2 % 3), l, d, m) ==> !self.pending(
                        dir,
                        3 * (b2 / 3),
                        3 * (b2 % 3),
                        l,
                        d,
                        m,
                    ),
            decreases 9 - b,
        {
            let ghost g1 = *self;
            proof {
                assert(g0.no_line_reduction() ==> !g0.box_reducible(3 * (b / 3), 3 * (b % 3)));
            }
            let p = check_square(self, (b / 3) * 3, (b % 3) * 3);
            proof {
                Sudoku::lemma_projected_since_trans(g0, g1, *self, p);
                Sudoku::lemma_step_trans(g0, g1, *self, progress, p);
                if exists|s: Seq<int>| g0.admits(s) {
                    let s = choose|s: Seq<int>| g0.admits(s);
                    assert(g1.admits(s));
                    assert forall|b2: int, dir: int, l: int, d: int, m: int|
                        0 <= b2 < b + 1 && 0 <= dir < 2 && crosses(dir, 3 * (b2 / 3), 3 * (b2 % 3), l)
                            && #[trigger] g0.reducible(dir, 3 * (b2 / 3), 3 * (b2 % 3), l, d, m) implies !self.pending(
                            dir,
                            3 * (b2 / 3),
                            3 * (b2 % 3),
                            l,
                            d,
                            m,
                        ) by {
                        let (cx, cy) = (3 * (b2 / 3), 3 * (b2 % 3));
                        if b2 == b {
                            Sudoku::lemma_confined_narrowed(g0, g1, s, dir, cx, cy, l, d);
                            assert(g1.reducible(dir, cx, cy, l, d, m) || !g1.pending(dir, cx, cy, l, d, m));
                        } else {
                            Sudoku::lemma_not_pending_kept(g1, *self, dir, cx, cy, l, d, m);
                        }
                    }
                }
                if !progress && !p {
                    assert forall|b2: int| 0 <= b2 < b + 1 implies !#[trigger] g0.box_reducible(
                        3 * (b2 / 3),
                        3 * (b2 % 3),
                    ) by {}
                }
            }
            progress = p || progress;
            b += 1;
        }
        proof {
            if !progress {
                assert forall|bx: int, by: int| 0 <= bx < 3 && 0 <= by < 3 implies !#[trigger] g0.box_reducible(
                    3 * bx,
                    3 * by,
                ) by {
                    let b2 = 3 * bx + by;
                    assert(b2 / 3 == bx && b2 % 3 == by);
                }
            }
            if exists|s: Seq<int>| g0.admits(s) {
                assert forall|bx: int, by: int, dir: int, l: int, d: int, m: int|
                    0 <= bx < 3 && 0 <= by < 3 && 0 <= dir < 2 && crosses(dir, 3 * bx, 3 * by, l)
                        && #[trigger] g0.reducible(dir, 3 * bx, 3 * by, l, d, m) implies !self.pending(
                        dir,
                        3 * bx,
                        3 * by,
                        l,
                        d,
                        m,
                    ) by {
                    let b2 = 3 * bx + by;
                    assert(b2 / 3 == bx && b2 % 3 == by);
                }
            }
        }
        progress
    }
}

/// Applies line-reduction to the rows, then the columns, of the box at (cx, cy).
fn check_square(sudoku: &mut Sudoku, cx: usize, cy: usize) -> (r: bool)
    requires
        old(sudoku).wf(),
        is_corner(cx as int, cy as int),
    ensures
        final(sudoku).step_from(*old(sudoku), r),
        !r ==> *final(sudoku) == *old(sudoku) && !old(sudoku).box_reducible(cx as int, cy as int),
        !old(sudoku).box_reducible(cx as int, cy as int) ==> !r,
        forall|dir: int, l: int, d: int, m: int|
            0 <= dir < 2 && crosses(dir, cx as int, cy as int, l) && #[trigger] old(sudoku).reducible(
                dir,
                cx as int,
                cy as int,
                l,
                d,
                m,
            ) ==> !final(sudoku).pending(dir, cx as int, cy as int, l, d, m),
        forall|i: int, j: int|
            on_grid(i, j) && in_box(cx as int, cy as int, i, j) ==> #[trigger] final(sudoku).cell(i, j)
                == old(sudoku).cell(i, j),
        final(sudoku).projected_since(*old(sudoku)),
{
    let ghost g0 = *sudoku;
    let mut progress = false;
    proof {
        Sudoku::lemma_step_refl(g0, *sudoku);
    }
    let mut q: usize = 0;
    while q < 6
        invariant
            q <= 6,
            is_corner(cx as int, cy as int),
            sudoku.step_from(g0, progress),
            !progress ==> *sudoku == g0,
            !progress ==> forall|dir: int, l: int, d: int, m: int|
                0 <= dir < 2 && crosses(dir, cx as int, cy as int, l) && 3 * dir + (if dir == 0 {
                    l - cy
                } else {
                    l - cx
                }) < q ==> !#[trigger] g0.reducible(dir, cx as int, cy as int, l, d, m),
            !g0.box_reducible(cx as int, cy as int) ==> !progress,
            g0.wf(),
            forall|i: int, j: int|
                on_grid(i, j) && in_box(cx as int, cy as int, i, j) ==> #[trigger] sudoku.cell(i, j)
                    == g0.cell(i, j),
            sudoku.projected_since(g0),
            forall|dir: int, l: int, d: int, m: int|
                0 <= dir < 2 && crosses(dir, cx as int, cy as int, l) && line_index(dir, cx as int, cy as int, l) < q
                    && #[trigger] g0.reducible(dir, cx as int, cy as int, l, d, m) ==> !sudoku.pending(
                    dir,
                    cx as int,
                    cy as int,
                    l,
                    d,
                    m,
                ),
        decreases 6 - q,
    {
        let dir = q / 3;
        let l = if dir == 0 { cy + q % 3 } else { cx + q % 3 };
        let ghost g1 = *sudoku;
        let p = reduce_line(sudoku, dir, cx, cy, l);
        proof {
            Sudoku::lemma_projected_since_trans(g0, g1, *sudoku, p);
            Sudoku::lemma_step_trans(g0, g1, *sudoku, progress, p);
            assert(line_index(dir as int, cx as int, cy as int, l as int) == q);
            assert forall|i: int, j: int|
                on_grid(i, j) && in_box(cx as int, cy as int, i, j) implies #[trigger] sudoku.cell(i, j)
                    == g0.cell(i, j) by {
                assert(!on_line_outside(dir as int, cx as int, cy as int, l as int, i, j));
                assert(g1.cell(i, j) == g0.cell(i, j));
            }
            assert forall|dir2: int, l2: int, d: int, m: int|
                0 <= dir2 < 2 && crosses(dir2, cx as int, cy as int, l2) && line_index(dir2, cx as int, cy as int, l2)
                    < q + 1 && #[trigger] g0.reducible(dir2, cx as int, cy as int, l2, d, m) implies !sudoku.pending(
                dir2,
                cx as int,
                cy as int,
                l2,
                d,
                m,
            ) by {
                if line_index(dir2, cx as int, cy as int, l2) == q {
                    assert(dir2 == dir && l2 == l);
                    Sudoku::lemma_confined_same_box(g0, g1, dir2, cx as int, cy as int, l2, d);
                } else {
                    Sudoku::lemma_not_pending_kept(g1, *sudoku, dir2, cx as int, cy as int, l2, d, m);
                }
            }
        }
        progress = p || progress;
        q += 1;
    }
    progress
}

/// Finds the digits confined to line `l` inside the box at (cx, cy) and
/// removes each from the rest of the line.
fn reduce_line(sudoku: &mut Sudoku, dir: usize, cx: usize, cy: usize, l: usize) -> (r: bool)
    requires
        old(sudoku).wf(),
        dir < 2,
        is_corner(cx as int, cy as int),
        crosses(dir as int, cx as int, cy as int, l as int),
    ensures
        final(sudoku).step_from(*old(sudoku), r),
        !r ==> *final(sudoku) == *old(sudoku) && forall|d: int, m: int|
            !#[trigger] old(sudoku).reducible(dir as int, cx as int, cy as int, l as int, d, m),
        (forall|d: int, m: int|
            !#[trigger] old(sudoku).reducible(dir as int, cx as int, cy as int, l as int, d, m))
            ==> !r,
        forall|d: int, m: int|
            old(sudoku).confined(dir as int, cx as int, cy as int, l as int, d)
                ==> !#[trigger] final(sudoku).pending(dir as int, cx as int, cy as int, l as int, d, m),
        forall|i: int, j: int|
            on_grid(i, j) && !on_line_outside(dir as int, cx as int, cy as int, l as int, i, j)
                ==> #[trigger] final(sudoku).cell(i, j) == old(sudoku).cell(i, j),
        final(sudoku).projected_since(*old(sudoku)),
{
    let ghost g0 = *sudoku;
    let diff = line_difference(sudoku, dir, cx, cy, l);
    let mut progress = false;
    proof {
        Sudoku::lemma_step_refl(g0, *sudoku);
    }
    let mut d: usize = 1;
    while d <= 9
        invariant
            1 <= d <= 10,
            dir < 2,
            is_corner(cx as int, cy as int),
            crosses(dir as int, cx as int, cy as int, l as int),
            forall|e: int| 1 <= e <= 9 ==> #[trigger] diff@[e - 1] == g0.confined(
                dir as int,
                cx as int,
                cy as int,
                l as int,
                e,
            ),
            g0.wf(),
            sudoku.step_from(g0, progress),
            forall|i: int, j: int|
                on_grid(i, j) && !on_line_outside(dir as int, cx as int, cy as int, l as int, i, j)
                    ==> #[trigger] sudoku.cell(i, j) == g0.cell(i, j),
            sudoku.projected_since(g0),
            !progress ==> *sudoku == g0,
            !progress ==> forall|e: int, m: int|
                e < d ==> !#[trigger] g0.reducible(dir as int, cx as int, cy as int, l as int, e, m),
            (forall|e: int, m: int|
                !#[trigger] g0.reducible(dir as int, cx as int, cy as int, l as int, e, m))
                ==> !progress,
            forall|e: int, m: int|
                e < d && g0.confined(dir as int, cx as int, cy as int, l as int, e) ==> !#[trigger] sudoku.pending(
                    dir as int,
                    cx as int,
                    cy as int,
                    l as int,
                    e,
                    m,
                ),
        decreases 10 - d,
    {
        if diff[d - 1] {
            let ghost g1 = *sudoku;
            proof {
                assert forall|m: int| 0 <= m < 9 && outside_box(dir as int, cx as int, cy as int, m) implies g1.excludable(
                    #[trigger] line_pos(dir as int, l as int, m).0,
                    line_pos(dir as int, l as int, m).1,
                    d as int,
                ) by {
                    Sudoku::lemma_confined_excludable(g0, dir as int, cx as int, cy as int, l as int, d as int, m);
                    Sudoku::lemma_excludable_narrow(g0, g1, line_pos(dir as int, l as int, m).0, line_pos(dir as int, l as int, m).1, d as int);
                }
            }
            let p = project_line(sudoku, dir, cx, cy, l, d);
            proof {
                Sudoku::lemma_projected_since_trans(g0, g1, *sudoku, p);
                Sudoku::lemma_step_trans(g0, g1, *sudoku, progress, p);
                assert forall|e: int, m: int|
                    e < d + 1 && g0.confined(dir as int, cx as int, cy as int, l as int, e) implies !#[trigger] sudoku.pending(
                    dir as int,
                    cx as int,
                    cy as int,
                    l as int,
                    e,
                    m,
                ) by {
                    if e != d {
                        Sudoku::lemma_not_pending_kept(g1, *sudoku, dir as int, cx as int, cy as int, l as int, e, m);
                    }
                }
                if !progress && !p {
                    assert forall|e: int, m: int| e < d + 1 implies !#[trigger] g0.reducible(
                        dir as int,
                        cx as int,
                        cy as int,
                        l as int,
                        e,
                        m,
                    ) by {
                        if e == d {
                            assert(!g1.pending(dir as int, cx as int, cy as int, l as int, e, m));
                        }
                    }
                }
                if forall|e: int, m: int|
                    !#[trigger] g0.reducible(dir as int, cx as int, cy as int, l as int, e, m) {
                    assert forall|m: int| !#[trigger] g1.pending(dir as int, cx as int, cy as int, l as int, d as int, m) by {
                        assert(!g0.reducible(dir as int, cx as int, cy as int, l as int, d as int, m));
                    }
                }
            }
            progress = p || progress;
        } else {
            proof {
                assert forall|e: int, m: int|
                    e < d + 1 && g0.confined(dir as int, cx as int, cy as int, l as int, e) implies !#[trigger] sudoku.pending(
                    dir as int,
                    cx as int,
                    cy as int,
                    l as int,
                    e,
                    m,
                ) by {
                    if e == d {
                        assert(!diff@[e - 1]);
                    }
                }
                if !progress {
                    assert forall|e: int, m: int| e < d + 1 implies !#[trigger] g0.reducible(
                        dir as int,
                        cx as int,
                        cy as int,
                        l as int,
                        e,
                        m,
                    ) by {
                        if e == d {
                            assert(!diff@[e - 1]);
                        }
                    }
                }
            }
        }
        d += 1;
    }
    proof {
        if !progress {
            assert forall|e: int, m: int|
                !#[trigger] g0.reducible(dir as int, cx as int, cy as int, l as int, e, m) by {
                if e >= d {
                    assert(!g0.confined(dir as int, cx as int, cy as int, l as int, e));
                }
            }
        }
        assert forall|e: int, m: int|
            g0.confined(dir as int, cx as int, cy as int, l as int, e) implies !#[trigger] sudoku.pending(
            dir as int,
            cx as int,
            cy as int,
            l as int,
            e,
            m,
        ) by {
            assert(e < d);
        }
    }
    progress
}

/// For each digit, whether inside the box at (cx, cy) it is allowed on line
/// `l` and nowhere else.
fn line_difference(sudoku: &Sudoku, dir: usize, cx: usize, cy: usize, l: usize) -> (r: [bool; 9])
    requires
        sudoku.wf(),
        dir < 2,
        is_corner(cx as int, cy as int),
        crosses(dir as int, cx as int, cy as int, l as int),
    ensures
        forall|d: int| 1 <= d <= 9 ==> #[trigger] r@[d - 1] == sudoku.confined(
            dir as int,
            cx as int,
            cy as int,
            l as int,
            d,
        ),
{
    let ghost (da, xa, ya, la) = (dir as int, cx as int, cy as int, l as int);
    let mut seg = [false, false, false, false, false, false, false, false, false];
    let mut rest = [false, false, false, false, false, false, false, false, false];
    let mut k: usize = 0;
    while k < 9
        invariant
            k <= 9,
            dir < 2,
            is_corner(cx as int, cy as int),
            (da, xa, ya, la) == (dir as int, cx as int, cy as int, l as int),
            sudoku.wf(),
            forall|d: int| 1 <= d <= 9 ==> #[trigger] seg@[d - 1] == exists|k2: int|
                0 <= k2 < k && on_line(da, box_pos(xa, ya, k2).0, box_pos(xa, ya, k2).1, la)
                    && #[trigger] sudoku.box_allows(xa, ya, k2, d),
            forall|d: int| 1 <= d <= 9 ==> #[trigger] rest@[d - 1] == exists|k2: int|
                0 <= k2 < k && !on_line(da, box_pos(xa, ya, k2).0, box_pos(xa, ya, k2).1, la)
                    && #[trigger] sudoku.box_allows(xa, ya, k2, d),
        decreases 9 - k,
    {
        let i = cx + k / 3;
        let j = cy + k % 3;
        let on = if dir == 0 { j == l } else { i == l };
        assert(on == on_line(da, box_pos(xa, ya, k as int).0, box_pos(xa, ya, k as int).1, la));
        let mut d: usize = 1;
        while d <= 9
            invariant
                1 <= d <= 10,
                k < 9,
                i == cx + k / 3,
                j == cy + k % 3,
                (da, xa, ya, la) == (dir as int, cx as int, cy as int, l as int),
                is_corner(cx as int, cy as int),
                on == on_line(da, box_pos(xa, ya, k as int).0, box_pos(xa, ya, k as int).1, la),
                sudoku.wf(),
                forall|e: int| 1 <= e <= 9 ==> #[trigger] seg@[e - 1] == ((exists|k2: int|
                    0 <= k2 < k && on_line(da, box_pos(xa, ya, k2).0, box_pos(xa, ya, k2).1, la)
                        && #[trigger] sudoku.box_allows(xa, ya, k2, e)) || (e < d && on
                    && sudoku.box_allows(xa, ya, k as int, e))),
                forall|e: int| 1 <= e <= 9 ==> #[trigger] rest@[e - 1] == ((exists|k2: int|
                    0 <= k2 < k && !on_line(da, box_pos(xa, ya, k2).0, box_pos(xa, ya, k2).1, la)
                        && #[trigger] sudoku.box_allows(xa, ya, k2, e)) || (e < d && !on
                    && sudoku.box_allows(xa, ya, k as int, e))),
            decreases 10 - d,
        {
            assert((i as int, j as int) == box_pos(xa, ya, k as int));
            assert(sudoku.box_allows(xa, ya, k as int, d as int) == sudoku.cell(i as int, j as int).has(d as int));
            if sudoku.get(i, j).allows(d) {
                if on {
                    seg[d - 1] = true;
                } else {
                    rest[d - 1] = true;
                }
            }
            d += 1;
        }
        proof {
            assert forall|e: int| 1 <= e <= 9 implies #[trigger] seg@[e - 1] == exists|k2: int|
                0 <= k2 < k + 1 && on_line(da, box_pos(xa, ya, k2).0, box_pos(xa, ya, k2).1, la)
                    && #[trigger] sudoku.box_allows(xa, ya, k2, e) by {
                assert(e < d);
                if on && sudoku.box_allows(xa, ya, k as int, e) {
                    assert(0 <= k < k + 1);
                }
                if exists|k2: int|
                    0 <= k2 < k + 1 && on_line(da, box_pos(xa, ya, k2).0, box_pos(xa, ya, k2).1, la)
                        && #[trigger] sudoku.box_allows(xa, ya, k2, e) {
                    let k2 = choose|k2: int|
                        0 <= k2 < k + 1 && on_line(da, box_pos(xa, ya, k2).0, box_pos(xa, ya, k2).1, la)
                            && #[trigger] sudoku.box_allows(xa, ya, k2, e);
                    if k2 != k {
                        assert(0 <= k2 < k);
                    }
                }
            }
            assert forall|e: int| 1 <= e <= 9 implies #[trigger] rest@[e - 1] == exists|k2: int|
                0 <= k2 < k + 1 && !on_line(da, box_pos(xa, ya, k2).0, box_pos(xa, ya, k2).1, la)
                    && #[trigger] sudoku.box_allows(xa, ya, k2, e) by {
                assert(e < d);
                if !on && sudoku.box_allows(xa, ya, k as int, e) {
                    assert(0 <= k < k + 1);
                }
                if exists|k2: int|
                    0 <= k2 < k + 1 && !on_line(da, box_pos(xa, ya, k2).0, box_pos(xa, ya, k2).1, la)
                        && #[trigger] sudoku.box_allows(xa, ya, k2, e) {
                    let k2 = choose|k2: int|
                        0 <= k2 < k + 1 && !on_line(da, box_pos(xa, ya, k2).0, box_pos(xa, ya, k2).1, la)
                            && #[trigger] sudoku.box_allows(xa, ya, k2, e);
                    if k2 != k {
                        assert(0 <= k2 < k);
                    }
                }
            }
        }
        k += 1;
    }
    let mut r = [false, false, false, false, false, false, false, false, false];
    let mut d: usize = 0;
    while d < 9
        invariant
            d <= 9,
            forall|e: int| 1 <= e <= 9 ==> #[trigger] seg@[e - 1] == exists|k2: int|
                0 <= k2 < 9 && on_line(da, box_pos(xa, ya, k2).0, box_pos(xa, ya, k2).1, la)
                    && #[trigger] sudoku.box_allows(xa, ya, k2, e),
            forall|e: int| 1 <= e <= 9 ==> #[trigger] rest@[e - 1] == exists|k2: int|
                0 <= k2 < 9 && !on_line(da, box_pos(xa, ya, k2).0, box_pos(xa, ya, k2).1, la)
                    && #[trigger] sudoku.box_allows(xa, ya, k2, e),
            forall|e: int| 1 <= e <= d ==> #[trigger] r@[e - 1] == (seg@[e - 1] && !rest@[e - 1]),
        decreases 9 - d,
    {
        r[d] = seg[d] && !rest[d];
        d += 1;
    }
    proof {
        assert forall|e: int| 1 <= e <= 9 implies #[trigger] r@[e - 1] == sudoku.confined(da, xa, ya, la, e) by {
            if rest@[e - 1] {
                let k2 = choose|k2: int|
                    0 <= k2 < 9 && !on_line(da, box_pos(xa, ya, k2).0, box_pos(xa, ya, k2).1, la)
                        && #[trigger] sudoku.box_allows(xa, ya, k2, e);
                assert(!sudoku.confined(da, xa, ya, la, e));
            }
        }
    }
    r
}

/// Removes `d` from the cells of line `l` outside the box at (cx, cy).
fn project_line(sudoku: &mut Sudoku, dir: usize, cx: usize, cy: usize, l: usize, d: usize) -> (r: bool)
    requires
        old(sudoku).wf(),
        dir < 2,
        is_corner(cx as int, cy as int),
        crosses(dir as int, cx as int, cy as int, l as int),
        1 <= d <= 9,
        forall|m: int|
            0 <= m < 9 && outside_box(dir as int, cx as int, cy as int, m) ==> old(sudoku).excludable(
                #[trigger] line_pos(dir as int, l as int, m).0,
                line_pos(dir as int, l as int, m).1,
                d as int,
            ),
    ensures
        final(sudoku).step_from(*old(sudoku), r),
        !r ==> *final(sudoku) == *old(sudoku) && forall|m: int|
            !#[trigger] old(sudoku).pending(dir as int, cx as int, cy as int, l as int, d as int, m),
        (forall|m: int|
            !#[trigger] old(sudoku).pending(dir as int, cx as int, cy as int, l as int, d as int, m))
            ==> !r,
        forall|m: int| !#[trigger] final(sudoku).pending(dir as int, cx as int, cy as int, l as int, d as int, m),
        forall|i: int, j: int|
            on_grid(i, j) ==> if on_line_outside(dir as int, cx as int, cy as int, l as int, i, j) {
                (#[trigger] final(sudoku).cell(i, j)).removed_from(old(sudoku).cell(i, j), d as int)
            } else {
                final(sudoku).cell(i, j) == old(sudoku).cell(i, j)
            },
        final(sudoku).projected_since(*old(sudoku)),
{
    let ghost g0 = *sudoku;
    let mut progress = false;
    proof {
        Sudoku::lemma_step_refl(g0, *sudoku);
    }
    let mut m: usize = 0;
    while m < 9
        invariant
            m <= 9,
            dir < 2,
            is_corner(cx as int, cy as int),
            crosses(dir as int, cx as int, cy as int, l as int),
            1 <= d <= 9,
            forall|m2: int|
                0 <= m2 < 9 && outside_box(dir as int, cx as int, cy as int, m2) ==> g0.excludable(
                    #[trigger] line_pos(dir as int, l as int, m2).0,
                    line_pos(dir as int, l as int, m2).1,
                    d as int,
                ),
            sudoku.step_from(g0, progress),
            !progress ==> *sudoku == g0,
            !progress ==> forall|m2: int|
                m2 < m ==> !#[trigger] g0.pending(dir as int, cx as int, cy as int, l as int, d as int, m2),
            (forall|m2: int|
                !#[trigger] g0.pending(dir as int, cx as int, cy as int, l as int, d as int, m2))
                ==> !progress,
            g0.wf(),
            forall|m2: int|
                m2 < m ==> !#[trigger] sudoku.pending(dir as int, cx as int, cy as int, l as int, d as int, m2),
            forall|i: int, j: int|
                on_grid(i, j) ==> if on_line_outside(dir as int, cx as int, cy as int, l as int, i, j)
                    && along(dir as int, i, j) < m {
                    (#[trigger] sudoku.cell(i, j)).removed_from(g0.cell(i, j), d as int)
                } else {
                    sudoku.cell(i, j) == g0.cell(i, j)
                },
        decreases 9 - m,
    {
        let outside = if dir == 0 { m < cx || m >= cx + 3 } else { m < cy || m >= cy + 3 };
        if outside {
            let (x, y) = if dir == 0 { (m, l) } else { (l, m) };
            let ghost g1 = *sudoku;
            proof {
                assert((x as int, y as int) == line_pos(dir as int, l as int, m as int));
                Sudoku::lemma_excludable_narrow(g0, g1, x as int, y as int, d as int);
            }
            let p = sudoku.exclude(x, y, d);
            proof {
                Sudoku::lemma_step_trans(g0, g1, *sudoku, progress, p);
                assert forall|m2: int| m2 < m + 1 implies !#[trigger] sudoku.pending(
                    dir as int,
                    cx as int,
                    cy as int,
                    l as int,
                    d as int,
                    m2,
                ) by {
                    if m2 == m {
                        let f1 = g1.cell(x as int, y as int);
                        let f2 = sudoku.cell(x as int, y as int);
                        if f2.has(d as int) {
                            assert(f1.is_single());
                            assert(f2.same_cands(f1));
                            Field::lemma_same_cands(f2, f1);
                        }
                    } else {
                        Sudoku::lemma_not_pending_kept(g1, *sudoku, dir as int, cx as int, cy as int, l as int, d as int, m2);
                    }
                }
                if !progress {
                    assert(p == g0.pending(dir as int, cx as int, cy as int, l as int, d as int, m as int));
                }
                assert forall|i: int, j: int| on_grid(i, j) implies if on_line_outside(
                    dir as int,
                    cx as int,
                    cy as int,
                    l as int,
                    i,
                    j,
                ) && along(dir as int, i, j) < m + 1 {
                    (#[trigger] sudoku.cell(i, j)).removed_from(g0.cell(i, j), d as int)
                } else {
                    sudoku.cell(i, j) == g0.cell(i, j)
                } by {
                    if i == x && j == y {
                        assert(g1.cell(i, j) == g0.cell(i, j));
                    } else {
                        assert(sudoku.cell(i, j) == g1.cell(i, j));
                    }
                }
            }
            progress = p || progress;
        }
        m += 1;
    }
    proof {
        assert forall|i: int, j: int|
            on_grid(i, j) && (#[trigger] sudoku.cell(i, j)).is_projected() implies g0.cell(i, j).is_projected() by {
            if on_line_outside(dir as int, cx as int, cy as int, l as int, i, j) {
                assert(sudoku.cell(i, j).removed_from(g0.cell(i, j), d as int));
            }
        }
        Sudoku::lemma_projected_since_none(g0, *sudoku);
    }
    progress
}

} // verus!
