//! Hidden singles: a digit that an open cell allows and that no other cell of
//! one of its units allows must go in that cell.
use vstd::prelude::*;
use crate::field::Field;
use crate::solution::{at, unit_pos, lemma_unit_covers, lemma_unit_pos};
use crate::sudoku::{Sudoku, on_grid, peers};

verus! {

/// `d` is the only candidate of the cell that `other` does not flag.
pub open spec fn only_survivor(f: Field, other: Seq<bool>, d: int) -> bool {
    &&& f.has(d)
    &&& !other[d - 1]
    &&& forall|e: int| #[trigger] f.has(e) && e != d ==> other[e - 1]
}

impl Sudoku {
    /// The `k`-th cell of the unit of (x, y) is another cell that allows `d`.
    pub open spec fn unit_allows(&self, kind: int, x: int, y: int, k: int, d: int) -> bool {
        unit_pos(kind, x, y, k) != (x, y) && self.cell(
            unit_pos(kind, x, y, k).0,
            unit_pos(kind, x, y, k).1,
        ).has(d)
    }

    /// Another cell of the unit of (x, y) allows `d`.
    pub open spec fn unit_has(&self, kind: int, x: int, y: int, d: int) -> bool {
        exists|k: int| 0 <= k < 9 && #[trigger] self.unit_allows(kind, x, y, k, d)
    }

    /// `other` flags, for each digit, whether another cell of the unit allows it.
    pub open spec fn is_unit_union(&self, kind: int, x: int, y: int, other: Seq<bool>) -> bool {
        &&& other.len() == 9
        &&& forall|d: int| 1 <= d <= 9 ==> other[d - 1] == #[trigger] self.unit_has(kind, x, y, d)
    }

    /// The open cell at (x, y) allows `d`, which no other cell of the unit
    /// allows, and every other candidate of the cell is allowed elsewhere in
    /// the unit.
    pub open spec fn hidden_single(&self, kind: int, x: int, y: int, d: int) -> bool {
        &&& !self.cell(x, y).is_single()
        &&& self.cell(x, y).has(d)
        &&& !self.unit_has(kind, x, y, d)
        &&& forall|e: int| #[trigger] self.cell(x, y).has(e) && e != d ==> self.unit_has(kind, x, y, e)
    }

    /// No open cell has a hidden single in any of its units.
    pub open spec fn no_hidden_single(&self) -> bool {
        forall|kind: int, x: int, y: int, d: int|
            0 <= kind < 3 && on_grid(x, y) ==> !#[trigger] self.hidden_single(kind, x, y, d)
    }

    /// With `other` the union of a unit, a single survivor is a hidden single.
    pub proof fn lemma_hidden_single_survivor(
        g: Sudoku,
        kind: int,
        x: int,
        y: int,
        d: int,
        other: Seq<bool>,
    )
        requires
            g.wf(),
            0 <= kind < 3,
            on_grid(x, y),
            g.is_unit_union(kind, x, y, other),
        ensures
            !g.cell(x, y).is_single() ==> (g.hidden_single(kind, x, y, d)
                <==> only_survivor(g.cell(x, y), other, d)),
    {
    }

    /// Under narrowing that keeps a solution, a hidden single of the earlier
    /// grid is still one, unless its cell has been determined meanwhile.
    pub proof fn lemma_hidden_single_narrowed(g0: Sudoku, g1: Sudoku, s: Seq<int>, kind: int, x: int, y: int, d: int)
        requires
            g0.wf(),
            g1.wf(),
            g1.narrows(g0),
            g1.admits(s),
            0 <= kind < 3,
            on_grid(x, y),
            g0.hidden_single(kind, x, y, d),
        ensures
            g1.cell(x, y).is_single() || g1.hidden_single(kind, x, y, d),
    {
        assert(g0.admits(s)) by {
            assert forall|i: int, j: int| on_grid(i, j) implies (#[trigger] g0.cell(i, j)).has(at(s, i, j)) by {
                assert(g1.cell(i, j).has(at(s, i, j)));
            }
        }
        assert(g0.cell(x, y).has(d));
        Sudoku::lemma_survivor_forced(g0, kind, x, y, d);
        assert(at(s, x, y) == d);
        assert(g1.cell(x, y).has(d));
        if g1.unit_has(kind, x, y, d) {
            let k = choose|k: int| 0 <= k < 9 && #[trigger] g1.unit_allows(kind, x, y, k, d);
            lemma_unit_pos(kind, x, y, k);
            assert(g0.unit_allows(kind, x, y, k, d));
        }
        assert forall|e: int| #[trigger] g1.cell(x, y).has(e) && e != d implies g1.unit_has(kind, x, y, e) by {
            if !g1.unit_has(kind, x, y, e) {
                Sudoku::lemma_survivor_forced(g1, kind, x, y, e);
            }
        }
    }

    /// A candidate that no other cell of a unit allows is the digit of every
    /// admitted solution at that cell.
    pub proof fn lemma_survivor_forced(g: Sudoku, kind: int, x: int, y: int, d: int)
        requires
            g.wf(),
            0 <= kind < 3,
            on_grid(x, y),
            1 <= d <= 9,
            !g.unit_has(kind, x, y, d),
        ensures
            forall|s: Seq<int>| #[trigger] g.admits(s) ==> at(s, x, y) == d,
    {
        assert forall|s: Seq<int>| #[trigger] g.admits(s) implies at(s, x, y) == d by {
            lemma_unit_covers(s, kind, x, y, d);
            let k = choose|k: int|
                0 <= k < 9 && at(s, unit_pos(kind, x, y, k).0, unit_pos(kind, x, y, k).1) == d;
            lemma_unit_pos(kind, x, y, k);
            let (i, j) = unit_pos(kind, x, y, k);
            assert(g.cell(i, j).has(at(s, i, j)));
            if (i, j) != (x, y) {
                assert(g.unit_allows(kind, x, y, k, d));
            }
        }
    }

    /// Assigns every hidden single, cell by cell, projecting each one at once.
    /// Returns whether any candidate was removed; when none was, the grid is
    /// unchanged and had no hidden single.
    pub fn detect_uniques(&mut self) -> (r: bool)
        requires
            old(self).wf(),
        ensures
            final(self).step_from(*old(self), r),
            !r ==> *final(self) == *old(self) && old(self).no_hidden_single(),
            old(self).no_hidden_single() ==> !r,
            final(self).projected_since(*old(self)),
            (exists|s: Seq<int>| old(self).admits(s)) ==> forall|kind: int, x: int, y: int, d: int|
                0 <= kind < 3 && on_grid(x, y) && #[trigger] old(self).hidden_single(kind, x, y, d)
                    ==> final(self).cell(x, y).is_single(),
    {
        let ghost g0 = *self;
        let mut progress = false;
        proof {
            Sudoku::lemma_step_refl(g0, *self);
        }
        let mut x: usize = 0;
        while x < 9
            invariant
                x <= 9,
                self.step_from(g0, progress),
                !progress ==> *self == g0,
                !progress ==> forall|kind: int, i: int, j: int, d: int|
                    0 <= kind < 3 && 0 <= i < x && 0 <= j < 9 ==> !#[trigger] g0.hidden_single(
                        kind,
                        i,
                        j,
                        d,
                    ),
                g0.wf(),
                g0.no_hidden_single() ==> !progress,
                self.projected_since(g0),
                (exists|s: Seq<int>| g0.admits(s)) ==> forall|kind: int, i: int, j: int, d: int|
                    0 <= kind < 3 && 0 <= i < x && 0 <= j < 9 && #[trigger] g0.hidden_single(kind, i, j, d)
                        ==> self.cell(i, j).is_single(),
            decreases 9 - x,
        {
            let mut y: usize = 0;
            while y < 9
                invariant
                    x < 9,
                    y <= 9,
                    self.step_from(g0, progress),
                    !progress ==> *self == g0,
                    !progress ==> forall|kind: int, i: int, j: int, d: int|
                        0 <= kind < 3 && ((0 <= i < x && 0 <= j < 9) || (i == x && 0 <= j < y))
                            ==> !#[trigger] g0.hidden_single(kind, i, j, d),
                    g0.wf(),
                    g0.no_hidden_single() ==> !progress,
                    self.projected_since(g0),
                    (exists|s: Seq<int>| g0.admits(s)) ==> forall|kind: int, i: int, j: int, d: int|
                        0 <= kind < 3 && ((0 <= i < x && 0 <= j < 9) || (i == x && 0 <= j < y))
                            && #[trigger] g0.hidden_single(kind, i, j, d) ==> self.cell(i, j).is_single(),
                decreases 9 - y,
            {
                if !self.get(x, y).number_found() {
                    let ghost g1 = *self;
                    let p = self.assign_unique(x, y);
                    proof {
                        Sudoku::lemma_projected_since_trans(g0, g1, *self, p);
                        let xa = x as int;
                        let ya = y as int;
                        Sudoku::lemma_step_trans(g0, g1, *self, progress, p);
                        if !progress && !p {
                            assert forall|kind: int, i: int, j: int, d: int|
                                0 <= kind < 3 && ((0 <= i < x && 0 <= j < 9) || (i == x && 0 <= j < y + 1))
                                    implies !#[trigger] g0.hidden_single(kind, i, j, d) by {
                                if i == xa && j == ya {
                                    assert(!g1.hidden_single(kind, xa, ya, d));
                                }
                            }
                        }
                        if g0.no_hidden_single() && !progress {
                            assert forall|kind: int, d: int| 0 <= kind < 3 implies !#[trigger] g1.hidden_single(
                                kind,
                                xa,
                                ya,
                                d,
                            ) by {
                                assert(!g0.hidden_single(kind, xa, ya, d));
                            }
                        }
                        if exists|s: Seq<int>| g0.admits(s) {
                            let s = choose|s: Seq<int>| g0.admits(s);
                            assert(g1.admits(s));
                            assert forall|kind: int, i: int, j: int, d: int|
                                0 <= kind < 3 && ((0 <= i < x && 0 <= j < 9) || (i == x && 0 <= j < y + 1))
                                    && #[trigger] g0.hidden_single(kind, i, j, d) implies self.cell(i, j).is_single() by {
                                if i == xa && j == ya {
                                    if !progress {
                                        assert(g1.hidden_single(kind, xa, ya, d));
                                    } else {
                                        Sudoku::lemma_hidden_single_narrowed(g0, g1, s, kind, xa, ya, d);
                                    }
                                } else {
                                    assert(g1.cell(i, j).is_single());
                                    Field::lemma_narrow_single(g1.cell(i, j), self.cell(i, j));
                                }
                            }
                        }
                    }
                    progress = p || progress;
                }
                y += 1;
            }
            x += 1;
        }
        progress
    }

    /// Checks the open cell at (x, y) against its column, its row and its
    /// box, in that order, and assigns and projects the first candidate found
    /// to be the only one its cell allows within one of them.
    fn assign_unique(&mut self, x: usize, y: usize) -> (r: bool)
        requires
            old(self).wf(),
            x < 9,
            y < 9,
            !old(self).cell(x as int, y as int).is_single(),
        ensures
            final(self).step_from(*old(self), r),
            !r ==> *final(self) == *old(self),
            !r <==> forall|kind: int, d: int|
                0 <= kind < 3 ==> !#[trigger] old(self).hidden_single(kind, x as int, y as int, d),
            r ==> final(self).cell(x as int, y as int).is_single(),
            final(self).projected_since(*old(self)),
    {
        let ghost g1 = *self;
        let ghost (xa, ya) = (x as int, y as int);
        let other_numbers_v = self.other_numbers_v(x, y);
        let other_numbers_h = self.other_numbers_h(x, y);
        let other_numbers_square = self.other_numbers_square(x, y);
        proof {
            assert(self.is_unit_union(0, xa, ya, other_numbers_v@));
        }
        let a = self.check_and_assign(x, y, &other_numbers_v);
        proof {
            assert(self.projected_since(g1));
        }
        let b = if !a {
            proof {
                assert(self.is_unit_union(1, xa, ya, other_numbers_h@));
            }
            let b1 = self.check_and_assign(x, y, &other_numbers_h);
            proof {
                assert(self.projected_since(g1));
            }
            b1
        } else {
            false
        };
        let c = if !a && !b {
            proof {
                assert(self.is_unit_union(2, xa, ya, other_numbers_square@));
            }
            let c1 = self.check_and_assign(x, y, &other_numbers_square);
            proof {
                assert(self.projected_since(g1));
            }
            c1
        } else {
            false
        };
        proof {
            if !a && !b && !c {
                Sudoku::lemma_step_refl(g1, *self);
            }
            assert forall|kind: int, d: int| 0 <= kind < 3 && #[trigger] g1.hidden_single(kind, xa, ya, d) implies a || b || c by {
                if kind == 0 {
                    Sudoku::lemma_hidden_single_survivor(g1, kind, xa, ya, d, other_numbers_v@);
                } else if kind == 1 {
                    Sudoku::lemma_hidden_single_survivor(g1, kind, xa, ya, d, other_numbers_h@);
                } else {
                    Sudoku::lemma_hidden_single_survivor(g1, kind, xa, ya, d, other_numbers_square@);
                }
            }
            if a {
                let d = choose|d: int| only_survivor(g1.cell(xa, ya), other_numbers_v@, d);
                Sudoku::lemma_hidden_single_survivor(g1, 0, xa, ya, d, other_numbers_v@);
                assert(g1.hidden_single(0, xa, ya, d));
            }
            if b {
                let d = choose|d: int| only_survivor(g1.cell(xa, ya), other_numbers_h@, d);
                Sudoku::lemma_hidden_single_survivor(g1, 1, xa, ya, d, other_numbers_h@);
                assert(g1.hidden_single(1, xa, ya, d));
            }
            if c {
                let d = choose|d: int| only_survivor(g1.cell(xa, ya), other_numbers_square@, d);
                Sudoku::lemma_hidden_single_survivor(g1, 2, xa, ya, d, other_numbers_square@);
                assert(g1.hidden_single(2, xa, ya, d));
            }
        }
        a || b || c
    }

    /// If exactly one candidate of the open cell at (x, y) is missing from
    /// `other_numbers`, assigns it to the cell and projects it.
    pub fn check_and_assign(&mut self, x: usize, y: usize, other_numbers: &[bool; 9]) -> (r: bool)
        requires
            old(self).wf(),
            x < 9,
            y < 9,
            !old(self).cell(x as int, y as int).is_single(),
        ensures
            r == exists|d: int| only_survivor(old(self).cell(x as int, y as int), other_numbers@, d),
            !r ==> *final(self) == *old(self),
            r ==> final(self).cell(x as int, y as int).is_single() && only_survivor(
                old(self).cell(x as int, y as int),
                other_numbers@,
                final(self).cell(x as int, y as int).value(),
            ),
            final(self).narrowed_from(*old(self), r),
            (exists|kind: int|
                0 <= kind < 3 && old(self).is_unit_union(kind, x as int, y as int, other_numbers@))
                ==> final(self).step_from(*old(self), r),
            r ==> final(self).cell(x as int, y as int).is_projected(),
            final(self).projected_since(*old(self)),
            r ==> forall|i: int, j: int|
                on_grid(i, j) && !(i == x && j == y) ==> if peers(x as int, y as int, i, j) {
                    (#[trigger] final(self).cell(i, j)).removed_from(
                        old(self).cell(i, j),
                        final(self).cell(x as int, y as int).value(),
                    )
                } else {
                    final(self).cell(i, j) == old(self).cell(i, j)
                },
    {
        let ghost g0 = *self;
        let ghost f0 = g0.cell(x as int, y as int);
        let mut found: usize = 0;
        let mut d: usize = 1;
        while d <= 9
            invariant
                1 <= d <= 10,
                *self == g0,
                f0 == g0.cell(x as int, y as int),
                x < 9,
                y < 9,
                g0.wf(),
                found <= 9,
                found == 0 ==> forall|e: int| 1 <= e < d ==> !(#[trigger] f0.has(e) && !other_numbers@[e - 1]),
                found != 0 ==> found < d && f0.has(found as int) && !other_numbers@[found - 1] && forall|e: int|
                    1 <= e < d && #[trigger] f0.has(e) && e != found ==> other_numbers@[e - 1],
            decreases 10 - d,
        {
            if self.get(x, y).allows(d) && !other_numbers[d - 1] {
                if found != 0 {
                    proof {
                        assert forall|e: int| !only_survivor(f0, other_numbers@, e) by {
                            if only_survivor(f0, other_numbers@, e) {
                                assert(f0.has(d as int));
                                assert(f0.has(found as int));
                            }
                        }
                        Sudoku::lemma_step_refl(g0, *self);
                    }
                    return false;
                }
                found = d;
            }
            d += 1;
        }
        if found == 0 {
            proof {
                assert forall|e: int| !only_survivor(f0, other_numbers@, e) by {
                    if only_survivor(f0, other_numbers@, e) {
                        assert(f0.has(e));
                    }
                }
                Sudoku::lemma_step_refl(g0, *self);
            }
            return false;
        }
        proof {
            assert(only_survivor(f0, other_numbers@, found as int));
            if exists|kind: int|
                0 <= kind < 3 && g0.is_unit_union(kind, x as int, y as int, other_numbers@) {
                let kind = choose|kind: int|
                    0 <= kind < 3 && g0.is_unit_union(kind, x as int, y as int, other_numbers@);
                Sudoku::lemma_survivor_forced(g0, kind, x as int, y as int, found as int);
            }
        }
        self.get_mut(x, y).set_number(found);
        let ghost g1 = *self;
        proof {
            assert forall|i: int, j: int| on_grid(i, j) && !(i == x && j == y) implies #[trigger] g1.cell(
                i,
                j,
            ) == g0.cell(i, j) by {
                assert(crate::sudoku::idx(i, j) != crate::sudoku::idx(x as int, y as int));
            }
            assert(g1.cell(x as int, y as int).has(found as int));
            assert(g1.wf());
            if exists|kind: int|
                0 <= kind < 3 && g0.is_unit_union(kind, x as int, y as int, other_numbers@) {
                assert forall|s: Seq<int>| g0.admits(s) implies #[trigger] g1.admits(s) by {
                    assert(at(s, x as int, y as int) == found);
                }
            }
            assert(f0.has(f0.value()));
            assert(f0.value() != found ==> !g1.cell(x as int, y as int).has(f0.value()));
            let e = choose|e: int| f0.has(e) && e != f0.value();
            if e == found {
                assert(!g1.cell(x as int, y as int).has(f0.value()));
            } else {
                assert(!g1.cell(x as int, y as int).has(e));
            }
            assert(g1.shrunk_from(g0));
        }
        let p = self.project_number(x, y);
        proof {
            Sudoku::lemma_narrowed_trans(g0, g1, *self, true, p);
            assert forall|i: int, j: int|
                on_grid(i, j) && (#[trigger] g1.cell(i, j)).is_projected() implies g0.cell(i, j).is_projected() by {}
            Sudoku::lemma_projected_since_none(g0, g1);
            Sudoku::lemma_projected_since_trans(g0, g1, *self, p);
            if exists|kind: int|
                0 <= kind < 3 && g0.is_unit_union(kind, x as int, y as int, other_numbers@) {
                Sudoku::lemma_step_trans(g0, g1, *self, true, p);
            }
            Field::lemma_narrow_single(g1.cell(x as int, y as int), self.cell(x as int, y as int));
        }
        true
    }

    /// For each digit, whether another cell of the column of (x, y) allows it.
    pub fn other_numbers_v(&self, x: usize, y: usize) -> (r: [bool; 9])
        requires
            self.wf(),
            x < 9,
            y < 9,
        ensures
            self.is_unit_union(0, x as int, y as int, r@),
    {
        self.unit_union(0, x, y)
    }

    /// For each digit, whether another cell of the row of (x, y) allows it.
    pub fn other_numbers_h(&self, x: usize, y: usize) -> (r: [bool; 9])
        requires
            self.wf(),
            x < 9,
            y < 9,
        ensures
            self.is_unit_union(1, x as int, y as int, r@),
    {
        self.unit_union(1, x, y)
    }

    /// For each digit, whether another cell of the box of (x, y) allows it.
    pub fn other_numbers_square(&self, x: usize, y: usize) -> (r: [bool; 9])
        requires
            self.wf(),
            x < 9,
            y < 9,
        ensures
            self.is_unit_union(2, x as int, y as int, r@),
    {
        self.unit_union(2, x, y)
    }

    /// For each digit, whether another cell of the given unit of (x, y) allows it.
    fn unit_union(&self, kind: usize, x: usize, y: usize) -> (r: [bool; 9])
        requires
            self.wf(),
            kind < 3,
            x < 9,
            y < 9,
        ensures
            self.is_unit_union(kind as int, x as int, y as int, r@),
    {
        let mut acc = [false, false, false, false, false, false, false, false, false];
        let (cx, cy) = Sudoku::get_corner(x, y);
        let mut k: usize = 0;
        while k < 9
            invariant
                k <= 9,
                kind < 3,
                x < 9,
                y < 9,
                cx == 3 * (x / 3),
                cy == 3 * (y / 3),
                self.wf(),
                forall|d: int|
                    1 <= d <= 9 ==> #[trigger] acc@[d - 1] == exists|k2: int|
                        0 <= k2 < k && #[trigger] self.unit_allows(kind as int, x as int, y as int, k2, d),
            decreases 9 - k,
        {
            let (i, j) = if kind == 0 {
                (x, k)
            } else if kind == 1 {
                (k, y)
            } else {
                (cx + k / 3, cy + k % 3)
            };
            assert((i as int, j as int) == unit_pos(kind as int, x as int, y as int, k as int));
            if i != x || j != y {
                let mut d: usize = 1;
                while d <= 9
                    invariant
                        1 <= d <= 10,
                        k < 9,
                        kind < 3,
                        x < 9,
                        y < 9,
                        i < 9,
                        j < 9,
                        (i as int, j as int) == unit_pos(kind as int, x as int, y as int, k as int),
                        !(i == x && j == y),
                        self.wf(),
                        forall|e: int|
                            1 <= e <= 9 ==> #[trigger] acc@[e - 1] == ((exists|k2: int|
                                0 <= k2 < k && #[trigger] self.unit_allows(kind as int, x as int, y as int, k2, e))
                                || (e < d && self.unit_allows(kind as int, x as int, y as int, k as int, e))),
                    decreases 10 - d,
                {
                    if self.get(i, j).allows(d) {
                        acc[d - 1] = true;
                    }
                    d += 1;
                }
                proof {
                    assert forall|e: int| 1 <= e <= 9 implies #[trigger] acc@[e - 1] == ((exists|k2: int|
                        0 <= k2 < k && #[trigger] self.unit_allows(kind as int, x as int, y as int, k2, e))
                        || self.unit_allows(kind as int, x as int, y as int, k as int, e)) by {
                        assert(e < d);
                    }
                }
            }
            proof {
                let ka = kind as int;
                let xa = x as int;
                let ya = y as int;
                assert forall|e: int| 1 <= e <= 9 implies #[trigger] acc@[e - 1] == ((exists|k2: int|
                    0 <= k2 < k && #[trigger] self.unit_allows(ka, xa, ya, k2, e)) || self.unit_allows(
                    ka,
                    xa,
                    ya,
                    k as int,
                    e,
                )) by {
                    if i == x && j == y {
                        assert(unit_pos(ka, xa, ya, k as int) == (xa, ya));
                        assert(!self.unit_allows(ka, xa, ya, k as int, e));
                    }
                }
                assert forall|e: int| 1 <= e <= 9 implies #[trigger] acc@[e - 1] == exists|k2: int|
                    0 <= k2 < k + 1 && #[trigger] self.unit_allows(ka, xa, ya, k2, e) by {
                    if self.unit_allows(ka, xa, ya, k as int, e) {
                        assert(0 <= k < k + 1);
                    }
                    if exists|k2: int| 0 <= k2 < k + 1 && #[trigger] self.unit_allows(ka, xa, ya, k2, e) {
                        let k2 = choose|k2: int|
                            0 <= k2 < k + 1 && #[trigger] self.unit_allows(ka, xa, ya, k2, e);
                        if k2 != k {
                            assert(0 <= k2 < k);
                        }
                    }
                }
            }
            k += 1;
        }
        acc
    }
}

} // verus!
