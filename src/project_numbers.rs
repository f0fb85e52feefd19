//! Elimination: the digit of a determined cell is removed from every other
//! cell of its row, its column and its box.
use vstd::prelude::*;
use crate::field::Field;
use crate::sudoku::{Sudoku, on_grid, peers, same_box};

verus! {

impl Sudoku {
    /// Projects every determined cell that has not been projected yet.
    /// Returns whether any candidate was removed; when none was, every
    /// determined cell is projected.
    pub fn project_numbers(&mut self) -> (r: bool)
        requires
            old(self).wf(),
        ensures
            final(self).step_from(*old(self), r),
            !r ==> final(self).all_projected(),
            old(self).all_projected() ==> !r && *final(self) == *old(self),
            final(self).projected_since(*old(self)),
            forall|x: int, y: int|
                on_grid(x, y) && (#[trigger] old(self).cell(x, y)).is_single() ==> final(self).cell(
                    x,
                    y,
                ).is_projected(),
            forall|x: int, y: int, i: int, j: int|
                on_grid(x, y) && on_grid(i, j) && peers(x, y, i, j) && (#[trigger] old(self).cell(
                    x,
                    y,
                )).is_single() && !old(self).cell(x, y).is_projected() && (#[trigger] final(self).cell(
                    i,
                    j,
                )).has(old(self).cell(x, y).value()) ==> final(self).cell(i, j).is_single(),
    {
        let ghost g0 = *self;
        let mut progress = false;
        let mut x: usize = 0;
        proof {
            Sudoku::lemma_step_refl(g0, *self);
        }
        while x < 9
            invariant
                x <= 9,
                self.step_from(g0, progress),
                !progress ==> forall|i: int, j: int|
                    0 <= i < x && 0 <= j < 9 && (#[trigger] self.cell(i, j)).is_single()
                        ==> self.cell(i, j).is_projected(),
                g0.all_projected() ==> !progress && *self == g0,
                self.projected_since(g0),
                forall|a: int, b: int|
                    0 <= a < x && 0 <= b < 9 && (#[trigger] g0.cell(a, b)).is_single() ==> self.cell(
                        a,
                        b,
                    ).is_projected(),
                forall|a: int, b: int|
                    on_grid(a, b) && !(0 <= a < x) ==> (#[trigger] self.cell(a, b)).is_projected()
                        == g0.cell(a, b).is_projected(),
                forall|a: int, b: int, i: int, j: int|
                    0 <= a < x && 0 <= b < 9 && on_grid(i, j) && peers(a, b, i, j) && (
                    #[trigger] g0.cell(a, b)).is_single() && !g0.cell(a, b).is_projected() && (
                    #[trigger] self.cell(i, j)).has(g0.cell(a, b).value()) ==> self.cell(i, j).is_single(),
            decreases 9 - x,
        {
            let mut y: usize = 0;
            while y < 9
                invariant
                    x < 9,
                    y <= 9,
                    self.step_from(g0, progress),
                    !progress ==> forall|i: int, j: int|
                        ((0 <= i < x && 0 <= j < 9) || (i == x && 0 <= j < y)) && (
                        #[trigger] self.cell(i, j)).is_single() ==> self.cell(i, j).is_projected(),
                    g0.all_projected() ==> !progress && *self == g0,
                    self.projected_since(g0),
                self.projected_since(g0),
                    forall|a: int, b: int|
                        ((0 <= a < x && 0 <= b < 9) || (a == x && 0 <= b < y)) && (#[trigger] g0.cell(
                            a,
                            b,
                        )).is_single() ==> self.cell(a, b).is_projected(),
                    forall|a: int, b: int|
                        on_grid(a, b) && !((0 <= a < x) || (a == x && b < y)) ==> (#[trigger] self.cell(
                            a,
                            b,
                        )).is_projected() == g0.cell(a, b).is_projected(),
                    forall|a: int, b: int, i: int, j: int|
                        ((0 <= a < x && 0 <= b < 9) || (a == x && 0 <= b < y)) && on_grid(i, j) && peers(
                            a,
                            b,
                            i,
                            j,
                        ) && (#[trigger] g0.cell(a, b)).is_single() && !g0.cell(a, b).is_projected() && (
                        #[trigger] self.cell(i, j)).has(g0.cell(a, b).value()) ==> self.cell(i, j).is_single(),
                decreases 9 - y,
            {
                let ghost g1 = *self;
                proof {
                    if g0.cell(x as int, y as int).is_single() {
                        Field::lemma_narrow_single(g0.cell(x as int, y as int), g1.cell(x as int, y as int));
                    }
                }
                if !self.get(x, y).projected() && self.get(x, y).number_found() {
                    let p = self.project_number(x, y);
                    proof {
                        Sudoku::lemma_projected_since_trans(g0, g1, *self, p);
                        let xa = x as int;
                        let ya = y as int;
                        let v = g1.cell(xa, ya).value();
                        assert forall|a: int, b: int|
                            on_grid(a, b) && !((0 <= a < x) || (a == x && b < y + 1)) implies (#[trigger] self.cell(
                            a,
                            b,
                        )).is_projected() == g0.cell(a, b).is_projected() by {
                            assert(!(a == xa && b == ya));
                            if peers(xa, ya, a, b) {
                                assert(self.cell(a, b).removed_from(g1.cell(a, b), v));
                            }
                        }
                        assert forall|a: int, b: int, i: int, j: int|
                            ((0 <= a < x && 0 <= b < 9) || (a == x && 0 <= b < y + 1)) && on_grid(i, j) && peers(
                                a,
                                b,
                                i,
                                j,
                            ) && (#[trigger] g0.cell(a, b)).is_single() && !g0.cell(a, b).is_projected() && (
                            #[trigger] self.cell(i, j)).has(g0.cell(a, b).value()) implies self.cell(i, j).is_single() by {
                            if a == xa && b == ya {
                                assert(self.cell(i, j).removed_from(g1.cell(i, j), v));
                                assert(g1.cell(i, j).is_single());
                                assert(self.cell(i, j).same_cands(g1.cell(i, j)));
                                Field::lemma_same_cands(self.cell(i, j), g1.cell(i, j));
                            } else {
                                assert(g1.cell(i, j).has(g0.cell(a, b).value()));
                                assert(g1.cell(i, j).is_single());
                                Field::lemma_narrow_single(g1.cell(i, j), self.cell(i, j));
                            }
                        }
                        Sudoku::lemma_step_trans(g0, g1, *self, progress, p);
                        if !progress && !p {
                            assert forall|i: int, j: int|
                                ((0 <= i < x && 0 <= j < 9) || (i == x && 0 <= j <= y)) && (
                                #[trigger] self.cell(i, j)).is_single() implies self.cell(
                                i,
                                j,
                            ).is_projected() by {
                                Sudoku::lemma_no_shrink(g1, *self, i, j);
                            }
                        }
                    }
                    progress = p || progress;
                } else {
                    proof {
                        assert forall|a: int, b: int|
                            on_grid(a, b) && !((0 <= a < x) || (a == x && b < y + 1)) implies (#[trigger] self.cell(
                            a,
                            b,
                        )).is_projected() == g0.cell(a, b).is_projected() by {}
                    }
                }
                y += 1;
            }
            x += 1;
        }
        progress
    }

    /// Marks the determined cell at (x, y) as projected and removes its digit
    /// from the other cells of its row, column and box. Returns whether any
    /// candidate was removed.
    pub fn project_number(&mut self, x: usize, y: usize) -> (r: bool)
        requires
            old(self).wf(),
            x < 9,
            y < 9,
            old(self).cell(x as int, y as int).is_single(),
        ensures
            final(self).step_from(*old(self), r),
            final(self).cell(x as int, y as int).is_projected(),
            final(self).cell(x as int, y as int).same_cands(old(self).cell(x as int, y as int)),
            final(self).projected_since(*old(self)),
            forall|i: int, j: int|
                on_grid(i, j) ==> if peers(x as int, y as int, i, j) {
                    (#[trigger] final(self).cell(i, j)).removed_from(
                        old(self).cell(i, j),
                        old(self).cell(x as int, y as int).value(),
                    )
                } else if i == x && j == y {
                    true
                } else {
                    final(self).cell(i, j) == old(self).cell(i, j)
                },
    {
        let ghost g0 = *self;
        self.get_mut(x, y).mark_projected();
        let ghost g1 = *self;
        proof {
            assert forall|i: int, j: int| on_grid(i, j) implies (#[trigger] g1.cell(i, j)).same_cands(
                g0.cell(i, j),
            ) by {
                if i != x || j != y {
                    assert(crate::sudoku::idx(i, j) != crate::sudoku::idx(x as int, y as int));
                }
            }
            Sudoku::lemma_same_cands_step(g0, g1);
        }
        let h = self.project_h_line(x, y);
        let ghost g2 = *self;
        let v = self.project_v_line(x, y);
        let ghost g3 = *self;
        let s = self.project_square(x, y);
        proof {
            Sudoku::lemma_step_trans(g0, g1, g2, false, h);
            Sudoku::lemma_step_trans(g0, g2, g3, h, v);
            Sudoku::lemma_step_trans(g0, g3, *self, h || v, s);
            let num = g0.cell(x as int, y as int).value();
            Field::lemma_same_cands(g1.cell(x as int, y as int), g0.cell(x as int, y as int));
            assert forall|i: int, j: int| on_grid(i, j) implies if peers(x as int, y as int, i, j) {
                (#[trigger] self.cell(i, j)).removed_from(g0.cell(i, j), num)
            } else if i == x && j == y {
                true
            } else {
                self.cell(i, j) == g0.cell(i, j)
            } by {
                if !(i == x && j == y) {
                    assert(g1.cell(i, j) == g0.cell(i, j)) by {
                        assert(crate::sudoku::idx(i, j) != crate::sudoku::idx(x as int, y as int));
                    }
                    let in_row = j == y;
                    let in_col = i == x;
                    let in_box = same_box(x as int, y as int, i, j);
                    if in_row && in_box {
                        Field::lemma_removed_twice(g1.cell(i, j), g3.cell(i, j), self.cell(i, j), num);
                    } else if in_col && in_box {
                        Field::lemma_removed_twice(g2.cell(i, j), g3.cell(i, j), self.cell(i, j), num);
                        assert(g2.cell(i, j) == g1.cell(i, j));
                    }
                }
            }
            let xa = x as int;
            let ya = y as int;
            Field::lemma_same_cands(self.cell(xa, ya), g0.cell(xa, ya));
            assert(self.eliminated_at(xa, ya)) by {
                assert forall|i: int, j: int|
                    on_grid(i, j) && peers(xa, ya, i, j) && (#[trigger] self.cell(i, j)).has(self.cell(xa, ya).value())
                        implies self.cell(i, j).is_single() by {
                    assert(self.cell(i, j).removed_from(g0.cell(i, j), num));
                    assert(g0.cell(i, j).is_single());
                    assert(self.cell(i, j).same_cands(g0.cell(i, j)));
                    Field::lemma_same_cands(self.cell(i, j), g0.cell(i, j));
                }
            }
            assert forall|i: int, j: int|
                on_grid(i, j) && (#[trigger] self.cell(i, j)).is_projected() && !g0.cell(i, j).is_projected()
                    implies self.eliminated_at(i, j) by {
                if !(i == xa && j == ya) {
                    if peers(xa, ya, i, j) {
                        assert(self.cell(i, j).removed_from(g0.cell(i, j), num));
                    }
                }
            }
        }
        h || v || s
    }

    /// Removes the digit of the determined cell at (x, y) from the rest of its row.
    fn project_h_line(&mut self, x: usize, y: usize) -> (r: bool)
        requires
            old(self).wf(),
            x < 9,
            y < 9,
            old(self).cell(x as int, y as int).is_single(),
        ensures
            final(self).step_from(*old(self), r),
            final(self).cell(x as int, y as int) == old(self).cell(x as int, y as int),
            forall|i: int, j: int|
                on_grid(i, j) ==> if j == y && i != x {
                    (#[trigger] final(self).cell(i, j)).removed_from(
                        old(self).cell(i, j),
                        old(self).cell(x as int, y as int).value(),
                    )
                } else {
                    final(self).cell(i, j) == old(self).cell(i, j)
                },
    {
        let ghost g0 = *self;
        let num = self.get(x, y).get_number();
        let mut progress = false;
        let mut i: usize = 0;
        proof {
            Sudoku::lemma_step_refl(g0, *self);
        }
        while i < 9
            invariant
                i <= 9,
                x < 9,
                y < 9,
                self.step_from(g0, progress),
                self.cell(x as int, y as int) == g0.cell(x as int, y as int),
                g0.cell(x as int, y as int).is_single(),
                num == g0.cell(x as int, y as int).value(),
                forall|i2: int, j2: int|
                    on_grid(i2, j2) ==> if j2 == y && i2 != x && i2 < i {
                        (#[trigger] self.cell(i2, j2)).removed_from(g0.cell(i2, j2), num as int)
                    } else {
                        self.cell(i2, j2) == g0.cell(i2, j2)
                    },
            decreases 9 - i,
        {
            if i != x {
                let ghost g1 = *self;
                proof {
                    Sudoku::lemma_peer_excludable(g1, x as int, y as int, i as int, y as int);
                }
                let p = self.exclude(i, y, num);
                proof {
                    Sudoku::lemma_step_trans(g0, g1, *self, progress, p);
                }
                progress = p || progress;
            }
            i += 1;
        }
        progress
    }

    /// Removes the digit of the determined cell at (x, y) from the rest of its column.
    fn project_v_line(&mut self, x: usize, y: usize) -> (r: bool)
        requires
            old(self).wf(),
            x < 9,
            y < 9,
            old(self).cell(x as int, y as int).is_single(),
        ensures
            final(self).step_from(*old(self), r),
            final(self).cell(x as int, y as int) == old(self).cell(x as int, y as int),
            forall|i: int, j: int|
                on_grid(i, j) ==> if i == x && j != y {
                    (#[trigger] final(self).cell(i, j)).removed_from(
                        old(self).cell(i, j),
                        old(self).cell(x as int, y as int).value(),
                    )
                } else {
                    final(self).cell(i, j) == old(self).cell(i, j)
                },
    {
        let ghost g0 = *self;
        let num = self.get(x, y).get_number();
        let mut progress = false;
        let mut i: usize = 0;
        proof {
            Sudoku::lemma_step_refl(g0, *self);
        }
        while i < 9
            invariant
                i <= 9,
                x < 9,
                y < 9,
                self.step_from(g0, progress),
                self.cell(x as int, y as int) == g0.cell(x as int, y as int),
                g0.cell(x as int, y as int).is_single(),
                num == g0.cell(x as int, y as int).value(),
                forall|i2: int, j2: int|
                    on_grid(i2, j2) ==> if i2 == x && j2 != y && j2 < i {
                        (#[trigger] self.cell(i2, j2)).removed_from(g0.cell(i2, j2), num as int)
                    } else {
                        self.cell(i2, j2) == g0.cell(i2, j2)
                    },
            decreases 9 - i,
        {
            if i != y {
                let ghost g1 = *self;
                proof {
                    Sudoku::lemma_peer_excludable(g1, x as int, y as int, x as int, i as int);
                }
                let p = self.exclude(x, i, num);
                proof {
                    Sudoku::lemma_step_trans(g0, g1, *self, progress, p);
                }
                progress = p || progress;
            }
            i += 1;
        }
        progress
    }

    /// Removes the digit of the determined cell at (x, y) from the rest of its box.
    fn project_square(&mut self, x: usize, y: usize) -> (r: bool)
        requires
            old(self).wf(),
            x < 9,
            y < 9,
            old(self).cell(x as int, y as int).is_single(),
        ensures
            final(self).step_from(*old(self), r),
            final(self).cell(x as int, y as int) == old(self).cell(x as int, y as int),
            forall|i: int, j: int|
                on_grid(i, j) ==> if same_box(x as int, y as int, i, j) && !(i == x && j == y) {
                    (#[trigger] final(self).cell(i, j)).removed_from(
                        old(self).cell(i, j),
                        old(self).cell(x as int, y as int).value(),
                    )
                } else {
                    final(self).cell(i, j) == old(self).cell(i, j)
                },
    {
        let ghost g0 = *self;
        let num = self.get(x, y).get_number();
        let mut progress = false;
        let (cx, cy) = Sudoku::get_corner(x, y);
        let mut i: usize = cx;
        proof {
            Sudoku::lemma_step_refl(g0, *self);
        }
        while i < cx + 3
            invariant
                cx == 3 * (x / 3),
                cy == 3 * (y / 3),
                cx <= i <= cx + 3,
                x < 9,
                y < 9,
                self.step_from(g0, progress),
                self.cell(x as int, y as int) == g0.cell(x as int, y as int),
                g0.cell(x as int, y as int).is_single(),
                num == g0.cell(x as int, y as int).value(),
                forall|i2: int, j2: int|
                    on_grid(i2, j2) ==> if cx <= i2 < i && cy <= j2 < cy + 3 && !(i2 == x && j2 == y) {
                        (#[trigger] self.cell(i2, j2)).removed_from(g0.cell(i2, j2), num as int)
                    } else {
                        self.cell(i2, j2) == g0.cell(i2, j2)
                    },
            decreases cx + 3 - i,
        {
            let mut j: usize = cy;
            while j < cy + 3
                invariant
                    cx == 3 * (x / 3),
                    cy == 3 * (y / 3),
                    cx <= i < cx + 3,
                    cy <= j <= cy + 3,
                    x < 9,
                    y < 9,
                    self.step_from(g0, progress),
                    self.cell(x as int, y as int) == g0.cell(x as int, y as int),
                    g0.cell(x as int, y as int).is_single(),
                    num == g0.cell(x as int, y as int).value(),
                    forall|i2: int, j2: int|
                        on_grid(i2, j2) ==> if ((cx <= i2 < i && cy <= j2 < cy + 3) || (i2 == i && cy <= j2
                            < j)) && !(i2 == x && j2 == y) {
                            (#[trigger] self.cell(i2, j2)).removed_from(g0.cell(i2, j2), num as int)
                        } else {
                            self.cell(i2, j2) == g0.cell(i2, j2)
                        },
                decreases cy + 3 - j,
            {
                if i != x || j != y {
                    let ghost g1 = *self;
                    proof {
                        Sudoku::lemma_peer_excludable(g1, x as int, y as int, i as int, j as int);
                    }
                    let p = self.exclude(i, j, num);
                    proof {
                        Sudoku::lemma_step_trans(g0, g1, *self, progress, p);
                    }
                    progress = p || progress;
                }
                j += 1;
            }
            i += 1;
        }
        progress
    }
}

} // verus!
