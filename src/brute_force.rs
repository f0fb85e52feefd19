//! Backtracking search: the open cells are listed once, in a fixed order, and
//! tried digit by digit, each placement checked against its row, column and
//! box; a position that runs out of digits is reset and reports failure.
use vstd::prelude::*;
use crate::field::Field;
use crate::solution::{at, is_solution};
use crate::sudoku::{Sudoku, on_grid, peers, idx, propagated};

verus! {

/// The cell (x, y) is among entries `k..` of the list.
pub open spec fn listed(e: Seq<(usize, usize)>, k: int, x: int, y: int) -> bool {
    exists|t: int| k <= t < e.len() && #[trigger] e[t] == (x as usize, y as usize)
}

/// The open cells among the first `n` cells taken column by column
/// (x outer, y inner), in that order.
pub open spec fn open_cells(g: Sudoku, n: int) -> Seq<(usize, usize)>
    decreases n,
{
    if n <= 0 {
        seq![]
    } else {
        open_cells(g, n - 1) + if !g.cell((n - 1) / 9, (n - 1) % 9).is_single() {
            seq![(((n - 1) / 9) as usize, ((n - 1) % 9) as usize)]
        } else {
            seq![]
        }
    }
}

/// `a` comes no later than `b` in the order in which the search tries
/// assignments: the listed cells from entry `k` on, each from digit 1 up.
pub open spec fn lex_le(a: Seq<int>, b: Seq<int>, e: Seq<(usize, usize)>, k: int) -> bool
    decreases e.len() - k,
{
    if k < 0 || k >= e.len() {
        true
    } else {
        let x = e[k].0 as int;
        let y = e[k].1 as int;
        at(a, x, y) < at(b, x, y) || (at(a, x, y) == at(b, x, y) && lex_le(a, b, e, k + 1))
    }
}

/// Every entry is a cell of the grid, and no cell is listed twice.
pub open spec fn list_ok(e: Seq<(usize, usize)>) -> bool {
    &&& e.len() <= 81
    &&& forall|t: int| 0 <= t < e.len() ==> (#[trigger] e[t]).0 < 9 && e[t].1 < 9
    &&& forall|t1: int, t2: int| 0 <= t1 < e.len() && 0 <= t2 < e.len() && t1 != t2 ==> #[trigger] e[t1] != #[trigger] e[t2]
}

/// Cells listed from `k` on are open; all other cells are determined, and
/// none of them conflict.
pub open spec fn search_state(g: Sudoku, e: Seq<(usize, usize)>, k: int) -> bool {
    &&& g.wf()
    &&& g.sound()
    &&& list_ok(e)
    &&& 0 <= k <= e.len()
    &&& forall|x: int, y: int| on_grid(x, y) ==> ((#[trigger] g.cell(x, y)).is_single() <==> !listed(e, k, x, y))
}

/// The digits of a complete grid.
pub open spec fn values(g: Sudoku) -> Seq<int> {
    Seq::new(81, |i: int| g@[i].value())
}

/// Every determined cell of `a` is determined in `b`, with the same digit.
pub open spec fn keeps_digits(b: Sudoku, a: Sudoku) -> bool {
    forall|x: int, y: int|
        on_grid(x, y) && (#[trigger] a.cell(x, y)).is_single() ==> b.cell(x, y).is_single() && b.cell(
            x,
            y,
        ).value() == a.cell(x, y).value()
}

/// What the search promises of its result `new` from `old`, `found` telling
/// whether it succeeded.
pub open spec fn searched(old: Sudoku, new: Sudoku, found: bool) -> bool {
    &&& new.wf()
    &&& found == old.solvable()
    &&& found ==> new.is_complete() && new.sound() && old.extended_by(values(new))
}

/// Propagation followed by search solves a puzzle with exactly one solution,
/// and the grid then holds that solution.
pub proof fn lemma_unique_solution_reached(
    puzzle: Sudoku,
    propagated_grid: Sudoku,
    solved_grid: Sudoku,
    s: Seq<int>,
    ok: bool,
    found: bool,
)
    requires
        puzzle.wf(),
        puzzle.admits(s),
        forall|t: Seq<int>| #[trigger] puzzle.extended_by(t) ==> t == s,
        propagated(puzzle, propagated_grid, ok),
        searched(propagated_grid, solved_grid, found),
    ensures
        ok,
        found,
        solved_grid.is_complete(),
        values(solved_grid) == s,
{
    let g1 = propagated_grid;
    assert(g1.admits(s));
    Sudoku::lemma_admits_sound(g1, s);
    assert(g1.extended_by(s));
    assert(found);
    assert(keeps_digits(g1, puzzle)) by {
        assert forall|x: int, y: int| on_grid(x, y) && (#[trigger] puzzle.cell(x, y)).is_single() implies g1.cell(
            x,
            y,
        ).is_single() && g1.cell(x, y).value() == puzzle.cell(x, y).value() by {
            Field::lemma_narrow_single(puzzle.cell(x, y), g1.cell(x, y));
        }
    }
    lemma_extends_to(g1, puzzle, values(solved_grid));
}

/// A complete grid without conflict spells out a solution that extends it.
pub proof fn lemma_complete_solution(g: Sudoku)
    requires
        g.wf(),
        g.is_complete(),
        g.sound(),
    ensures
        is_solution(values(g)),
        g.extended_by(values(g)),
{
    let s = values(g);
    assert forall|x: int, y: int| on_grid(x, y) implies #[trigger] at(s, x, y) == g.cell(x, y).value() by {
        assert(s[idx(x, y)] == g@[idx(x, y)].value());
    }
    assert forall|x: int, y: int| on_grid(x, y) implies 1 <= #[trigger] at(s, x, y) <= 9 by {
        assert(g.cell(x, y).is_single());
    }
    assert forall|x1: int, y1: int, x2: int, y2: int|
        on_grid(x1, y1) && on_grid(x2, y2) && peers(x1, y1, x2, y2) implies #[trigger] at(s, x1, y1)
        != #[trigger] at(s, x2, y2) by {
        assert(g.cell(x1, y1).is_single());
        assert(g.cell(x2, y2).is_single());
        assert(g.valid_at(x1, y1));
    }
}

/// A solution that extends one grid extends any grid whose determined cells
/// it also matches.
pub proof fn lemma_extends_to(a: Sudoku, b: Sudoku, s: Seq<int>)
    requires
        a.extended_by(s),
        keeps_digits(a, b),
    ensures
        b.extended_by(s),
{
    assert forall|x: int, y: int| on_grid(x, y) && (#[trigger] b.cell(x, y)).is_single() implies at(s, x, y)
        == b.cell(x, y).value() by {
        assert(a.cell(x, y).is_single());
    }
}

/// A grid that some solution extends has no conflict.
pub proof fn lemma_extended_sound(g: Sudoku, s: Seq<int>)
    requires
        g.wf(),
        g.extended_by(s),
    ensures
        g.sound(),
{
    assert forall|x: int, y: int| on_grid(x, y) && (#[trigger] g.cell(x, y)).is_single() implies g.valid_at(x, y) by {
        assert forall|i: int, j: int|
            on_grid(i, j) && peers(x, y, i, j) && (#[trigger] g.cell(i, j)).is_single() implies g.cell(
            i,
            j,
        ).value() != g.cell(x, y).value() by {
            assert(at(s, i, j) == g.cell(i, j).value());
            assert(at(s, x, y) == g.cell(x, y).value());
        }
    }
}

/// Searches for a complete assignment of the open cells.
pub trait BruteForce {
    /// The value is in a state the search can start from.
    spec fn search_ready(&self) -> bool;

    /// Tries to complete the grid; returns whether it succeeded.
    fn brute_force(&mut self) -> (solved: bool)
        requires
            old(self).search_ready(),
    ;
}

impl BruteForce for Sudoku {
    open spec fn search_ready(&self) -> bool {
        self.wf()
    }

    /// Succeeds exactly when some solution keeps every determined digit; the
    /// grid then holds the first such solution in the search order (open
    /// cells column by column, digits from 1 up). On failure every determined
    /// cell is kept, and every open cell is either as it was or allows every
    /// digit again.
    fn brute_force(&mut self) -> (r: bool)
        ensures
            searched(*old(self), *final(self), r),
            r ==> keeps_digits(*final(self), *old(self)),
            r ==> forall|t: Seq<int>|
                #[trigger] old(self).extended_by(t) ==> lex_le(values(*final(self)), t, open_cells(*old(self), 81), 0),
            !r ==> forall|x: int, y: int|
                on_grid(x, y) && (#[trigger] old(self).cell(x, y)).is_single() ==> final(self).cell(x, y)
                    == old(self).cell(x, y),
            !r ==> forall|x: int, y: int|
                on_grid(x, y) && !(#[trigger] old(self).cell(x, y)).is_single() ==> final(self).cell(
                    x,
                    y,
                ).is_full() || final(self).cell(x, y) == old(self).cell(x, y),
    {
        let ghost g0 = *self;
        if !self.check_sound() {
            proof {
                if g0.solvable() {
                    let s = choose|s: Seq<int>| g0.extended_by(s);
                    lemma_extended_sound(g0, s);
                }
            }
            return false;
        }
        let e_fields = get_empty_fields(self);
        let r = assign_field(self, &e_fields, 0);
        proof {
            if r {
                lemma_complete_solution(*self);
                assert(keeps_digits(*self, g0));
                lemma_extends_to(*self, g0, values(*self));
            }
        }
        r
    }
}

/// Tries the digits 1 to 9 at list entry `k`, each followed by a search of
/// the entries after it; succeeds at the end of the list.
fn assign_field(sudoku: &mut Sudoku, empty_fields: &Vec<(usize, usize)>, k: usize) -> (r: bool)
    requires
        search_state(*old(sudoku), empty_fields@, k as int),
    ensures
        final(sudoku).wf(),
        r == old(sudoku).solvable(),
        forall|x: int, y: int|
            on_grid(x, y) && !listed(empty_fields@, k as int, x, y) ==> #[trigger] final(sudoku).cell(x, y)
                == old(sudoku).cell(x, y),
        r ==> final(sudoku).is_complete() && final(sudoku).sound(),
        r ==> forall|t: Seq<int>|
            #[trigger] old(sudoku).extended_by(t) ==> lex_le(values(*final(sudoku)), t, empty_fields@, k as int),
        !r ==> forall|x: int, y: int|
            on_grid(x, y) && listed(empty_fields@, k as int, x, y) ==> (#[trigger] final(sudoku).cell(
                x,
                y,
            )).is_full() || final(sudoku).cell(x, y) == old(sudoku).cell(x, y),
    decreases empty_fields@.len() - k,
{
    let ghost g0 = *sudoku;
    let ghost e = empty_fields@;
    if k == empty_fields.len() {
        proof {
            assert forall|x: int, y: int| on_grid(x, y) implies (#[trigger] g0.cell(x, y)).is_single() by {
                if listed(e, k as int, x, y) {
                    let t = choose|t: int| k <= t < e.len() && #[trigger] e[t] == (x as usize, y as usize);
                }
            }
            lemma_complete_solution(g0);
            assert forall|t: Seq<int>| #[trigger] g0.extended_by(t) implies lex_le(values(g0), t, e, k as int) by {}
        }
        return true;
    }
    let (x, y) = empty_fields[k];
    let ghost (xa, ya) = (x as int, y as int);
    proof {
        assert(e[k as int] == (x, y));
        assert(listed(e, k as int, xa, ya));
        assert(!listed(e, k + 1, xa, ya)) by {
            if listed(e, k + 1, xa, ya) {
                let t = choose|t: int| k + 1 <= t < e.len() && #[trigger] e[t] == (x, y);
                assert(e[t] == e[k as int]);
            }
        }
    }
    let mut v: usize = 1;
    while v <= 9
        invariant
            1 <= v <= 10,
            g0 == *old(sudoku),
            search_state(g0, e, k as int),
            e == empty_fields@,
            k < e.len(),
            e[k as int] == (x, y),
            (xa, ya) == (x as int, y as int),
            x < 9,
            y < 9,
            !listed(e, k + 1, xa, ya),
            listed(e, k as int, xa, ya),
            sudoku.wf(),
            forall|i: int, j: int|
                on_grid(i, j) && !listed(e, k as int, i, j) ==> #[trigger] sudoku.cell(i, j) == g0.cell(i, j),
            forall|i: int, j: int|
                on_grid(i, j) && listed(e, k + 1, i, j) ==> (#[trigger] sudoku.cell(i, j)).is_full()
                    || sudoku.cell(i, j) == g0.cell(i, j),
            forall|s: Seq<int>| #[trigger] g0.extended_by(s) ==> !(1 <= at(s, xa, ya) < v),
        decreases 10 - v,
    {
        let ghost g1 = *sudoku;
        sudoku.get_mut(x, y).set_number(v);
        let ghost g2 = *sudoku;
        proof {
            assert forall|i: int, j: int| on_grid(i, j) && !(i == xa && j == ya) implies #[trigger] g2.cell(i, j)
                == g1.cell(i, j) by {
                assert(idx(i, j) != idx(xa, ya));
            }
            assert(g2.cell(xa, ya).has(v as int));
            assert(g2.wf());
            // determined cells of g2 other than (x, y) are those of g0
            assert forall|i: int, j: int| on_grid(i, j) && !(i == xa && j == ya) && (#[trigger] g2.cell(i, j)).is_single()
                implies !listed(e, k as int, i, j) && g2.cell(i, j) == g0.cell(i, j) by {
                if listed(e, k as int, i, j) {
                    let t = choose|t: int| k <= t < e.len() && #[trigger] e[t] == (i as usize, j as usize);
                    if t == k {
                        assert(e[t] == (x, y));
                    } else {
                        assert(listed(e, k + 1, i, j));
                        if g1.cell(i, j).is_full() {
                            assert(g1.cell(i, j).has(1) && g1.cell(i, j).has(2));
                        }
                    }
                }
            }
        }
        let valid = sudoku.is_valid(x, y);
        if valid {
            proof {
                assert(g2.sound()) by {
                    assert forall|i: int, j: int| on_grid(i, j) && (#[trigger] g2.cell(i, j)).is_single() implies g2.valid_at(
                        i,
                        j,
                    ) by {
                        if !(i == xa && j == ya) {
                            assert(g0.valid_at(i, j));
                            assert forall|p: int, q: int|
                                on_grid(p, q) && peers(i, j, p, q) && (#[trigger] g2.cell(p, q)).is_single() implies g2.cell(
                                p,
                                q,
                            ).value() != g2.cell(i, j).value() by {
                                if p == xa && q == ya {
                                    assert(g2.valid_at(xa, ya));
                                    assert(peers(xa, ya, i, j));
                                } else {
                                    assert(g0.cell(p, q).is_single());
                                }
                            }
                        }
                    }
                }
                assert forall|i: int, j: int| on_grid(i, j) implies ((#[trigger] g2.cell(i, j)).is_single()
                    <==> !listed(e, k + 1, i, j)) by {
                    if listed(e, k + 1, i, j) {
                        assert(!(i == xa && j == ya));
                        assert(g2.cell(i, j) == g1.cell(i, j));
                        assert(listed(e, k as int, i, j)) by {
                            let t = choose|t: int| k + 1 <= t < e.len() && #[trigger] e[t] == (i as usize, j as usize);
                        }
                        if g1.cell(i, j).is_full() {
                            assert(g1.cell(i, j).has(1) && g1.cell(i, j).has(2));
                        }
                    }
                    if !(i == xa && j == ya) && !listed(e, k + 1, i, j) {
                        if listed(e, k as int, i, j) {
                            let t = choose|t: int| k <= t < e.len() && #[trigger] e[t] == (i as usize, j as usize);
                            if t == k {
                                assert(e[t] == (x, y));
                            } else {
                                assert(listed(e, k + 1, i, j));
                            }
                        }
                        assert(g0.cell(i, j).is_single());
                    }
                }
            }
            let found = assign_field(sudoku, empty_fields, k + 1);
            if found {
                proof {
                    lemma_complete_solution(*sudoku);
                    assert(keeps_digits(*sudoku, g0)) by {
                        assert forall|i: int, j: int| on_grid(i, j) && (#[trigger] g0.cell(i, j)).is_single() implies sudoku.cell(
                            i,
                            j,
                        ).is_single() && sudoku.cell(i, j).value() == g0.cell(i, j).value() by {
                            assert(!listed(e, k + 1, i, j));
                            if i == xa && j == ya {
                            } else {
                                assert(g2.cell(i, j) == g0.cell(i, j));
                            }
                        }
                    }
                    lemma_extends_to(*sudoku, g0, values(*sudoku));
                    assert forall|i: int, j: int| on_grid(i, j) && !listed(e, k as int, i, j) implies #[trigger] sudoku.cell(
                        i,
                        j,
                    ) == g0.cell(i, j) by {
                        assert(!listed(e, k + 1, i, j));
                        assert(!(i == xa && j == ya));
                        assert(g2.cell(i, j) == g1.cell(i, j));
                    }
                    assert(g0.extended_by(values(*sudoku)));
                    let a = values(*sudoku);
                    assert(at(a, xa, ya) == v) by {
                        assert(a[crate::sudoku::idx(xa, ya)] == sudoku@[crate::sudoku::idx(xa, ya)].value());
                        assert(sudoku.cell(xa, ya) == g2.cell(xa, ya));
                    }
                    assert forall|t: Seq<int>| #[trigger] g0.extended_by(t) implies lex_le(a, t, e, k as int) by {
                        assert(!(1 <= at(t, xa, ya) < v));
                        assert(1 <= at(t, xa, ya) <= 9);
                        if at(t, xa, ya) == v {
                            assert(g2.extended_by(t)) by {
                                assert forall|i: int, j: int| on_grid(i, j) && (#[trigger] g2.cell(i, j)).is_single() implies at(
                                    t,
                                    i,
                                    j,
                                ) == g2.cell(i, j).value() by {
                                    if !(i == xa && j == ya) {
                                        assert(g0.cell(i, j).is_single());
                                    }
                                }
                            }
                            assert(lex_le(a, t, e, k + 1));
                        }
                    }
                }
                return true;
            }
            proof {
                assert forall|s: Seq<int>| #[trigger] g0.extended_by(s) implies !(1 <= at(s, xa, ya) < v + 1) by {
                    if at(s, xa, ya) == v {
                        assert(g2.extended_by(s)) by {
                            assert forall|i: int, j: int| on_grid(i, j) && (#[trigger] g2.cell(i, j)).is_single() implies at(
                                s,
                                i,
                                j,
                            ) == g2.cell(i, j).value() by {
                                if !(i == xa && j == ya) {
                                    assert(g0.cell(i, j).is_single());
                                }
                            }
                        }
                    }
                }
            }
        } else {
            proof {
                assert forall|s: Seq<int>| #[trigger] g0.extended_by(s) implies !(1 <= at(s, xa, ya) < v + 1) by {
                    if at(s, xa, ya) == v {
                        let (p, q) = choose|p: int, q: int|
                            on_grid(p, q) && peers(xa, ya, p, q) && (#[trigger] g2.cell(p, q)).is_single()
                                && g2.cell(p, q).value() == g2.cell(xa, ya).value();
                        assert(g0.cell(p, q).is_single());
                        assert(at(s, p, q) == g0.cell(p, q).value());
                    }
                }
            }
        }
        proof {
            assert forall|i: int, j: int| on_grid(i, j) && !listed(e, k as int, i, j) implies #[trigger] sudoku.cell(i, j)
                == g0.cell(i, j) by {
                assert(!listed(e, k + 1, i, j));
                assert(!(i == xa && j == ya));
            }
            assert forall|i: int, j: int| on_grid(i, j) && listed(e, k + 1, i, j) implies (#[trigger] sudoku.cell(i, j)).is_full()
                || sudoku.cell(i, j) == g0.cell(i, j) by {
                assert(!(i == xa && j == ya));
                if !valid {
                    assert(g2.cell(i, j) == g1.cell(i, j));
                }
            }
        }
        v += 1;
    }
    let ghost g3 = *sudoku;
    sudoku.get_mut(x, y).reset_possibilities();
    proof {
        assert forall|i: int, j: int| on_grid(i, j) && !(i == xa && j == ya) implies #[trigger] sudoku.cell(i, j)
            == g3.cell(i, j) by {
            assert(idx(i, j) != idx(xa, ya));
        }
        assert(sudoku.cell(xa, ya).has(1));
        assert(sudoku.wf());
        assert forall|i: int, j: int| on_grid(i, j) && listed(e, k as int, i, j) implies (#[trigger] sudoku.cell(
            i,
            j,
        )).is_full() || sudoku.cell(i, j) == g0.cell(i, j) by {
            if !(i == xa && j == ya) {
                let t = choose|t: int| k <= t < e.len() && #[trigger] e[t] == (i as usize, j as usize);
                if t == k {
                    assert(e[t] == (x, y));
                } else {
                    assert(listed(e, k + 1, i, j));
                }
            }
        }
        assert forall|s: Seq<int>| !#[trigger] g0.extended_by(s) by {
            if g0.extended_by(s) {
                assert(1 <= at(s, xa, ya) <= 9);
            }
        }
    }
    false
}

/// The open cells, column by column (x outer, y inner).
fn get_empty_fields(sudoku: &Sudoku) -> (r: Vec<(usize, usize)>)
    requires
        sudoku.wf(),
    ensures
        list_ok(r@),
        forall|x: int, y: int| on_grid(x, y) ==> (listed(r@, 0, x, y) <==> !(#[trigger] sudoku.cell(x, y)).is_single()),
        r@ == open_cells(*sudoku, 81),
{
    let mut points: Vec<(usize, usize)> = Vec::new();
    let mut x: usize = 0;
    while x < 9
        invariant
            x <= 9,
            sudoku.wf(),
            points@.len() <= 9 * x,
            forall|t: int| 0 <= t < points@.len() ==> (#[trigger] points@[t]).0 < x && points@[t].1 < 9,
            forall|t1: int, t2: int| 0 <= t1 < points@.len() && 0 <= t2 < points@.len() && t1 != t2 ==> #[trigger] points@[t1] != #[trigger] points@[t2],
            forall|i: int, j: int| 0 <= i < x && 0 <= j < 9 ==> (listed(points@, 0, i, j) <==> !(#[trigger] sudoku.cell(i, j)).is_single()),
            forall|t: int| 0 <= t < points@.len() ==> !(#[trigger] sudoku.cell(points@[t].0 as int, points@[t].1 as int)).is_single(),
            points@ == open_cells(*sudoku, 9 * x),
        decreases 9 - x,
    {
        let mut y: usize = 0;
        while y < 9
            invariant
                x < 9,
                y <= 9,
                sudoku.wf(),
                points@.len() <= 9 * x + y,
                forall|t: int| 0 <= t < points@.len() ==> ((#[trigger] points@[t]).0 < x && points@[t].1 < 9) || (points@[t].0 == x && points@[t].1 < y),
                forall|t1: int, t2: int| 0 <= t1 < points@.len() && 0 <= t2 < points@.len() && t1 != t2 ==> #[trigger] points@[t1] != #[trigger] points@[t2],
                forall|i: int, j: int| ((0 <= i < x && 0 <= j < 9) || (i == x && 0 <= j < y)) ==> (listed(points@, 0, i, j) <==> !(#[trigger] sudoku.cell(i, j)).is_single()),
                forall|t: int| 0 <= t < points@.len() ==> !(#[trigger] sudoku.cell(points@[t].0 as int, points@[t].1 as int)).is_single(),
                points@ == open_cells(*sudoku, 9 * x + y),
            decreases 9 - y,
        {
            let ghost p0 = points@;
            proof {
                let n = 9 * x + y + 1;
                assert((n - 1) / 9 == x && (n - 1) % 9 == y);
            }
            if !sudoku.get(x, y).number_found() {
                points.push((x, y));
                proof {
                    assert(points@[p0.len() as int] == (x, y));
                    assert forall|i: int, j: int| ((0 <= i < x && 0 <= j < 9) || (i == x && 0 <= j < y + 1)) implies (listed(points@, 0, i, j) <==> !(#[trigger] sudoku.cell(i, j)).is_single()) by {
                        if i == x && j == y {
                            assert(points@[p0.len() as int] == (i as usize, j as usize));
                        } else {
                            if listed(points@, 0, i, j) {
                                let t = choose|t: int| 0 <= t < points@.len() && #[trigger] points@[t] == (i as usize, j as usize);
                                if t < p0.len() {
                                    assert(p0[t] == points@[t]);
                                }
                            }
                            if listed(p0, 0, i, j) {
                                let t = choose|t: int| 0 <= t < p0.len() && #[trigger] p0[t] == (i as usize, j as usize);
                                assert(points@[t] == p0[t]);
                            }
                        }
                    }
                }
            } else {
                proof {
                    assert forall|i: int, j: int| ((0 <= i < x && 0 <= j < 9) || (i == x && 0 <= j < y + 1)) implies (listed(points@, 0, i, j) <==> !(#[trigger] sudoku.cell(i, j)).is_single()) by {
                        if i == x && j == y && listed(points@, 0, i, j) {
                            let t = choose|t: int| 0 <= t < points@.len() && #[trigger] points@[t] == (i as usize, j as usize);
                        }
                    }
                }
            }
            y += 1;
        }
        x += 1;
    }
    proof {
        assert forall|x: int, y: int| on_grid(x, y) implies (listed(points@, 0, x, y) <==> !(#[trigger] sudoku.cell(x, y)).is_single()) by {}
    }
    points
}

} // verus!
