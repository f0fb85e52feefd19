use vstd::prelude::*;
use crate::field::Field;
use crate::project_lines::ProjectLines;
use crate::solution::{at, is_solution};

verus! {

/// Why a grid could not be built or solved.
#[derive(Debug, Clone, Copy, PartialEq, Eq, Structural)]
pub enum SudokuError {
    /// Fewer than nine lines, or a line shorter than nine characters.
    FormatError,
    /// Two determined cells of one row, column or box hold the same digit.
    PuzzleContradiction,
}

/// A 9x9 grid of fields; the cell in column `x` and row `y` is stored at
/// `9 * y + x`.
#[derive(Clone)]
pub struct Sudoku {
    fields: Vec<Field>,
}

/// Where the cell in column `x` and row `y` is stored.
pub open spec fn idx(x: int, y: int) -> int {
    9 * y + x
}

/// (x, y) is a cell of the grid.
pub open spec fn on_grid(x: int, y: int) -> bool {
    0 <= x < 9 && 0 <= y < 9
}

/// The two cells lie in one 3x3 box.
pub open spec fn same_box(x1: int, y1: int, x2: int, y2: int) -> bool {
    x1 / 3 == x2 / 3 && y1 / 3 == y2 / 3
}

/// Two distinct cells that share a row, a column or a box.
pub open spec fn peers(x1: int, y1: int, x2: int, y2: int) -> bool {
    !(x1 == x2 && y1 == y2) && (x1 == x2 || y1 == y2 || same_box(x1, y1, x2, y2))
}

/// The digit that an input character fixes, or 0 where it fixes none.
pub open spec fn digit_of(c: char) -> int {
    if '1' <= c && c <= '9' {
        c as int - '0' as int
    } else {
        0
    }
}

/// The clue of the input at column `x`, row `y` (0 for an open cell).
pub open spec fn clue(lines: Seq<Seq<char>>, x: int, y: int) -> int {
    digit_of(lines[y][x])
}

/// The characters of each input line.
pub open spec fn text_of(lines: Seq<Vec<char>>) -> Seq<Seq<char>> {
    lines.map_values(|l: Vec<char>| l@)
}

/// Nine lines of at least nine characters each.
pub open spec fn well_formed(lines: Seq<Seq<char>>) -> bool {
    lines.len() >= 9 && forall|y: int| 0 <= y < 9 ==> (#[trigger] lines[y]).len() >= 9
}

/// No two clues of one row, column or box hold the same digit.
pub open spec fn clues_agree(lines: Seq<Seq<char>>) -> bool {
    forall|x1: int, y1: int, x2: int, y2: int|
        on_grid(x1, y1) && on_grid(x2, y2) && peers(x1, y1, x2, y2) && #[trigger] clue(
            lines,
            x1,
            y1,
        ) != 0 ==> clue(lines, x1, y1) != #[trigger] clue(lines, x2, y2)
}

/// What propagation to a fixpoint promises of its result `new` from `old`,
/// `ok` telling whether it succeeded.
pub open spec fn propagated(old: Sudoku, new: Sudoku, ok: bool) -> bool {
    &&& new.wf()
    &&& new.narrows(old)
    &&& forall|s: Seq<int>| old.admits(s) ==> #[trigger] new.admits(s)
    &&& new.at_fixpoint()
    &&& new.projected_since(old)
    &&& forall|x: int, y: int|
        on_grid(x, y) && (#[trigger] new.cell(x, y)).is_single() && !old.cell(x, y).is_projected()
            ==> new.eliminated_at(x, y)
    &&& ok <==> new.sound()
    &&& old.at_fixpoint() ==> new == old
}

/// Propagating a second time changes nothing and gives the same outcome.
pub proof fn lemma_fast_solve_idempotent(g0: Sudoku, g1: Sudoku, g2: Sudoku, ok1: bool, ok2: bool)
    requires
        propagated(g0, g1, ok1),
        propagated(g1, g2, ok2),
    ensures
        g2 == g1,
        ok2 == ok1,
{
}

/// While the grid admits a solution, every propagation step leaves no row,
/// column or box with two determined cells of one digit.
pub proof fn lemma_step_keeps_sound(old: Sudoku, new: Sudoku, s: Seq<int>, progress: bool)
    requires
        old.wf(),
        old.admits(s),
        new.step_from(old, progress),
    ensures
        old.sound(),
        new.sound(),
{
    Sudoku::lemma_admits_sound(old, s);
    Sudoku::lemma_admits_sound(new, s);
}

/// Number of candidates in the first `k` cells.
pub open spec fn total_upto(g: Sudoku, k: int) -> nat
    decreases k,
{
    if k <= 0 {
        0
    } else {
        total_upto(g, k - 1) + g@[k - 1].size()
    }
}

/// Cell-wise narrowing bounds the count of the first `k` cells, strictly
/// when cell `m` among them lost a candidate.
proof fn lemma_total_upto(a: Sudoku, b: Sudoku, k: int, m: int)
    requires
        0 <= k <= 81,
        a@.len() == 81,
        b@.len() == 81,
        forall|i: int| 0 <= i < 81 ==> (#[trigger] b@[i]).narrows(a@[i]),
        -1 <= m < 81,
        m >= 0 ==> exists|d: int| a@[m].has(d) && !b@[m].has(d),
    ensures
        total_upto(b, k) <= total_upto(a, k),
        0 <= m < k ==> total_upto(b, k) < total_upto(a, k),
    decreases k,
{
    if k > 0 {
        lemma_total_upto(a, b, k - 1, m);
        Field::lemma_narrow_size(a@[k - 1], b@[k - 1]);
    }
}

impl View for Sudoku {
    type V = Seq<Field>;

    closed spec fn view(&self) -> Seq<Field> {
        self.fields@
    }
}

impl Sudoku {
    /// 81 cells, none of them without a candidate.
    pub open spec fn wf(&self) -> bool {
        &&& self@.len() == 81
        &&& forall|x: int, y: int| on_grid(x, y) ==> (#[trigger] self.cell(x, y)).nonempty()
    }

    /// The cell in column `x` and row `y`.
    pub open spec fn cell(&self, x: int, y: int) -> Field {
        self@[idx(x, y)]
    }

    /// Every cell holds exactly one digit.
    pub open spec fn is_complete(&self) -> bool {
        forall|x: int, y: int| on_grid(x, y) ==> (#[trigger] self.cell(x, y)).is_single()
    }

    /// No determined peer of the determined cell at (x, y) holds its digit.
    pub open spec fn valid_at(&self, x: int, y: int) -> bool {
        forall|i: int, j: int|
            on_grid(i, j) && peers(x, y, i, j) && (#[trigger] self.cell(i, j)).is_single()
                ==> self.cell(i, j).value() != self.cell(x, y).value()
    }

    /// No row, column or box holds two determined cells with one digit.
    pub open spec fn sound(&self) -> bool {
        forall|x: int, y: int|
            on_grid(x, y) && (#[trigger] self.cell(x, y)).is_single() ==> self.valid_at(x, y)
    }

    /// `s` keeps every digit that the grid has determined.
    pub open spec fn extended_by(&self, s: Seq<int>) -> bool {
        &&& is_solution(s)
        &&& forall|x: int, y: int|
            on_grid(x, y) && (#[trigger] self.cell(x, y)).is_single() ==> at(s, x, y)
                == self.cell(x, y).value()
    }

    /// Some solution keeps every digit that the grid has determined.
    pub open spec fn solvable(&self) -> bool {
        exists|s: Seq<int>| self.extended_by(s)
    }

    /// `s` is a solution that every cell still allows.
    pub open spec fn admits(&self, s: Seq<int>) -> bool {
        &&& is_solution(s)
        &&& forall|x: int, y: int| on_grid(x, y) ==> (#[trigger] self.cell(x, y)).has(at(s, x, y))
    }

    /// Every cell of `self` allows only digits that the same cell of `other` allows.
    pub open spec fn narrows(&self, other: Sudoku) -> bool {
        forall|x: int, y: int|
            on_grid(x, y) ==> (#[trigger] self.cell(x, y)).narrows(other.cell(x, y))
    }

    /// Some cell lost a candidate that it had in `old`.
    pub open spec fn shrunk_from(&self, old: Sudoku) -> bool {
        exists|x: int, y: int, d: int|
            on_grid(x, y) && old.cell(x, y).has(d) && !(#[trigger] self.cell(x, y).has(d))
    }

    /// Every cell projected in `old` is still projected.
    pub open spec fn keeps_projections(&self, old: Sudoku) -> bool {
        forall|x: int, y: int|
            on_grid(x, y) && old.cell(x, y).is_projected() ==> (#[trigger] self.cell(
                x,
                y,
            )).is_projected()
    }

    /// `self` comes from `old` by removing candidates and marking projections;
    /// `progress` tells whether any candidate was removed.
    pub open spec fn narrowed_from(&self, old: Sudoku, progress: bool) -> bool {
        &&& self.wf()
        &&& self.narrows(old)
        &&& self.keeps_projections(old)
        &&& progress == self.shrunk_from(old)
    }

    /// `self` comes from `old` by removing candidates that no solution admitted
    /// by `old` needs; `progress` tells whether any candidate was removed.
    pub open spec fn step_from(&self, old: Sudoku, progress: bool) -> bool {
        &&& self.narrowed_from(old, progress)
        &&& forall|s: Seq<int>| old.admits(s) ==> #[trigger] self.admits(s)
    }

    /// The cell at (x, y) is determined, and no open peer still allows its digit.
    pub open spec fn eliminated_at(&self, x: int, y: int) -> bool {
        &&& self.cell(x, y).is_single()
        &&& forall|i: int, j: int|
            on_grid(i, j) && peers(x, y, i, j) && (#[trigger] self.cell(i, j)).has(self.cell(x, y).value())
                ==> self.cell(i, j).is_single()
    }

    /// Every cell projected in `self` but not in `base` has had its digit
    /// removed from its open peers.
    pub open spec fn projected_since(&self, base: Sudoku) -> bool {
        forall|x: int, y: int|
            on_grid(x, y) && (#[trigger] self.cell(x, y)).is_projected() && !base.cell(x, y).is_projected()
                ==> self.eliminated_at(x, y)
    }

    /// No solution that the grid admits puts `d` at (x, y).
    pub open spec fn excludable(&self, x: int, y: int, d: int) -> bool {
        forall|s: Seq<int>| #[trigger] self.admits(s) ==> at(s, x, y) != d
    }

    /// Every determined cell has been projected.
    pub open spec fn all_projected(&self) -> bool {
        forall|x: int, y: int|
            on_grid(x, y) && (#[trigger] self.cell(x, y)).is_single() ==> self.cell(
                x,
                y,
            ).is_projected()
    }

    /// No propagation technique would change the grid: every determined cell
    /// is projected, and there is neither a hidden single nor a line-reduction.
    pub open spec fn at_fixpoint(&self) -> bool {
        &&& self.all_projected()
        &&& self.no_hidden_single()
        &&& self.no_line_reduction()
    }

    /// Number of candidates over the whole grid.
    pub open spec fn total(&self) -> nat {
        total_upto(*self, 81)
    }

    /// A grid with the same cells is a step without progress.
    pub proof fn lemma_step_refl(a: Sudoku, b: Sudoku)
        requires
            a.wf(),
            b@ == a@,
        ensures
            b.step_from(a, false),
    {
        assert forall|x: int, y: int| on_grid(x, y) implies #[trigger] b.cell(x, y) == a.cell(x, y) by {}
        assert forall|s: Seq<int>| a.admits(s) implies #[trigger] b.admits(s) by {
            assert forall|x: int, y: int| on_grid(x, y) implies (#[trigger] b.cell(x, y)).has(at(s, x, y)) by {
                assert(a.cell(x, y).has(at(s, x, y)));
            }
        }
    }

    /// Two narrowings in a row make one, with progress if either made some.
    pub proof fn lemma_narrowed_trans(a: Sudoku, b: Sudoku, c: Sudoku, p1: bool, p2: bool)
        requires
            b.narrowed_from(a, p1),
            c.narrowed_from(b, p2),
        ensures
            c.narrowed_from(a, p1 || p2),
    {
        if c.shrunk_from(a) {
            let (x, y, d) = choose|x: int, y: int, d: int|
                on_grid(x, y) && a.cell(x, y).has(d) && !(#[trigger] c.cell(x, y).has(d));
            if b.cell(x, y).has(d) {
                assert(c.shrunk_from(b));
            } else {
                assert(b.shrunk_from(a));
            }
        }
        if b.shrunk_from(a) {
            let (x, y, d) = choose|x: int, y: int, d: int|
                on_grid(x, y) && a.cell(x, y).has(d) && !(#[trigger] b.cell(x, y).has(d));
            assert(!c.cell(x, y).has(d));
        }
        if c.shrunk_from(b) {
            let (x, y, d) = choose|x: int, y: int, d: int|
                on_grid(x, y) && b.cell(x, y).has(d) && !(#[trigger] c.cell(x, y).has(d));
            assert(a.cell(x, y).has(d));
        }
    }

    /// Two steps in a row make one step, with progress if either made some.
    pub proof fn lemma_step_trans(a: Sudoku, b: Sudoku, c: Sudoku, p1: bool, p2: bool)
        requires
            b.step_from(a, p1),
            c.step_from(b, p2),
        ensures
            c.step_from(a, p1 || p2),
    {
        Sudoku::lemma_narrowed_trans(a, b, c, p1, p2);
    }

    /// A grid that projects no cell that `base` did not is projected since `base`.
    pub proof fn lemma_projected_since_none(base: Sudoku, g: Sudoku)
        requires
            forall|x: int, y: int|
                on_grid(x, y) && (#[trigger] g.cell(x, y)).is_projected() ==> base.cell(x, y).is_projected(),
        ensures
            g.projected_since(base),
    {
    }

    /// Eliminations done since `a` and since `b` make eliminations done since
    /// `a`, as long as `c` only narrows `b`.
    pub proof fn lemma_projected_since_trans(a: Sudoku, b: Sudoku, c: Sudoku, p: bool)
        requires
            b.projected_since(a),
            c.projected_since(b),
            c.narrowed_from(b, p),
        ensures
            c.projected_since(a),
    {
        assert forall|x: int, y: int|
            on_grid(x, y) && (#[trigger] c.cell(x, y)).is_projected() && !a.cell(x, y).is_projected()
                implies c.eliminated_at(x, y) by {
            if b.cell(x, y).is_projected() {
                assert(b.eliminated_at(x, y));
                Field::lemma_narrow_single(b.cell(x, y), c.cell(x, y));
                assert forall|i: int, j: int|
                    on_grid(i, j) && peers(x, y, i, j) && (#[trigger] c.cell(i, j)).has(c.cell(x, y).value())
                        implies c.cell(i, j).is_single() by {
                    assert(b.cell(i, j).has(b.cell(x, y).value()));
                    Field::lemma_narrow_single(b.cell(i, j), c.cell(i, j));
                }
            }
        }
    }

    /// A grid that admits a solution has no conflict among its determined cells.
    pub proof fn lemma_admits_sound(g: Sudoku, s: Seq<int>)
        requires
            g.wf(),
            g.admits(s),
        ensures
            g.sound(),
            g.extended_by(s),
    {
        assert forall|x: int, y: int| on_grid(x, y) && (#[trigger] g.cell(x, y)).is_single() implies at(
            s,
            x,
            y,
        ) == g.cell(x, y).value() by {
            assert(g.cell(x, y).has(at(s, x, y)));
        }
        assert forall|x: int, y: int| on_grid(x, y) && (#[trigger] g.cell(x, y)).is_single() implies g.valid_at(
            x,
            y,
        ) by {
            assert forall|i: int, j: int|
                on_grid(i, j) && peers(x, y, i, j) && (#[trigger] g.cell(i, j)).is_single() implies g.cell(
                i,
                j,
            ).value() != g.cell(x, y).value() by {
                assert(at(s, i, j) == g.cell(i, j).value());
                assert(at(s, x, y) == g.cell(x, y).value());
            }
        }
    }

    /// A determined cell's digit can be removed from its peers.
    pub proof fn lemma_peer_excludable(g: Sudoku, x: int, y: int, i: int, j: int)
        requires
            g.wf(),
            on_grid(x, y),
            on_grid(i, j),
            peers(x, y, i, j),
            g.cell(x, y).is_single(),
        ensures
            g.excludable(i, j, g.cell(x, y).value()),
    {
        assert forall|s: Seq<int>| #[trigger] g.admits(s) implies at(s, i, j) != g.cell(x, y).value() by {
            assert(g.cell(x, y).has(at(s, x, y)));
        }
    }

    /// A grid with the same candidates everywhere, and no projection undone,
    /// is a step without progress.
    pub proof fn lemma_same_cands_step(a: Sudoku, b: Sudoku)
        requires
            a.wf(),
            b@.len() == 81,
            forall|x: int, y: int| on_grid(x, y) ==> (#[trigger] b.cell(x, y)).same_cands(a.cell(x, y)),
            b.keeps_projections(a),
        ensures
            b.step_from(a, false),
    {
        assert forall|x: int, y: int| on_grid(x, y) implies (#[trigger] b.cell(x, y)).nonempty() by {
            let d = choose|d: int| a.cell(x, y).has(d);
            assert(b.cell(x, y).has(d));
        }
        assert forall|s: Seq<int>| a.admits(s) implies #[trigger] b.admits(s) by {
            assert forall|x: int, y: int| on_grid(x, y) implies (#[trigger] b.cell(x, y)).has(at(s, x, y)) by {
                assert(a.cell(x, y).has(at(s, x, y)));
            }
        }
        if b.shrunk_from(a) {
            let (x, y, d) = choose|x: int, y: int, d: int|
                on_grid(x, y) && a.cell(x, y).has(d) && !(#[trigger] b.cell(x, y).has(d));
        }
    }

    /// After a step without progress, every cell has the candidates it had.
    pub proof fn lemma_no_shrink(a: Sudoku, b: Sudoku, x: int, y: int)
        requires
            b.step_from(a, false),
            on_grid(x, y),
        ensures
            b.cell(x, y).same_cands(a.cell(x, y)),
            b.cell(x, y).is_single() == a.cell(x, y).is_single(),
            b.cell(x, y).is_single() ==> b.cell(x, y).value() == a.cell(x, y).value(),
    {
        assert forall|d: int| #[trigger] b.cell(x, y).has(d) == a.cell(x, y).has(d) by {
            if a.cell(x, y).has(d) && !b.cell(x, y).has(d) {
                assert(b.shrunk_from(a));
            }
        }
        Field::lemma_same_cands(b.cell(x, y), a.cell(x, y));
    }

    /// Narrowing never raises the number of candidates, and lowers it when a
    /// candidate goes.
    pub proof fn lemma_total_narrow(a: Sudoku, b: Sudoku)
        requires
            a.wf(),
            b.wf(),
            b.narrows(a),
        ensures
            b.total() <= a.total(),
            b.shrunk_from(a) ==> b.total() < a.total(),
    {
        assert forall|k: int| 0 <= k < 81 implies (#[trigger] b@[k]).narrows(a@[k]) by {
            assert(idx(k % 9, k / 9) == k);
            assert(b.cell(k % 9, k / 9).narrows(a.cell(k % 9, k / 9)));
        }
        lemma_total_upto(a, b, 81, -1);
        if b.shrunk_from(a) {
            let (x, y, d) = choose|x: int, y: int, d: int|
                on_grid(x, y) && a.cell(x, y).has(d) && !(#[trigger] b.cell(x, y).has(d));
            lemma_total_upto(a, b, 81, idx(x, y));
        }
    }

    /// Builds a grid from nine lines of text: a digit from '1' to '9' fixes its
    /// cell, any other character leaves the cell open. Lines after the ninth,
    /// and characters after the ninth of a line, are ignored.
    pub fn new(lines: &Vec<Vec<char>>) -> (r: Result<Sudoku, SudokuError>)
        ensures
            r == Err::<Sudoku, SudokuError>(SudokuError::FormatError) <==> !well_formed(
                text_of(lines@),
            ),
            r == Err::<Sudoku, SudokuError>(SudokuError::PuzzleContradiction) <==> well_formed(
                text_of(lines@),
            ) && !clues_agree(text_of(lines@)),
            r matches Ok(g) ==> {
                let ls = text_of(lines@);
                &&& g.wf()
                &&& g.sound()
                &&& forall|x: int, y: int|
                    on_grid(x, y) ==> !(#[trigger] g.cell(x, y)).is_projected() && (if clue(
                        ls,
                        x,
                        y,
                    ) == 0 {
                        g.cell(x, y).is_full()
                    } else {
                        g.cell(x, y).is_single() && g.cell(x, y).value() == clue(ls, x, y)
                    })
            },
    {
        let ghost ls = text_of(lines@);
        if lines.len() < 9 {
            return Err(SudokuError::FormatError);
        }
        let mut y: usize = 0;
        while y < 9
            invariant
                y <= 9,
                lines.len() >= 9,
                ls == text_of(lines@),
                forall|j: int| 0 <= j < y ==> (#[trigger] ls[j]).len() >= 9,
            decreases 9 - y,
        {
            assert(ls[y as int] == lines@[y as int]@);
            if lines[y].len() < 9 {
                return Err(SudokuError::FormatError);
            }
            y += 1;
        }
        let mut fields: Vec<Field> = Vec::new();
        let mut k: usize = 0;
        while k < 81
            invariant
                k <= 81,
                fields@.len() == k,
                forall|i: int| 0 <= i < k ==> (#[trigger] fields@[i]).is_full() && !fields@[i].is_projected(),
            decreases 81 - k,
        {
            fields.push(Field::new());
            k += 1;
        }
        let mut y: usize = 0;
        while y < 9
            invariant
                y <= 9,
                well_formed(ls),
                ls == text_of(lines@),
                fields@.len() == 81,
                forall|i: int, j: int|
                    on_grid(i, j) ==> !(#[trigger] fields@[idx(i, j)]).is_projected() && (if j >= y
                        || clue(ls, i, j) == 0 {
                        fields@[idx(i, j)].is_full()
                    } else {
                        fields@[idx(i, j)].is_single() && fields@[idx(i, j)].value() == clue(ls, i, j)
                    }),
            decreases 9 - y,
        {
            let mut x: usize = 0;
            while x < 9
                invariant
                    x <= 9,
                    y < 9,
                    well_formed(ls),
                    ls == text_of(lines@),
                    fields@.len() == 81,
                    forall|i: int, j: int|
                        on_grid(i, j) ==> !(#[trigger] fields@[idx(i, j)]).is_projected() && (if j > y
                            || (j == y && i >= x) || clue(ls, i, j) == 0 {
                            fields@[idx(i, j)].is_full()
                        } else {
                            fields@[idx(i, j)].is_single() && fields@[idx(i, j)].value() == clue(
                                ls,
                                i,
                                j,
                            )
                        }),
                decreases 9 - x,
            {
                assert(ls[y as int] == lines@[y as int]@);
                let c = lines[y][x];
                if '1' <= c && c <= '9' {
                    let d = (c as u32 - '0' as u32) as usize;
                    let mut f = fields[9 * y + x];
                    f.set_number(d);
                    fields.set(9 * y + x, f);
                }
                x += 1;
            }
            y += 1;
        }
        let g = Sudoku { fields };
        proof {
            assert forall|x: int, y: int| on_grid(x, y) implies (#[trigger] g.cell(x, y)).nonempty() by {
                assert(g.cell(x, y).has(g.cell(x, y).value()) || g.cell(x, y).has(1));
            }
        }
        if !g.check_sound() {
            proof {
                let (x1, y1) = choose|x1: int, y1: int|
                    on_grid(x1, y1) && (#[trigger] g.cell(x1, y1)).is_single() && !g.valid_at(x1, y1);
                let (x2, y2) = choose|x2: int, y2: int|
                    on_grid(x2, y2) && peers(x1, y1, x2, y2) && (#[trigger] g.cell(x2, y2)).is_single()
                        && g.cell(x2, y2).value() == g.cell(x1, y1).value();
                if clue(ls, x1, y1) == 0 {
                    assert(g.cell(x1, y1).has(1) && g.cell(x1, y1).has(2));
                }
                if clue(ls, x2, y2) == 0 {
                    assert(g.cell(x2, y2).has(1) && g.cell(x2, y2).has(2));
                }
                assert(clue(ls, x2, y2) == clue(ls, x1, y1));
            }
            return Err(SudokuError::PuzzleContradiction);
        }
        proof {
            assert forall|x1: int, y1: int, x2: int, y2: int|
                on_grid(x1, y1) && on_grid(x2, y2) && peers(x1, y1, x2, y2) && #[trigger] clue(
                    ls,
                    x1,
                    y1,
                ) != 0 implies clue(ls, x1, y1) != #[trigger] clue(ls, x2, y2) by {
                assert(g.cell(x1, y1).is_single());
                assert(g.valid_at(x1, y1));
                if clue(ls, x2, y2) != 0 {
                    assert(g.cell(x2, y2).is_single());
                }
            }
        }
        Ok(g)
    }

    /// The top-left cell of the box that holds (x, y).
    pub fn get_corner(x: usize, y: usize) -> (r: (usize, usize))
        requires
            x < 9,
            y < 9,
        ensures
            r.0 == 3 * (x / 3),
            r.1 == 3 * (y / 3),
    {
        ((x / 3) * 3, (y / 3) * 3)
    }

    /// The cell in column `x` and row `y`.
    pub fn get(&self, x: usize, y: usize) -> (r: &Field)
        requires
            self.wf(),
            x < 9,
            y < 9,
        ensures
            *r == self.cell(x as int, y as int),
    {
        &self.fields[9 * y + x]
    }

    /// The cell in column `x` and row `y`, to change it.
    pub fn get_mut(&mut self, x: usize, y: usize) -> (r: &mut Field)
        requires
            old(self).wf(),
            x < 9,
            y < 9,
        ensures
            *r == old(self).cell(x as int, y as int),
            final(self)@ == old(self)@.update(idx(x as int, y as int), *final(r)),
    {
        &mut self.fields[9 * y + x]
    }

    /// Removes `d` from the cell at (x, y), unless that cell is determined;
    /// returns whether a candidate was removed.
    pub fn exclude(&mut self, x: usize, y: usize, d: usize) -> (r: bool)
        requires
            old(self).wf(),
            x < 9,
            y < 9,
            1 <= d <= 9,
        ensures
            r == (!old(self).cell(x as int, y as int).is_single() && old(self).cell(
                x as int,
                y as int,
            ).has(d as int)),
            !r ==> *final(self) == *old(self),
            final(self).wf(),
            final(self).narrows(*old(self)),
            final(self).keeps_projections(*old(self)),
            r == final(self).shrunk_from(*old(self)),
            forall|i: int, j: int|
                on_grid(i, j) && !(i == x && j == y) ==> #[trigger] final(self).cell(i, j)
                    == old(self).cell(i, j),
            forall|e: int|
                #[trigger] final(self).cell(x as int, y as int).has(e) == (old(self).cell(
                    x as int,
                    y as int,
                ).has(e) && !(r && e == d)),
            final(self).cell(x as int, y as int).removed_from(old(self).cell(x as int, y as int), d as int),
            forall|s: Seq<int>|
                old(self).admits(s) && at(s, x as int, y as int) != d
                    ==> #[trigger] final(self).admits(s),
            old(self).excludable(x as int, y as int, d as int) ==> final(self).step_from(
                *old(self),
                r,
            ),
            final(self).projected_since(*old(self)),
    {
        let ghost g0 = *self;
        if self.get(x, y).number_found() || !self.get(x, y).allows(d) {
            proof {
                Sudoku::lemma_step_refl(g0, *self);
            }
            return false;
        }
        let r = self.get_mut(x, y).cannot_be(d);
        proof {
            let f0 = g0.cell(x as int, y as int);
            let f1 = self.cell(x as int, y as int);
            assert forall|i: int, j: int|
                on_grid(i, j) && !(i == x && j == y) implies #[trigger] self.cell(i, j) == g0.cell(
                i,
                j,
            ) by {
                assert(idx(i, j) != idx(x as int, y as int));
            }
            if f0.is_single() {
                assert(f1 == f0);
            }
            assert(self.cell(x as int, y as int).nonempty()) by {
                if !f0.is_single() && f0.has(d as int) {
                    assert(f0.has(f0.value()));
                    if f0.value() == d {
                        let e2 = choose|e2: int| f0.has(e2) && e2 != f0.value();
                        assert(f1.has(e2));
                    } else {
                        assert(f1.has(f0.value()));
                    }
                } else {
                    let e = choose|e: int| f0.has(e);
                    assert(f1.has(e));
                }
            }
            assert(r);
            assert(!self.cell(x as int, y as int).has(d as int));
            assert forall|i: int, j: int|
                on_grid(i, j) && (#[trigger] self.cell(i, j)).is_projected() implies g0.cell(i, j).is_projected() by {
                if !(i == x && j == y) {
                    assert(self.cell(i, j) == g0.cell(i, j));
                }
            }
            Sudoku::lemma_projected_since_none(g0, *self);
            if g0.excludable(x as int, y as int, d as int) {
                assert forall|s: Seq<int>| g0.admits(s) implies #[trigger] self.admits(s) by {
                    assert(at(s, x as int, y as int) != d);
                }
            }
        }
        r
    }

    /// Runs the three propagation techniques, each of them on every pass,
    /// until a pass removes no candidate; then fails if two determined cells of
    /// one row, column or box hold the same digit.
    pub fn fast_solve(&mut self) -> (r: Result<(), SudokuError>)
        requires
            old(self).wf(),
        ensures
            propagated(*old(self), *final(self), r is Ok),
            r is Err ==> r == Err::<(), SudokuError>(SudokuError::PuzzleContradiction),
            r is Err ==> forall|s: Seq<int>| !#[trigger] old(self).admits(s),
            (exists|s: Seq<int>| #[trigger] old(self).admits(s)) ==> r is Ok,
    {
        let ghost g0 = *self;
        let mut progress = true;
        proof {
            Sudoku::lemma_step_refl(g0, *self);
        }
        while progress
            invariant
                self.step_from(g0, self.shrunk_from(g0)),
                !progress ==> self.at_fixpoint(),
                g0.at_fixpoint() ==> *self == g0,
                self.projected_since(g0),
            decreases self.total() + if progress { 1nat } else { 0nat },
        {
            let ghost g1 = *self;
            let a = self.project_numbers();
            let ghost g2 = *self;
            let b = self.detect_uniques();
            let ghost g3 = *self;
            let c = self.project_lines();
            proof {
                Sudoku::lemma_step_trans(g1, g2, g3, a, b);
                Sudoku::lemma_step_trans(g1, g3, *self, a || b, c);
                Sudoku::lemma_step_trans(g0, g1, *self, g1.shrunk_from(g0), a || b || c);
                Sudoku::lemma_projected_since_trans(g0, g1, g2, a);
                Sudoku::lemma_projected_since_trans(g0, g2, g3, b);
                Sudoku::lemma_projected_since_trans(g0, g3, *self, c);
                Sudoku::lemma_total_narrow(g1, *self);
            }
            progress = a || b || c;
        }
        if !self.check_sound() {
            proof {
                assert forall|s: Seq<int>| !#[trigger] g0.admits(s) by {
                    if g0.admits(s) {
                        Sudoku::lemma_admits_sound(*self, s);
                    }
                }
            }
            return Err(SudokuError::PuzzleContradiction);
        }
        Ok(())
    }

    /// Whether every cell holds exactly one digit.
    pub fn is_completed(&self) -> (r: bool)
        requires
            self.wf(),
        ensures
            r == self.is_complete(),
    {
        let mut y: usize = 0;
        while y < 9
            invariant
                y <= 9,
                self.wf(),
                forall|i: int, j: int|
                    0 <= i < 9 && 0 <= j < y ==> (#[trigger] self.cell(i, j)).is_single(),
            decreases 9 - y,
        {
            let mut x: usize = 0;
            while x < 9
                invariant
                    x <= 9,
                    y < 9,
                    self.wf(),
                    forall|i: int, j: int|
                        ((0 <= i < 9 && 0 <= j < y) || (0 <= i < x && j == y)) ==> (#[trigger] self.cell(
                            i,
                            j,
                        )).is_single(),
                decreases 9 - x,
            {
                if !self.get(x, y).number_found() {
                    return false;
                }
                x += 1;
            }
            y += 1;
        }
        true
    }

    /// Whether the digit of the determined cell at (x, y) differs from those
    /// of its determined peers.
    pub fn is_valid(&self, x: usize, y: usize) -> (r: bool)
        requires
            self.wf(),
            x < 9,
            y < 9,
            self.cell(x as int, y as int).is_single(),
        ensures
            r == self.valid_at(x as int, y as int),
    {
        let number = self.get(x, y).get_number();
        let mut i: usize = 0;
        while i < 9
            invariant
                i <= 9,
                x < 9,
                y < 9,
                self.wf(),
                number == self.cell(x as int, y as int).value(),
                forall|k: int|
                    0 <= k < i && k != x && (#[trigger] self.cell(k, y as int)).is_single()
                        ==> self.cell(k, y as int).value() != number,
            decreases 9 - i,
        {
            if i != x && self.get(i, y).number_found() && self.get(i, y).get_number() == number {
                return false;
            }
            i += 1;
        }
        let mut i: usize = 0;
        while i < 9
            invariant
                i <= 9,
                x < 9,
                y < 9,
                self.wf(),
                number == self.cell(x as int, y as int).value(),
                forall|k: int|
                    0 <= k < i && k != y && (#[trigger] self.cell(x as int, k)).is_single()
                        ==> self.cell(x as int, k).value() != number,
            decreases 9 - i,
        {
            if i != y && self.get(x, i).number_found() && self.get(x, i).get_number() == number {
                return false;
            }
            i += 1;
        }
        let (cx, cy) = Sudoku::get_corner(x, y);
        let mut ox: usize = 0;
        while ox < 3
            invariant
                ox <= 3,
                x < 9,
                y < 9,
                cx == 3 * (x / 3),
                cy == 3 * (y / 3),
                self.wf(),
                number == self.cell(x as int, y as int).value(),
                forall|i: int, j: int|
                    cx <= i < cx + ox && cy <= j < cy + 3 && !(i == x && j == y)
                        && (#[trigger] self.cell(i, j)).is_single() ==> self.cell(i, j).value() != number,
            decreases 3 - ox,
        {
            let mut oy: usize = 0;
            while oy < 3
                invariant
                    ox < 3,
                    oy <= 3,
                    x < 9,
                    y < 9,
                    cx == 3 * (x / 3),
                    cy == 3 * (y / 3),
                    self.wf(),
                    number == self.cell(x as int, y as int).value(),
                    forall|i: int, j: int|
                        ((cx <= i < cx + ox && cy <= j < cy + 3) || (i == cx + ox && cy <= j < cy
                            + oy)) && !(i == x && j == y) && (#[trigger] self.cell(i, j)).is_single()
                            ==> self.cell(i, j).value() != number,
                decreases 3 - oy,
            {
                if cx + ox != x || cy + oy != y {
                    if self.get(cx + ox, cy + oy).number_found() && self.get(cx + ox, cy + oy).get_number()
                        == number {
                        return false;
                    }
                }
                oy += 1;
            }
            ox += 1;
        }
        proof {
            assert forall|i: int, j: int|
                on_grid(i, j) && peers(x as int, y as int, i, j) && (#[trigger] self.cell(
                    i,
                    j,
                )).is_single() implies self.cell(i, j).value() != self.cell(
                x as int,
                y as int,
            ).value() by {
                if j == y {
                } else if i == x {
                } else {
                    assert(cx <= i < cx + 3 && cy <= j < cy + 3);
                }
            }
        }
        true
    }

    /// Whether no row, column or box holds two determined cells with one digit.
    pub fn check_sound(&self) -> (r: bool)
        requires
            self.wf(),
        ensures
            r == self.sound(),
    {
        let mut y: usize = 0;
        while y < 9
            invariant
                y <= 9,
                self.wf(),
                forall|i: int, j: int|
                    0 <= i < 9 && 0 <= j < y && (#[trigger] self.cell(i, j)).is_single()
                        ==> self.valid_at(i, j),
            decreases 9 - y,
        {
            let mut x: usize = 0;
            while x < 9
                invariant
                    x <= 9,
                    y < 9,
                    self.wf(),
                    forall|i: int, j: int|
                        ((0 <= i < 9 && 0 <= j < y) || (0 <= i < x && j == y)) && (
                        #[trigger] self.cell(i, j)).is_single() ==> self.valid_at(i, j),
                decreases 9 - x,
            {
                if self.get(x, y).number_found() && !self.is_valid(x, y) {
                    return false;
                }
                x += 1;
            }
            y += 1;
        }
        true
    }
}

} // verus!
