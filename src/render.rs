//! The grid as text.
use vstd::prelude::*;
use crate::field::Field;
use crate::sudoku::Sudoku;

verus! {

/// The character of a digit from 1 to 9.
pub open spec fn digit_char(v: int) -> char {
    if v == 1 {
        '1'
    } else if v == 2 {
        '2'
    } else if v == 3 {
        '3'
    } else if v == 4 {
        '4'
    } else if v == 5 {
        '5'
    } else if v == 6 {
        '6'
    } else if v == 7 {
        '7'
    } else if v == 8 {
        '8'
    } else {
        '9'
    }
}

/// How a cell is shown: its digit when determined, a blank otherwise.
pub open spec fn cell_char(f: Field) -> char {
    if f.is_single() {
        digit_char(f.value())
    } else {
        ' '
    }
}

/// The first `n` cells of row `y`, with a '|' before columns 3 and 6.
pub open spec fn row_prefix(g: Sudoku, y: int, n: int) -> Seq<char>
    decreases n,
{
    if n <= 0 {
        seq![]
    } else {
        row_prefix(g, y, n - 1) + (if n - 1 == 3 || n - 1 == 6 {
            seq!['|']
        } else {
            seq![]
        }) + seq![cell_char(g.cell(n - 1, y))]
    }
}

/// The line between bands of boxes.
pub open spec fn separator() -> Seq<char> {
    Seq::new(12, |i: int| '-') + seq!['\n']
}

/// The first `n` rows, each ending in a newline, with a separator line
/// before rows 3 and 6.
pub open spec fn text_prefix(g: Sudoku, n: int) -> Seq<char>
    decreases n,
{
    if n <= 0 {
        seq![]
    } else {
        text_prefix(g, n - 1) + (if n - 1 == 3 || n - 1 == 6 {
            separator()
        } else {
            seq![]
        }) + row_prefix(g, n - 1, 9) + seq!['\n']
    }
}

/// The text of a grid.
pub open spec fn rendered(g: Sudoku) -> Seq<char> {
    text_prefix(g, 9)
}

/// Relies on `String::from_iter` over `&char`: collecting characters gives the
/// string of exactly those characters, in order.
#[verifier::external_body]
fn string_of(chars: &Vec<char>) -> (r: String)
    ensures
        r@ == chars@,
{
    String::from_iter(chars)
}

/// The character of a digit from 1 to 9.
fn digit_char_of(v: usize) -> (c: char)
    requires
        1 <= v <= 9,
    ensures
        c == digit_char(v as int),
{
    if v == 1 {
        '1'
    } else if v == 2 {
        '2'
    } else if v == 3 {
        '3'
    } else if v == 4 {
        '4'
    } else if v == 5 {
        '5'
    } else if v == 6 {
        '6'
    } else if v == 7 {
        '7'
    } else if v == 8 {
        '8'
    } else {
        '9'
    }
}

impl Sudoku {
    /// The grid as text: nine rows of nine characters, a digit for a
    /// determined cell and a blank otherwise, a '|' after the third and sixth
    /// column, and a line of twelve '-' after the third and sixth row.
    pub fn render(&self) -> (r: String)
        requires
            self.wf(),
        ensures
            r@ == rendered(*self),
    {
        let mut out: Vec<char> = Vec::new();
        let mut y: usize = 0;
        while y < 9
            invariant
                y <= 9,
                self.wf(),
                out@ == text_prefix(*self, y as int),
            decreases 9 - y,
        {
            let ghost before = out@;
            if y == 3 || y == 6 {
                let mut i: usize = 0;
                while i < 12
                    invariant
                        i <= 12,
                        out@ == before + Seq::new(i as nat, |k: int| '-'),
                    decreases 12 - i,
                {
                    out.push('-');
                    i += 1;
                    assert(out@ =~= before + Seq::new(i as nat, |k: int| '-'));
                }
                out.push('\n');
                assert(out@ =~= before + separator());
            }
            let ghost start = out@;
            let mut x: usize = 0;
            while x < 9
                invariant
                    x <= 9,
                    y < 9,
                    self.wf(),
                    out@ == start + row_prefix(*self, y as int, x as int),
                decreases 9 - x,
            {
                if x == 3 || x == 6 {
                    out.push('|');
                }
                let f = self.get(x, y);
                let c = if f.number_found() {
                    digit_char_of(f.get_number())
                } else {
                    ' '
                };
                out.push(c);
                x += 1;
                assert(out@ =~= start + row_prefix(*self, y as int, x as int));
            }
            out.push('\n');
            y += 1;
            assert(out@ =~= text_prefix(*self, y as int));
        }
        string_of(&out)
    }

}

} // verus!
