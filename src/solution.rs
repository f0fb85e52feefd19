//! Complete assignments of digits, and the fact that each row, column and box
//! of one holds every digit.
use vstd::prelude::*;
use crate::sudoku::{idx, on_grid, peers};

verus! {

/// The digit of an assignment at column `x`, row `y`.
pub open spec fn at(s: Seq<int>, x: int, y: int) -> int {
    s[idx(x, y)]
}

/// A complete assignment of digits that breaks no row, column or box.
pub open spec fn is_solution(s: Seq<int>) -> bool {
    &&& s.len() == 81
    &&& forall|x: int, y: int| on_grid(x, y) ==> 1 <= #[trigger] at(s, x, y) <= 9
    &&& forall|x1: int, y1: int, x2: int, y2: int|
        on_grid(x1, y1) && on_grid(x2, y2) && peers(x1, y1, x2, y2) ==> #[trigger] at(s, x1, y1)
            != #[trigger] at(s, x2, y2)
}

/// The `k`-th cell (0 to 8) of a unit through (x, y): its column for kind 0,
/// its row for kind 1, its box for kind 2.
pub open spec fn unit_pos(kind: int, x: int, y: int, k: int) -> (int, int) {
    if kind == 0 {
        (x, k)
    } else if kind == 1 {
        (k, y)
    } else {
        (3 * (x / 3) + k / 3, 3 * (y / 3) + k % 3)
    }
}

/// The digits of a unit of a solution, in the order of `unit_pos`.
pub open spec fn unit_values(s: Seq<int>, kind: int, x: int, y: int) -> Seq<int> {
    Seq::new(9, |k: int| at(s, unit_pos(kind, x, y, k).0, unit_pos(kind, x, y, k).1))
}

/// The cells of a unit lie on the grid, are distinct, and are peers of
/// (x, y) but for (x, y) itself.
pub proof fn lemma_unit_pos(kind: int, x: int, y: int, k: int)
    requires
        0 <= kind < 3,
        on_grid(x, y),
        0 <= k < 9,
    ensures
        on_grid(unit_pos(kind, x, y, k).0, unit_pos(kind, x, y, k).1),
        unit_pos(kind, x, y, k) != (x, y) ==> peers(
            x,
            y,
            unit_pos(kind, x, y, k).0,
            unit_pos(kind, x, y, k).1,
        ),
        forall|k2: int|
            0 <= k2 < 9 && k2 != k ==> #[trigger] unit_pos(kind, x, y, k2) != unit_pos(kind, x, y, k),
{
}

/// Every unit of a solution holds every digit.
pub proof fn lemma_unit_covers(s: Seq<int>, kind: int, x: int, y: int, d: int)
    requires
        is_solution(s),
        0 <= kind < 3,
        on_grid(x, y),
        1 <= d <= 9,
    ensures
        exists|k: int|
            0 <= k < 9 && at(s, unit_pos(kind, x, y, k).0, unit_pos(kind, x, y, k).1) == d,
{
    let vals = unit_values(s, kind, x, y);
    assert forall|k1: int, k2: int| 0 <= k1 < 9 && 0 <= k2 < 9 && k1 != k2 implies vals[k1]
        != vals[k2] by {
        lemma_unit_pos(kind, x, y, k1);
        lemma_unit_pos(kind, x, y, k2);
        let (i1, j1) = unit_pos(kind, x, y, k1);
        let (i2, j2) = unit_pos(kind, x, y, k2);
        assert(peers(i1, j1, i2, j2));
    }
    assert(vals.no_duplicates());
    vals.unique_seq_to_set();
    let range = vstd::set_lib::set_int_range(1, 10);
    vstd::set_lib::lemma_int_range(1, 10);
    assert forall|v: int| vals.to_set().contains(v) implies range.contains(v) by {
        let k = choose|k: int| 0 <= k < vals.len() && vals[k] == v;
        lemma_unit_pos(kind, x, y, k);
    }
    vstd::set_lib::lemma_len_subset(vals.to_set(), range);
    vstd::set_lib::lemma_subset_equality(vals.to_set(), range);
    assert(range.contains(d));
    assert(vals.to_set().contains(d));
    let k = choose|k: int| 0 <= k < vals.len() && vals[k] == d;
    assert(at(s, unit_pos(kind, x, y, k).0, unit_pos(kind, x, y, k).1) == d);
}

} // verus!
