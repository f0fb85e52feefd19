use sudoku::brute_force::BruteForce;
use sudoku::field::Field;
use sudoku::project_lines::ProjectLines;
use sudoku::sudoku::{Sudoku, SudokuError};

fn lines(rows: &[&str]) -> Vec<Vec<char>> {
    rows.iter().map(|r| r.chars().collect()).collect()
}

fn grid(rows: &[&str]) -> Sudoku {
    Sudoku::new(&lines(rows)).unwrap()
}

fn text(rows: &[&str]) -> String {
    let mut out = String::new();
    for (y, row) in rows.iter().enumerate() {
        if y == 3 || y == 6 {
            out.push_str("------------\n");
        }
        for (x, c) in row.chars().enumerate() {
            if x == 3 || x == 6 {
                out.push('|');
            }
            out.push(c);
        }
        out.push('\n');
    }
    out
}

fn candidates(s: &Sudoku, x: usize, y: usize) -> Vec<usize> {
    (1..10).filter(|&d| s.get(x, y).allows(d)).collect()
}

fn digit(s: &Sudoku, x: usize, y: usize) -> Option<usize> {
    if s.get(x, y).number_found() {
        Some(s.get(x, y).get_number())
    } else {
        None
    }
}

fn no_conflict(s: &Sudoku) -> bool {
    for x in 0..9 {
        for y in 0..9 {
            if let Some(v) = digit(s, x, y) {
                for i in 0..9 {
                    for j in 0..9 {
                        let peer = (i, j) != (x, y) && (i == x || j == y || (i / 3 == x / 3 && j / 3 == y / 3));
                        if peer && digit(s, i, j) == Some(v) {
                            return false;
                        }
                    }
                }
            }
        }
    }
    true
}

const SOLVED: [&str; 9] = [
    "534678912", "672195348", "198342567", "859761423", "426853791", "713924856", "961537284", "287419635",
    "345286179",
];

const EASY: [&str; 9] = [
    "53..7....", "6..195...", ".98....6.", "8...6...3", "4..8.3..1", "7...2...6", ".6....28.", "...419..5",
    "....8..79",
];

const WICKED: [&str; 9] = [
    "..9748...", "7........", ".2.1.9...", "..7...24.", ".64.1.59.", ".98...3..", "...8.3.2.", "........6",
    "...2759..",
];

const WICKED_AFTER_PROPAGATION: [&str; 9] = [
    "  9748  2", "7  6 2  9", " 2 1 9   ", "  7986241", "264317598", "198524367", "9  863 2 ", "  2491  6",
    "   2759  ",
];

const WICKED_SOLUTION: [&str; 9] = [
    "519748632", "783652419", "426139875", "357986241", "264317598", "198524367", "975863124", "832491756",
    "641275983",
];

#[test]
fn complete_grid_is_left_alone() {
    let mut s = grid(&SOLVED);
    assert!(s.is_completed());
    let before = s.render();
    assert_eq!(s.fast_solve(), Ok(()));
    assert!(s.is_completed());
    assert_eq!(s.render(), before);
    assert_eq!(before, text(&SOLVED));
}

#[test]
fn easy_grid_is_solved_by_propagation() {
    let mut s = grid(&EASY);
    assert!(!s.is_completed());
    assert_eq!(s.fast_solve(), Ok(()));
    assert!(s.is_completed());
    assert_eq!(s.render(), text(&SOLVED));
}

#[test]
fn wicked_grid_needs_the_search() {
    let mut s = grid(&WICKED);
    assert_eq!(s.fast_solve(), Ok(()));
    assert!(!s.is_completed());
    assert_eq!(s.render(), text(&WICKED_AFTER_PROPAGATION));
    assert!(s.brute_force());
    assert!(s.is_completed());
    assert_eq!(s.render(), text(&WICKED_SOLUTION));
}

#[test]
fn search_alone_solves_the_wicked_grid() {
    let mut s = grid(&WICKED);
    assert!(s.brute_force());
    assert_eq!(s.render(), text(&WICKED_SOLUTION));
}

#[test]
fn search_on_a_solved_grid_succeeds_at_once() {
    let mut s = grid(&SOLVED);
    assert!(s.brute_force());
    assert_eq!(s.render(), text(&SOLVED));
}

#[test]
fn unique_solution_is_reached() {
    let mut s = grid(&EASY);
    assert_eq!(s.fast_solve(), Ok(()));
    if !s.is_completed() {
        assert!(s.brute_force());
    }
    assert!(s.is_completed());
    assert_eq!(s.render(), text(&SOLVED));
}

#[test]
fn duplicate_clue_in_row_is_a_contradiction() {
    let mut rows = EASY;
    rows[0] = "53..7...5";
    assert_eq!(Sudoku::new(&lines(&rows)).err(), Some(SudokuError::PuzzleContradiction));
}

#[test]
fn duplicate_clue_in_column_is_a_contradiction() {
    let mut rows = EASY;
    rows[8] = "5...8..79";
    assert_eq!(Sudoku::new(&lines(&rows)).err(), Some(SudokuError::PuzzleContradiction));
}

#[test]
fn duplicate_clue_in_box_is_a_contradiction() {
    let mut rows = EASY;
    rows[1] = "6.3195...";
    assert_eq!(Sudoku::new(&lines(&rows)).err(), Some(SudokuError::PuzzleContradiction));
}

#[test]
fn short_line_is_a_format_error() {
    let mut rows = EASY;
    rows[4] = "4..8.3..";
    assert_eq!(Sudoku::new(&lines(&rows)).err(), Some(SudokuError::FormatError));
}

#[test]
fn missing_line_is_a_format_error() {
    assert_eq!(Sudoku::new(&lines(&EASY[..8])).err(), Some(SudokuError::FormatError));
}

#[test]
fn empty_input_is_a_format_error() {
    assert_eq!(Sudoku::new(&Vec::new()).err(), Some(SudokuError::FormatError));
}

#[test]
fn format_error_wins_over_a_contradiction() {
    let mut rows = EASY;
    rows[0] = "53..7...5";
    rows[8] = "....8..7";
    assert_eq!(Sudoku::new(&lines(&rows)).err(), Some(SudokuError::FormatError));
}

#[test]
fn extra_lines_and_characters_are_ignored() {
    let mut input = lines(&EASY);
    input[0].extend("12345".chars());
    input.push("999999999".chars().collect());
    let mut s = Sudoku::new(&input).unwrap();
    assert_eq!(s.fast_solve(), Ok(()));
    assert_eq!(s.render(), text(&SOLVED));
}

#[test]
fn other_characters_leave_cells_open() {
    let s = grid(&["0-. x?a#9", ".........", ".........", ".........", ".........", ".........", ".........",
        ".........", "........."]);
    for x in 0..8 {
        assert_eq!(candidates(&s, x, 0), vec![1, 2, 3, 4, 5, 6, 7, 8, 9]);
    }
    assert_eq!(digit(&s, 8, 0), Some(9));
    assert!(!s.get(8, 0).projected());
}

#[test]
fn empty_grid_renders_blanks() {
    let s = grid(&[".........", ".........", ".........", ".........", ".........", ".........",
        ".........", ".........", "........."]);
    let blank = "   |   |   \n";
    let sep = "------------\n";
    let expected = format!("{b}{b}{b}{s}{b}{b}{b}{s}{b}{b}{b}", b = blank, s = sep);
    assert_eq!(s.render(), expected);
    assert_eq!(s.render().len(), 134);
    assert!(!s.is_completed());
}

#[test]
fn corner_of_a_cell() {
    assert_eq!(Sudoku::get_corner(4, 7), (3, 6));
    assert_eq!(Sudoku::get_corner(0, 0), (0, 0));
    assert_eq!(Sudoku::get_corner(8, 8), (6, 6));
    assert_eq!(Sudoku::get_corner(2, 3), (0, 3));
    assert_eq!(Sudoku::get_corner(5, 2), (3, 0));
}

#[test]
fn corner_formula_holds_everywhere() {
    for x in 0..9 {
        for y in 0..9 {
            assert_eq!(Sudoku::get_corner(x, y), (3 * (x / 3), 3 * (y / 3)));
        }
    }
}

#[test]
fn fast_solve_twice_equals_once() {
    let mut s = grid(&WICKED);
    assert_eq!(s.fast_solve(), Ok(()));
    let once: Vec<(Vec<usize>, bool)> =
        (0..81).map(|i| (candidates(&s, i % 9, i / 9), s.get(i % 9, i / 9).projected())).collect();
    assert_eq!(s.fast_solve(), Ok(()));
    let twice: Vec<(Vec<usize>, bool)> =
        (0..81).map(|i| (candidates(&s, i % 9, i / 9), s.get(i % 9, i / 9).projected())).collect();
    assert_eq!(once, twice);
}

#[test]
fn no_conflict_during_and_after_solving() {
    let mut s = grid(&WICKED);
    assert!(no_conflict(&s));
    s.project_numbers();
    assert!(no_conflict(&s));
    s.detect_uniques();
    assert!(no_conflict(&s));
    s.project_lines();
    assert!(no_conflict(&s));
    assert_eq!(s.fast_solve(), Ok(()));
    assert!(no_conflict(&s));
    assert!(s.check_sound());
    assert!(s.brute_force());
    assert!(no_conflict(&s));
}

#[test]
fn each_technique_only_narrows() {
    let mut s = grid(&WICKED);
    let snapshot = |s: &Sudoku| -> Vec<Vec<usize>> { (0..81).map(|i| candidates(s, i % 9, i / 9)).collect() };
    for round in 0..3 {
        let before = snapshot(&s);
        let progress = match round {
            0 => s.project_numbers(),
            1 => s.detect_uniques(),
            _ => s.project_lines(),
        };
        let after = snapshot(&s);
        for i in 0..81 {
            assert!(after[i].iter().all(|d| before[i].contains(d)));
        }
        assert_eq!(progress, before != after);
    }
}

#[test]
fn unsolvable_grid_fails_propagation() {
    let mut s = grid(&["12345678.", "........9", ".........", ".........", ".........", ".........",
        ".........", ".........", "........."]);
    assert_eq!(s.fast_solve(), Err(SudokuError::PuzzleContradiction));
    assert!(!s.check_sound());
}

#[test]
fn unsolvable_grid_fails_the_search() {
    let mut s = grid(&[".12345678", "9........", ".........", ".........", ".........", ".........",
        ".........", ".........", "........."]);
    assert!(!s.brute_force());
    for x in 1..9 {
        assert_eq!(digit(&s, x, 0), Some(x));
    }
    assert_eq!(digit(&s, 0, 1), Some(9));
    assert_eq!(digit(&s, 0, 0), None);
    assert_eq!(candidates(&s, 0, 0), vec![1, 2, 3, 4, 5, 6, 7, 8, 9]);
    assert_eq!(digit(&s, 4, 4), None);
}

#[test]
fn hidden_single_in_a_box_is_assigned() {
    let mut s = grid(&["......12.", "6........", "...6.....", ".........", ".........", ".........",
        ".........", ".........", "........."]);
    s.project_numbers();
    assert_eq!(digit(&s, 8, 0), None);
    let others = s.other_numbers_square(8, 0);
    assert!(!others[5]);
    assert!(others[2]);
    assert!(!s.other_numbers_h(8, 0)[5]);
    assert!(s.other_numbers_h(8, 0)[2]);
    assert!(s.other_numbers_v(8, 0)[5]);
    assert!(s.detect_uniques());
    assert_eq!(digit(&s, 8, 0), Some(6));
    assert!(s.get(8, 0).projected());
    assert!(!s.get(0, 0).allows(6) || digit(&s, 0, 0).is_none());
    assert!(!s.get(7, 1).allows(6));
}

#[test]
fn check_and_assign_needs_exactly_one_survivor() {
    let mut s = grid(&["......12.", "6........", "...6.....", ".........", ".........", ".........",
        ".........", ".........", "........."]);
    s.project_numbers();
    let others = s.other_numbers_square(8, 0);
    assert!(s.check_and_assign(8, 0, &others));
    assert_eq!(digit(&s, 8, 0), Some(6));
    let all = [true; 9];
    assert!(!s.check_and_assign(0, 0, &all));
    let none = [false; 9];
    assert!(!s.check_and_assign(0, 0, &none));
}

#[test]
fn line_reduction_clears_the_rest_of_the_row() {
    let mut s = grid(&[".........", "234......", "567......", ".........", ".........", ".........",
        ".........", ".........", "........."]);
    s.project_numbers();
    assert!(s.get(3, 0).allows(1));
    assert!(s.get(8, 0).allows(1));
    assert!(s.project_lines());
    for x in 3..9 {
        assert!(!s.get(x, 0).allows(1));
    }
    for x in 0..3 {
        assert!(s.get(x, 0).allows(1));
    }
    assert!(s.get(3, 1).allows(1));
}

#[test]
fn elimination_of_one_cell() {
    let mut s = grid(&["5........", ".........", ".........", ".........", ".........", ".........",
        ".........", ".........", "........."]);
    assert!(s.project_number(0, 0));
    assert!(s.get(0, 0).projected());
    assert!(!s.get(8, 0).allows(5));
    assert!(!s.get(0, 8).allows(5));
    assert!(!s.get(2, 2).allows(5));
    assert!(s.get(3, 3).allows(5));
    assert!(!s.project_number(0, 0));
    assert!(!s.project_numbers());
}

#[test]
fn field_starts_full() {
    let f = Field::new();
    assert!(!f.number_found());
    assert!(!f.projected());
    for d in 1..10 {
        assert!(f.allows(d));
    }
}

#[test]
fn field_set_and_get() {
    let mut f = Field::new();
    f.set_number(7);
    assert!(f.number_found());
    assert_eq!(f.get_number(), 7);
    assert!(f.allows(7));
    assert!(!f.allows(6));
}

#[test]
fn field_cannot_be() {
    let mut f = Field::new();
    assert!(f.cannot_be(3));
    assert!(!f.allows(3));
    assert!(!f.cannot_be(3));
    for d in 1..9 {
        if d != 3 {
            assert!(f.cannot_be(d));
        }
    }
    assert!(f.number_found());
    assert_eq!(f.get_number(), 9);
    assert!(!f.cannot_be(9));
    assert!(f.allows(9));
}

#[test]
fn field_reset() {
    let mut f = Field::new();
    f.set_number(2);
    f.reset_possibilities();
    assert!(!f.number_found());
    for d in 1..10 {
        assert!(f.allows(d));
    }
}

#[test]
fn field_steps_through_digits() {
    let mut f = Field::new();
    for d in 1..10 {
        assert!(f.set_next_number());
        assert_eq!(f.get_number(), d);
    }
    assert!(!f.set_next_number());
    assert!(!f.number_found());
    for d in 1..10 {
        assert!(f.allows(d));
    }
}

#[test]
fn get_mut_changes_one_cell() {
    let mut s = grid(&EASY);
    s.get_mut(2, 0).set_number(4);
    assert_eq!(digit(&s, 2, 0), Some(4));
    assert_eq!(digit(&s, 0, 0), Some(5));
    assert_eq!(digit(&s, 3, 0), None);
}

#[test]
fn exclude_skips_determined_cells() {
    let mut s = grid(&EASY);
    assert!(!s.exclude(0, 0, 5));
    assert_eq!(digit(&s, 0, 0), Some(5));
    assert!(s.exclude(2, 0, 1));
    assert!(!s.get(2, 0).allows(1));
    assert!(!s.exclude(2, 0, 1));
}

#[test]
fn cloned_grid_solves_independently() {
    let original = grid(&WICKED);
    let mut copy = original.clone();
    assert_eq!(copy.fast_solve(), Ok(()));
    assert!(copy.brute_force());
    assert!(copy.is_completed());
    assert!(!original.is_completed());
    let blanks: Vec<String> = WICKED.iter().map(|r| r.replace('.', " ")).collect();
    let rows: Vec<&str> = blanks.iter().map(|r| r.as_str()).collect();
    assert_eq!(original.render(), text(&rows));
}

#[test]
fn second_hard_grid_is_completed_by_the_search() {
    let mut s = grid(&["...2...63", "3....54.1", "..1..398.", ".......9.", "...538...", ".3.......", ".263..5..",
        "5.37....8", "47...1..."]);
    assert_eq!(s.fast_solve(), Ok(()));
    assert!(!s.is_completed());
    assert!(s.brute_force());
    assert!(s.is_completed());
    assert!(no_conflict(&s));
    assert_eq!(
        s.render(),
        text(&["854219763", "397865421", "261473985", "785126394", "649538172", "132947856", "926384517",
            "513792648", "478651239"])
    );
}

#[test]
fn search_on_an_empty_grid_gives_the_first_solution_in_its_order() {
    let mut s = grid(&[".........", ".........", ".........", ".........", ".........", ".........",
        ".........", ".........", "........."]);
    assert!(s.brute_force());
    assert_eq!(
        s.render(),
        text(&["147238569", "258169347", "369457128", "471382695", "582691473", "693574281", "714823956",
            "825916734", "936745812"])
    );
}

#[test]
fn fast_solve_removes_a_lone_clue_from_its_peers() {
    let mut s = grid(&["5........", ".........", ".........", ".........", ".........", ".........",
        ".........", ".........", "........."]);
    assert_eq!(s.fast_solve(), Ok(()));
    for i in 0..9 {
        for j in 0..9 {
            let peer = (i, j) != (0, 0) && (i == 0 || j == 0 || (i < 3 && j < 3));
            assert_eq!(s.get(i, j).allows(5), !peer);
        }
    }
    assert!(s.get(0, 0).projected());
}
