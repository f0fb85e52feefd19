//! A 9x9 sudoku solver: per-cell candidate sets, three propagation techniques
//! run to a fixpoint, and a backtracking search for what propagation leaves.
pub mod field;
pub mod sudoku;
pub mod solution;
pub mod render;
pub mod project_numbers;
pub mod detect_uniques;
pub mod project_lines;
pub mod brute_force;
