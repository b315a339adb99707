//! Generation and solving of 9x9 Sudoku grids.
//!
//! A grid is a `Vec<Vec<i32>>` of nine rows of nine cells; `0` marks an empty
//! cell and `1..=9` a filled one. Every function is stated over the view
//! `grid::view(g)`, a `Seq<Seq<i32>>`, and over `grid::is_solved`: no empty
//! cell, and every row, column and 3x3 subgrid holding each of `1..=9`.
//!
//! - `grid`: the model, and the rows, columns, subgrids and empty cells.
//! - `checker`: duplicates, candidate values and the solved check.
//! - `transform`: swaps and rotations that keep a grid solved.
//! - `solver`: propagation of single candidates, then a depth-first search.
//! - `generate`: a random complete grid, and puzzles carved from it.

pub mod checker;
pub mod generate;
pub mod grid;
mod outside;
pub mod solver;
pub mod transform;

pub use checker::{
    check_if_sudoku_solved, common_numbers, contains_all_digits, contains_value,
    find_missing_numbers, get_all_missing_numbers, is_loc_valid, is_vec_valid,
};
pub use generate::{empty_grid, generate_full_sudoku, generate_sudoku_to_solve, try_blank_cell};
pub use grid::{copy_grid, get_all_empty_fields, get_column, get_row, get_subgrid, get_subgrid_coor, set_cell};
pub use solver::{solve_grid, solve_sudoku};
pub use transform::{
    fill_row, flip_all_columns, flip_all_rows, flip_column, flip_column_band, flip_columns, flip_grid_columns,
    flip_grid_rows, flip_row, flip_row_band, flip_rows, generate_two_unique_random_numbers, random_rotate,
    rotate_180_degrees, rotate_270_degrees, rotate_90_degrees,
};
