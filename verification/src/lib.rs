//! A verified solver for 9x9 Sudoku puzzles given as 81-character lines.
//!
//! Each cell keeps its remaining candidate digits as a 9-bit mask. The
//! solver runs naked-single and hidden-single elimination passes to a fixed
//! point and falls back to heuristic-guided backtracking when stalled.
use vstd::prelude::*;

pub mod batch;
pub mod board;
pub mod cell;
pub mod groups;
pub mod map;
pub mod solvable;

verus! {

/// Width of a box, in cells.
pub const SUDOKU_BOX_SIZE: usize = 3;

/// Number of cells in a row, column or box, and number of candidate digits.
pub const SUDOKU_GROUP_SIZE: usize = 9;

/// Number of candidate digits per cell.
pub const SUDOKU_CANDIDATE_SIZE: usize = 9;

/// Number of cells on the board.
pub const SUDOKU_CELL_SIZE: usize = 81;

/// The empty candidate mask.
pub const SUDOKU_NO_CANDIDATES: u32 = 0;

/// The full candidate mask: all nine digits possible.
pub const SUDOKU_ALL_CANDIDATES: u32 = 0x1ff;

} // verus!
