//! The drawing board the window shows: squares of a fixed pixel size, in
//! row-major order.

use crate::search::filled;
use vstd::prelude::*;

verus! {

pub const GRID_ROWS: usize = 25;

pub const GRID_COLS: usize = 25;

pub const SQUARE_SIZE: usize = 40;

/// The state of one board square.
#[derive(Clone, Copy, Debug, PartialEq, Eq, Structural)]
pub enum SquareState {
    Empty,
    Blocked,
    Start,
    End,
}

impl Default for SquareState {
    fn default() -> (r: SquareState)
        ensures
            r == SquareState::Empty,
    {
        SquareState::Empty
    }
}

/// The board: its dimensions, the pixel size of one square, and the squares
/// themselves.
pub struct Grid {
    pub rows: usize,
    pub cols: usize,
    pub square_size: usize,
    pub squares: Vec<SquareState>,
}

impl Grid {
    /// An all-empty board.
    pub fn new(rows: usize, cols: usize, square_size: usize) -> (r: Grid)
        requires
            rows * cols <= usize::MAX,
        ensures
            r.rows == rows,
            r.cols == cols,
            r.square_size == square_size,
            r.squares@.len() == rows * cols,
            forall|i: int| 0 <= i < r.squares@.len() ==> r.squares@[i] == SquareState::Empty,
    {
        let squares = filled(rows * cols, SquareState::Empty);
        Grid { rows, cols, square_size, squares }
    }

    /// The default board and square size.
    pub fn default() -> (r: Grid)
        ensures
            r.rows == GRID_ROWS,
            r.cols == GRID_COLS,
            r.square_size == SQUARE_SIZE,
            r.squares@.len() == GRID_ROWS * GRID_COLS,
            forall|i: int| 0 <= i < r.squares@.len() ==> r.squares@[i] == SquareState::Empty,
    {
        Self::new(GRID_ROWS, GRID_COLS, SQUARE_SIZE)
    }
}

} // verus!
