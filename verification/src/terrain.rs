//! The editor's terrain model: a board of squares the interactive editor
//! fills in, with optional start and end markers.

use crate::engine::Point;
use crate::search::filled;
use vstd::prelude::*;

verus! {

pub const DEFAULT_GRID_ROWS: usize = 25;

pub const DEFAULT_GRID_COLS: usize = 25;

/// The state of one editor square.
#[derive(Clone, Copy, Debug, PartialEq, Eq, Structural)]
pub enum Square {
    Empty,
    Blocked,
    Start,
    End,
}

impl Default for Square {
    fn default() -> (r: Square)
        ensures
            r == Square::Empty,
    {
        Square::Empty
    }
}

impl Square {
    /// The square's display name.
    pub fn label(&self) -> (r: String)
        ensures
            self is Empty ==> r@ == "Empty"@,
            self is Blocked ==> r@ == "Blocked"@,
            self is Start ==> r@ == "Start"@,
            self is End ==> r@ == "End"@,
    {
        match self {
            Square::Empty => "Empty".to_owned(),
            Square::Blocked => "Blocked".to_owned(),
            Square::Start => "Start".to_owned(),
            Square::End => "End".to_owned(),
        }
    }
}

/// The editor's board: squares in row-major order, and the start and end
/// markers once the user has placed them.
pub struct Grid {
    pub rows: usize,
    pub cols: usize,
    pub squares: Vec<Square>,
    pub start: Option<Point>,
    pub end: Option<Point>,
}

impl Grid {
    /// An all-empty board with no markers placed.
    pub fn new(rows: usize, cols: usize) -> (r: Grid)
        requires
            rows * cols <= usize::MAX,
        ensures
            r.rows == rows,
            r.cols == cols,
            r.squares@.len() == rows * cols,
            forall|i: int| 0 <= i < r.squares@.len() ==> r.squares@[i] == Square::Empty,
            r.start is None,
            r.end is None,
    {
        let squares = filled(rows * cols, Square::Empty);
        Grid { rows, cols, squares, start: None, end: None }
    }

    /// The default board size.
    pub fn default() -> (r: Grid)
        ensures
            r.rows == DEFAULT_GRID_ROWS,
            r.cols == DEFAULT_GRID_COLS,
            r.squares@.len() == DEFAULT_GRID_ROWS * DEFAULT_GRID_COLS,
            forall|i: int| 0 <= i < r.squares@.len() ==> r.squares@[i] == Square::Empty,
            r.start is None,
            r.end is None,
    {
        Self::new(DEFAULT_GRID_ROWS, DEFAULT_GRID_COLS)
    }

    /// A board whose squares are each blocked or empty at random, with no
    /// markers placed.  Which squares come out blocked is left entirely to
    /// the random source.
    pub fn with_random_blockage(rows: usize, cols: usize) -> (r: Grid)
        requires
            rows * cols <= usize::MAX,
        ensures
            r.rows == rows,
            r.cols == cols,
            r.squares@.len() == rows * cols,
            forall|i: int|
                0 <= i < r.squares@.len() ==> (r.squares@[i] == Square::Empty || r.squares@[i]
                    == Square::Blocked),
            r.start is None,
            r.end is None,
    {
        let n = rows * cols;
        let mut squares: Vec<Square> = Vec::new();
        let mut i: usize = 0;
        while i < n
            invariant
                i <= n,
                squares@.len() == i,
                forall|j: int|
                    0 <= j < i ==> (squares@[j] == Square::Empty || squares@[j]
                        == Square::Blocked),
            decreases n - i,
        {
            if random_bool() {
                squares.push(Square::Blocked);
            } else {
                squares.push(Square::Empty);
            }
            i += 1;
        }
        Grid { rows, cols, squares, start: None, end: None }
    }
}

/// Relies on rand::random::<bool>: a fresh pseudo-random boolean.  Nothing
/// is assumed of its value; every caller must be correct for either
/// outcome.
#[verifier::external_body]
fn random_bool() -> bool {
    rand::random::<bool>()
}

} // verus!
