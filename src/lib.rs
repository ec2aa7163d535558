//! A falling-block matching puzzle engine: three-cell pieces drop into a
//! fixed grid, runs of three or more cells of one kind along any of four
//! axes are cleared, and the cells above fall until the grid settles.
use vstd::prelude::*;

pub mod block;
pub mod board;
pub mod column;
pub mod frame;
pub mod game;
pub mod gravity;
pub mod matching;
pub mod pit;
pub mod renderer;
pub mod timer;

verus! {

/// Number of columns of the pit.
pub const NUM_COLS: usize = 6;

/// Number of rows of the pit; row 0 is the top.
pub const NUM_ROWS: usize = 13;

/// Screen column where the pit starts.
pub const PIT_STARTING_X: usize = 10;

/// Width of a full frame: the side panel and the pit.
pub const WIDTH: usize = 16;

/// A grid coordinate: `x` is the column, `y` the row (0 at the top).
#[derive(Debug, Clone, Copy, PartialEq, Eq, Structural)]
pub struct Point {
    pub x: usize,
    pub y: usize,
}

impl Point {
    pub fn new(x: usize, y: usize) -> (r: Point)
        ensures
            r.x == x,
            r.y == y,
    {
        Point { x, y }
    }
}

} // verus!
