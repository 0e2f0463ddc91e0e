use vstd::prelude::*;

verus! {

/// What one square of the maze shows.
#[derive(Debug, Clone, Copy, PartialEq, Eq, Structural)]
pub enum Cell {
    Empty,
    Wall,
    Start,
    End,
    Path,
    Player,
}

/// A square of the grid: column `x`, row `y`, both counted from zero.
#[derive(Debug, Clone, Copy, PartialEq, Eq, Hash, Structural)]
pub struct Position {
    pub x: usize,
    pub y: usize,
}

/// The grid as rows of squares: row `y` of the result is row `y` of `grid`.
pub open spec fn grid_view(grid: Vec<Vec<Cell>>) -> Seq<Seq<Cell>> {
    Seq::new(grid.len() as nat, |y: int| grid[y]@)
}

} // verus!
