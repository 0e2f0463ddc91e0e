use vstd::prelude::*;
use crate::cell::{Cell, Position};
use crate::game::MazeGame;
use crate::state::MazeView;

verus! {

/// How a square of the grid that shows `c` is painted: as it is, but for a
/// path mark left in the grid, which is painted like an empty square. `Path`
/// in a scene thus always means the route on display.
pub open spec fn ground_paint(c: Cell) -> Cell {
    if c == Cell::Path {
        Cell::Empty
    } else {
        c
    }
}

/// The first `n` squares of row `y` with what each is painted as, but for
/// the square that shows the player.
pub open spec fn row_tiles(cells: Seq<Seq<Cell>>, y: int, n: int) -> Seq<(Position, Cell)>
    decreases n,
{
    if n <= 0 {
        Seq::empty()
    } else {
        let rest = row_tiles(cells, y, n - 1);
        let c = cells[y][n - 1];
        if c == Cell::Player {
            rest
        } else {
            rest.push((Position { x: (n - 1) as usize, y: y as usize }, ground_paint(c)))
        }
    }
}

/// The squares of the first `m` rows with what each shows, row by row, but
/// for the square that shows the player.
pub open spec fn ground_tiles(cells: Seq<Seq<Cell>>, m: int) -> Seq<(Position, Cell)>
    decreases m,
{
    if m <= 0 {
        Seq::empty()
    } else {
        ground_tiles(cells, m - 1) + row_tiles(cells, m - 1, cells[m - 1].len() as int)
    }
}

/// The first `k` squares of the route, each marked as path, but for the one
/// the player stands on.
pub open spec fn route_tiles(path: Seq<Position>, player: Position, k: int) -> Seq<
    (Position, Cell),
>
    decreases k,
{
    if k <= 0 {
        Seq::empty()
    } else {
        let rest = route_tiles(path, player, k - 1);
        if path[k - 1] == player {
            rest
        } else {
            rest.push((path[k - 1], Cell::Path))
        }
    }
}

impl MazeView {
    /// What to paint, in the order of painting: the grid below, the route on
    /// display over it, the player on top. A square of the grid that shows
    /// the player is left to the end, and so is the square of the route that
    /// the player stands on.
    pub open spec fn scene(self) -> Seq<(Position, Cell)> {
        let ground = ground_tiles(self.cells, self.cells.len() as int);
        let route = if self.showing {
            route_tiles(self.path, self.player, self.path.len() as int)
        } else {
            Seq::empty()
        };
        (ground + route).push((self.player, Cell::Player))
    }
}

impl MazeGame {
    /// Lists what to paint, in the order of painting: each square of the
    /// grid with what it shows, then the squares of the route on display
    /// marked as path, then the player. The player comes once only, at the
    /// end, so that nothing is painted over the player.
    pub fn scene(&self) -> (tiles: Vec<(Position, Cell)>)
        ensures
            tiles@ == self@.scene(),
    {
        let mut tiles: Vec<(Position, Cell)> = Vec::new();
        let player = self.player_position();
        let ghost cells = self@.cells;
        let mut y: usize = 0;
        while y < self.rows()
            invariant
                cells == self@.cells,
                y <= cells.len(),
                tiles@ == ground_tiles(cells, y as int),
            decreases cells.len() - y,
        {
            let ghost done = tiles@;
            let mut x: usize = 0;
            while x < self.row_len(y)
                invariant
                    cells == self@.cells,
                    y < cells.len(),
                    x <= cells[y as int].len(),
                    tiles@ == done + row_tiles(cells, y as int, x as int),
                decreases cells[y as int].len() - x,
            {
                let at = Position { x, y };
                let c = self.cell_at(at);
                if c == Cell::Path {
                    tiles.push((at, Cell::Empty));
                } else if c != Cell::Player {
                    tiles.push((at, c));
                }
                x += 1;
            }
            y += 1;
        }
        let ghost ground = tiles@;
        if self.is_path_shown() {
            let path = self.current_path();
            let mut k: usize = 0;
            while k < path.len()
                invariant
                    path@ == self@.path,
                    player == self@.player,
                    k <= path.len(),
                    tiles@ == ground + route_tiles(path@, player, k as int),
                decreases path.len() - k,
            {
                let at = path[k];
                if at != player {
                    tiles.push((at, Cell::Path));
                }
                k += 1;
            }
        }
        tiles.push((player, Cell::Player));
        tiles
    }
}

} // verus!
