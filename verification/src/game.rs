use vstd::prelude::*;
use crate::cell::{grid_view, Cell, Position};
use crate::laws::{lemma_display_keeps_valid, lemma_end_is_reachable, lemma_step};
use crate::layout::{base_cell, base_cell_at};
use crate::route::{in_bounds, is_least_route};
use crate::search::{is_open, shortest_route};
use crate::state::MazeView;
use crate::table::mark;

verus! {

/// A game of the maze: the grid, the player on it, and the route that is on
/// display, if one is.
pub struct MazeGame {
    grid: Vec<Vec<Cell>>,
    player_pos: Position,
    start_pos: Position,
    end_pos: Position,
    width: usize,
    height: usize,
    show_path: bool,
    path_positions: Vec<Position>,
    game_won: bool,
}

impl View for MazeGame {
    type V = MazeView;

    closed spec fn view(&self) -> MazeView {
        MazeView {
            width: self.width as nat,
            height: self.height as nat,
            cells: grid_view(self.grid),
            start: self.start_pos,
            end: self.end_pos,
            player: self.player_pos,
            won: self.game_won,
            showing: self.show_path,
            path: self.path_positions@,
        }
    }
}

impl MazeGame {
    /// The game is in a state that `new` and the moves can lead to.
    pub open spec fn wf(&self) -> bool {
        self@.valid()
    }

    /// A new game on `width` columns and `height` rows, three at least of
    /// each: the outer ring is wall, the square (1, 1) shows the start, the
    /// inner corner opposite shows the end, and the player stands on the
    /// start. The player is drawn on the grid by the first move that
    /// succeeds.
    pub fn new(width: usize, height: usize) -> (game: MazeGame)
        requires
            width >= 3,
            height >= 3,
        ensures
            game.wf(),
            game@ == MazeView::initial(width as nat, height as nat),
            forall|x: int, y: int|
                0 <= x < width && 0 <= y < height ==> #[trigger] game@.cells[y][x] == base_cell(
                    width as int,
                    height as int,
                    x,
                    y,
                ),
            game@.player == game@.start,
            game@.won == (width == 3 && height == 3),
    {
        let mut grid: Vec<Vec<Cell>> = Vec::new();
        let mut y: usize = 0;
        while y < height
            invariant
                width >= 3,
                height >= 3,
                y <= height,
                grid.len() == y,
                forall|j: int| 0 <= j < y ==> (#[trigger] grid[j]).len() == width,
                forall|j: int, i: int|
                    0 <= j < y && 0 <= i < width ==> (#[trigger] grid[j][i]) == base_cell(
                        width as int,
                        height as int,
                        i,
                        j,
                    ),
            decreases height - y,
        {
            let mut row: Vec<Cell> = Vec::new();
            let mut x: usize = 0;
            while x < width
                invariant
                    width >= 3,
                    height >= 3,
                    y < height,
                    x <= width,
                    row.len() == x,
                    forall|i: int|
                        0 <= i < x ==> (#[trigger] row[i]) == base_cell(
                            width as int,
                            height as int,
                            i,
                            y as int,
                        ),
                decreases width - x,
            {
                row.push(base_cell_at(width, height, x, y));
                x += 1;
            }
            grid.push(row);
            y += 1;
        }
        let start_pos = Position { x: 1, y: 1 };
        let end_pos = Position { x: width - 2, y: height - 2 };
        let game = MazeGame {
            grid,
            player_pos: start_pos,
            start_pos,
            end_pos,
            width,
            height,
            show_path: false,
            path_positions: Vec::new(),
            game_won: start_pos == end_pos,
        };
        proof {
            assert(game@ =~~= MazeView::initial(width as nat, height as nat));
        }
        game
    }

    /// Puts the player on `new_pos` and draws the player there. The square
    /// left shows the start if it is the start and is empty otherwise; the
    /// game is won if `new_pos` is the end.
    fn update_player_position(&mut self, new_pos: Position)
        requires
            old(self)@.framed(),
            new_pos.x < old(self)@.width,
            new_pos.y < old(self)@.height,
        ensures
            final(self)@ == old(self)@.moved_to(new_pos),
    {
        let left = self.player_pos;
        proof {
            assert(self@.cells[left.y as int].len() == self@.width);
            assert(self@.cells[new_pos.y as int].len() == self@.width);
        }
        if left == self.start_pos {
            mark(&mut self.grid, left, Cell::Start);
        } else {
            mark(&mut self.grid, left, Cell::Empty);
        }
        self.player_pos = new_pos;
        assert(self.grid[new_pos.y as int].len() == old(self).grid[new_pos.y as int].len());
        mark(&mut self.grid, new_pos, Cell::Player);
        if self.player_pos == self.end_pos {
            self.game_won = true;
        }
        proof {
            assert(self@ =~~= old(self)@.moved_to(new_pos));
        }
    }

    /// Whether the player may stand on `pos`: it lies in the grid and is no
    /// wall.
    pub fn can_move(&self, pos: Position) -> (ok: bool)
        ensures
            ok == self@.can_move(pos),
            ok == (in_bounds(self@.cells, pos) && self@.cells[pos.y as int][pos.x as int]
                != Cell::Wall),
    {
        is_open(&self.grid, pos)
    }

    /// Tries to move the player by `dx` columns and `dy` rows. Nothing
    /// changes, and the answer is `false`, where the game is won or the
    /// square aimed at is a wall or outside the grid.
    pub fn move_player(&mut self, dx: i32, dy: i32) -> (moved: bool)
        requires
            old(self).wf(),
        ensures
            final(self).wf(),
            moved == old(self)@.can_step(dx as int, dy as int),
            final(self)@ == old(self)@.stepped(dx as int, dy as int),
            !moved ==> final(self)@ == old(self)@,
            moved ==> final(self)@.player == old(self)@.target(dx as int, dy as int),
            final(self)@.can_move(final(self)@.player),
            final(self)@.won == (final(self)@.player == final(self)@.end),
    {
        proof {
            lemma_step(self@, dx as int, dy as int);
        }
        if self.game_won {
            return false;
        }
        let new_x: i128 = self.player_pos.x as i128 + dx as i128;
        let new_y: i128 = self.player_pos.y as i128 + dy as i128;
        if new_x >= 0 && new_y >= 0 && new_x < self.width as i128 && new_y < self.height as i128 {
            let new_pos = Position { x: new_x as usize, y: new_y as usize };
            if self.can_move(new_pos) {
                self.update_player_position(new_pos);
                return true;
            }
        }
        false
    }

    /// Whether the player has reached the end.
    pub fn has_won(&self) -> (won: bool)
        ensures
            won == self@.won,
    {
        self.game_won
    }

    /// Finds the least route from the start to the end, breadth first: a
    /// shortest one, and among the shortest the one that goes up rather than
    /// down, down rather than left, left rather than right wherever routes
    /// part. It lists the squares stepped on, the end last, the start left
    /// out. The end of a game can always be reached, so there is a route.
    pub fn find_shortest_path(&self) -> (found: Option<Vec<Position>>)
        requires
            self.wf(),
        ensures
            found matches Some(path) && is_least_route(
                self@.open(),
                self@.start,
                self@.end,
                path@,
            ) && self@.route() == Some(path@) && (path@.len() == 0 <==> self@.start == self@.end),
    {
        let found = shortest_route(&self.grid, self.start_pos, self.end_pos);
        proof {
            lemma_end_is_reachable(self@);
        }
        found
    }

    /// Puts the least route on display.
    pub fn display_path(&mut self)
        requires
            old(self).wf(),
        ensures
            final(self).wf(),
            final(self)@ == old(self)@.shown(),
            final(self)@.showing,
    {
        proof {
            lemma_display_keeps_valid(self@);
        }
        match self.find_shortest_path() {
            Some(path) => {
                self.path_positions = path;
                self.show_path = true;
            },
            None => {},
        }
        proof {
            assert(self@ =~~= old(self)@.shown());
        }
    }

    /// Takes the route off display.
    pub fn clear_path(&mut self)
        requires
            old(self).wf(),
        ensures
            final(self).wf(),
            final(self)@ == old(self)@.cleared(),
    {
        self.show_path = false;
        self.path_positions.clear();
        proof {
            lemma_display_keeps_valid(old(self)@);
            assert(self@ =~~= old(self)@.cleared());
        }
    }

    /// Switches the display of the route: off if it is on, else on.
    pub fn toggle_path(&mut self)
        requires
            old(self).wf(),
        ensures
            final(self).wf(),
            final(self)@ == old(self)@.toggled(),
            final(self)@.showing == !old(self)@.showing,
    {
        if self.show_path {
            self.clear_path();
        } else {
            self.display_path();
        }
    }

    /// Starts the game anew on the same grid.
    pub fn reset_game(&mut self)
        requires
            old(self).wf(),
        ensures
            final(self).wf(),
            final(self)@ == MazeView::initial(old(self)@.width, old(self)@.height),
            final(self)@.player == old(self)@.start,
            final(self)@.won == (old(self)@.width == 3 && old(self)@.height == 3),
    {
        *self = MazeGame::new(self.width, self.height);
    }

    /// The square the player stands on.
    pub fn player_position(&self) -> (p: Position)
        ensures
            p == self@.player,
    {
        self.player_pos
    }

    /// What the square `pos` of the grid shows.
    pub fn cell_at(&self, pos: Position) -> (c: Cell)
        requires
            in_bounds(self@.cells, pos),
        ensures
            c == self@.cells[pos.y as int][pos.x as int],
    {
        self.grid[pos.y][pos.x]
    }

    /// The route on display; empty while none is.
    pub fn current_path(&self) -> (path: &Vec<Position>)
        ensures
            path@ == self@.path,
    {
        &self.path_positions
    }

    /// Whether a route is on display.
    pub fn is_path_shown(&self) -> (shown: bool)
        ensures
            shown == self@.showing,
    {
        self.show_path
    }

    /// Rows that the grid holds.
    pub(crate) fn rows(&self) -> (n: usize)
        ensures
            n == self@.cells.len(),
    {
        self.grid.len()
    }

    /// Squares that row `y` of the grid holds.
    pub(crate) fn row_len(&self, y: usize) -> (n: usize)
        requires
            y < self@.cells.len(),
        ensures
            n == self@.cells[y as int].len(),
    {
        self.grid[y].len()
    }

    /// Columns of the grid.
    pub fn width(&self) -> (w: usize)
        ensures
            w == self@.width,
    {
        self.width
    }

    /// Rows of the grid.
    pub fn height(&self) -> (h: usize)
        ensures
            h == self@.height,
    {
        self.height
    }

    /// The square the game starts on.
    pub fn start_position(&self) -> (p: Position)
        ensures
            p == self@.start,
    {
        self.start_pos
    }

    /// The square to reach.
    pub fn end_position(&self) -> (p: Position)
        ensures
            p == self@.end,
    {
        self.end_pos
    }
}

} // verus!
