use vstd::prelude::*;
use crate::cell::{Cell, Position};
use crate::layout::{bare, base_cell, board, end_square, start_square};
use crate::route::{is_least_route, least_route, open_cells, passable};

verus! {

/// `cells` with the square `p` showing `c`.
pub open spec fn put(cells: Seq<Seq<Cell>>, p: Position, c: Cell) -> Seq<Seq<Cell>> {
    cells.update(p.y as int, cells[p.y as int].update(p.x as int, c))
}

/// A game as a value: the grid row by row, the three squares that matter,
/// whether the game is won, and the route on display.
#[verifier::ext_equal]
pub struct MazeView {
    pub width: nat,
    pub height: nat,
    pub cells: Seq<Seq<Cell>>,
    pub start: Position,
    pub end: Position,
    pub player: Position,
    pub won: bool,
    pub showing: bool,
    pub path: Seq<Position>,
}

impl MazeView {
    /// The game on `w` columns and `h` rows before any move: the grid shows
    /// the layout alone, with the start on its square and the end on its
    /// own; the player stands on the start and is not drawn yet; no route is
    /// on display. On three columns and three rows the start is the end: the
    /// one inner square shows the start, and the game is won from the
    /// outset.
    pub open spec fn initial(w: nat, h: nat) -> MazeView {
        MazeView {
            width: w,
            height: h,
            cells: bare(w, h),
            start: start_square(),
            end: end_square(w as int, h as int),
            player: start_square(),
            won: start_square() == end_square(w as int, h as int),
            showing: false,
            path: Seq::empty(),
        }
    }

    /// The squares that can be walked on.
    pub open spec fn open(self) -> Set<Position> {
        open_cells(self.cells)
    }

    /// The least route from the start to the end.
    pub open spec fn route(self) -> Option<Seq<Position>> {
        least_route(self.open(), self.start, self.end)
    }

    /// The grid has `height` rows of `width` squares and the player stands
    /// on one of them.
    pub open spec fn framed(self) -> bool {
        &&& self.cells.len() == self.height
        &&& forall|y: int| 0 <= y < self.height ==> (#[trigger] self.cells[y]).len() == self.width
        &&& self.player.x < self.width
        &&& self.player.y < self.height
    }

    /// What holds of every game from its making on. The grid is the layout
    /// for its size, with the player drawn over the free square that the
    /// player stands on, or with nobody drawn while the player still waits
    /// on the start; so the walls never change. The start and the end are in
    /// their corners; the game is won exactly while the player stands on the
    /// end; a route on display is the least route, and with none on display
    /// none is stored.
    pub open spec fn valid(self) -> bool {
        &&& 3 <= self.width <= usize::MAX
        &&& 3 <= self.height <= usize::MAX
        &&& self.start == start_square()
        &&& self.end == end_square(self.width as int, self.height as int)
        &&& self.player.x < self.width
        &&& self.player.y < self.height
        &&& base_cell(
            self.width as int,
            self.height as int,
            self.player.x as int,
            self.player.y as int,
        ) != Cell::Wall
        &&& self.drawn() || self.waiting()
        &&& self.won == (self.player == self.end)
        &&& self.showing ==> is_least_route(self.open(), self.start, self.end, self.path)
        &&& !self.showing ==> self.path == Seq::<Position>::empty()
    }

    /// The grid shows the player where the player stands.
    pub open spec fn drawn(self) -> bool {
        self.cells == board(self.width, self.height, self.player)
    }

    /// The player stands on the start and the grid shows nobody: no move has
    /// been made yet.
    pub open spec fn waiting(self) -> bool {
        self.player == self.start && self.cells == bare(self.width, self.height)
    }

    /// Whether the player may stand on `p`.
    pub open spec fn can_move(self, p: Position) -> bool {
        passable(self.cells, p)
    }

    /// Whether the player can move by `dx` columns and `dy` rows: the game is
    /// not won yet, and the square there lies in the grid and is no wall.
    pub open spec fn can_step(self, dx: int, dy: int) -> bool {
        let tx = self.player.x + dx;
        let ty = self.player.y + dy;
        &&& !self.won
        &&& 0 <= tx < self.width
        &&& 0 <= ty < self.height
        &&& self.cells[ty][tx] != Cell::Wall
    }

    /// The square `dx` columns and `dy` rows from the player.
    pub open spec fn target(self, dx: int, dy: int) -> Position {
        Position { x: (self.player.x + dx) as usize, y: (self.player.y + dy) as usize }
    }

    /// The game after the player has been put on `p`: the square left shows
    /// the start again if it is the start and is empty otherwise, `p` shows
    /// the player, and the game is won if `p` is the end.
    pub open spec fn moved_to(self, p: Position) -> MazeView {
        let vacated = if self.player == self.start {
            Cell::Start
        } else {
            Cell::Empty
        };
        MazeView {
            cells: put(put(self.cells, self.player, vacated), p, Cell::Player),
            player: p,
            won: self.won || p == self.end,
            ..self
        }
    }

    /// The game after an attempt to move by `dx` columns and `dy` rows.
    pub open spec fn stepped(self, dx: int, dy: int) -> MazeView {
        if self.can_step(dx, dy) {
            self.moved_to(self.target(dx, dy))
        } else {
            self
        }
    }

    /// The game after a run of attempts to move, each a pair of columns and
    /// rows.
    pub open spec fn after_moves(self, moves: Seq<(int, int)>) -> MazeView
        decreases moves.len(),
    {
        if moves.len() == 0 {
            self
        } else {
            self.after_moves(moves.drop_last()).stepped(moves.last().0, moves.last().1)
        }
    }

    /// The game with the least route on display, or unchanged where the end
    /// cannot be reached.
    pub open spec fn shown(self) -> MazeView {
        match self.route() {
            Some(r) => MazeView { showing: true, path: r, ..self },
            None => self,
        }
    }

    /// The game with no route on display.
    pub open spec fn cleared(self) -> MazeView {
        MazeView { showing: false, path: Seq::empty(), ..self }
    }

    /// The game after the display of the route has been switched.
    pub open spec fn toggled(self) -> MazeView {
        if self.showing {
            self.cleared()
        } else {
            self.shown()
        }
    }
}

} // verus!
