use vstd::prelude::*;
use crate::cell::{Cell, Position};
use crate::route::{
    east, is_route, open_cells, lemma_route_join, lemma_run_east, lemma_run_south, run_east, run_south, south,
};

verus! {

/// Columns of the hand-drawn maze, its outer wall included.
pub const TEMPLATE_WIDTH: usize = 20;

/// Rows of the hand-drawn maze, its outer wall included.
pub const TEMPLATE_HEIGHT: usize = 15;

/// The walls inside the hand-drawn maze, by column `x` (1 to 18) and row
/// `y` (1 to 13). Row 1 and column 1 are free corridors. With its outer
/// ring, its start `S` and its end `E` the maze looks like this:
///
/// ```text
/// ####################
/// #S                 #
/// # ##### ##### ######
/// # #   # #   # #   ##
/// # # ### # ### # ####
/// # #   # #   # #   ##
/// # ##### ##### ######
/// # #   #     #     ##
/// # # # ##### # ######
/// # # #     # #     ##
/// # # ##### # ##### ##
/// # #     # #     # ##
/// # ##### # ##### # ##
/// #       #       # E#
/// ####################
/// ```
pub open spec fn template_wall(x: int, y: int) -> bool {
    if y == 2 || y == 6 {
        2 <= x <= 6 || 8 <= x <= 12 || 14 <= x <= 18
    } else if y == 3 || y == 5 {
        x == 2 || x == 6 || x == 8 || x == 12 || x == 14 || x == 18
    } else if y == 4 {
        x == 2 || 4 <= x <= 6 || x == 8 || 10 <= x <= 12 || x == 14 || 16 <= x <= 18
    } else if y == 7 {
        x == 2 || x == 6 || x == 12 || x == 18
    } else if y == 8 {
        x == 2 || x == 4 || 6 <= x <= 10 || x == 12 || 14 <= x <= 18
    } else if y == 9 {
        x == 2 || x == 4 || x == 10 || x == 12 || x == 18
    } else if y == 10 {
        x == 2 || 4 <= x <= 8 || x == 10 || 12 <= x <= 16 || x == 18
    } else if y == 11 {
        x == 2 || x == 8 || x == 10 || x == 16 || x == 18
    } else if y == 12 {
        2 <= x <= 6 || x == 8 || 10 <= x <= 14 || x == 16 || x == 18
    } else if y == 13 {
        x == 8 || x == 16
    } else {
        false
    }
}

/// Looks a square up in the hand-drawn maze.
pub fn is_template_wall(x: usize, y: usize) -> (b: bool)
    ensures
        b == template_wall(x as int, y as int),
{
    if y == 2 || y == 6 {
        (2 <= x && x <= 6) || (8 <= x && x <= 12) || (14 <= x && x <= 18)
    } else if y == 3 || y == 5 {
        x == 2 || x == 6 || x == 8 || x == 12 || x == 14 || x == 18
    } else if y == 4 {
        x == 2 || (4 <= x && x <= 6) || x == 8 || (10 <= x && x <= 12) || x == 14 || (16 <= x && x
            <= 18)
    } else if y == 7 {
        x == 2 || x == 6 || x == 12 || x == 18
    } else if y == 8 {
        x == 2 || x == 4 || (6 <= x && x <= 10) || x == 12 || (14 <= x && x <= 18)
    } else if y == 9 {
        x == 2 || x == 4 || x == 10 || x == 12 || x == 18
    } else if y == 10 {
        x == 2 || (4 <= x && x <= 8) || x == 10 || (12 <= x && x <= 16) || x == 18
    } else if y == 11 {
        x == 2 || x == 8 || x == 10 || x == 16 || x == 18
    } else if y == 12 {
        (2 <= x && x <= 6) || x == 8 || (10 <= x && x <= 14) || x == 16 || x == 18
    } else if y == 13 {
        x == 8 || x == 16
    } else {
        false
    }
}

/// Whether a maze of `w` columns and `h` rows has a wall at column `x`, row
/// `y`. The outer ring is wall. A maze that has room for the hand-drawn maze
/// holds its inner walls, at the same columns and rows; a smaller one is an
/// empty room.
pub open spec fn wall_at(w: int, h: int, x: int, y: int) -> bool {
    ||| x == 0 || y == 0 || x == w - 1 || y == h - 1
    ||| (w >= TEMPLATE_WIDTH && h >= TEMPLATE_HEIGHT && x < TEMPLATE_WIDTH - 1 && y
        < TEMPLATE_HEIGHT - 1 && template_wall(x, y))
}

/// Where every game starts.
pub open spec fn start_square() -> Position {
    Position { x: 1, y: 1 }
}

/// Where a game on `w` columns and `h` rows ends: the inner corner opposite
/// the start.
pub open spec fn end_square(w: int, h: int) -> Position {
    Position { x: (w - 2) as usize, y: (h - 2) as usize }
}

/// What the square at column `x`, row `y` shows while the player stands
/// elsewhere.
pub open spec fn base_cell(w: int, h: int, x: int, y: int) -> Cell {
    if x == 1 && y == 1 {
        Cell::Start
    } else if x == w - 2 && y == h - 2 {
        Cell::End
    } else if wall_at(w, h, x, y) {
        Cell::Wall
    } else {
        Cell::Empty
    }
}

/// Computes what a square shows while the player stands elsewhere.
pub fn base_cell_at(width: usize, height: usize, x: usize, y: usize) -> (c: Cell)
    requires
        width >= 3,
        height >= 3,
        x < width,
        y < height,
    ensures
        c == base_cell(width as int, height as int, x as int, y as int),
{
    if x == 1 && y == 1 {
        Cell::Start
    } else if x == width - 2 && y == height - 2 {
        Cell::End
    } else if x == 0 || y == 0 || x == width - 1 || y == height - 1 {
        Cell::Wall
    } else if width >= TEMPLATE_WIDTH && height >= TEMPLATE_HEIGHT && x < TEMPLATE_WIDTH - 1 && y
        < TEMPLATE_HEIGHT - 1 && is_template_wall(x, y) {
        Cell::Wall
    } else {
        Cell::Empty
    }
}

/// The whole grid, row by row, with nobody drawn on it: what a new game
/// shows. The start shows on its square, the end on its own.
pub open spec fn bare(w: nat, h: nat) -> Seq<Seq<Cell>> {
    Seq::new(h, |y: int| Seq::new(w, |x: int| base_cell(w as int, h as int, x, y)))
}

/// The whole grid, row by row, with the player drawn on `player`: what a
/// game shows once the player has moved.
pub open spec fn board(w: nat, h: nat, player: Position) -> Seq<Seq<Cell>> {
    Seq::new(
        h,
        |y: int|
            Seq::new(
                w,
                |x: int|
                    if player.x == x && player.y == y {
                        Cell::Player
                    } else {
                        base_cell(w as int, h as int, x, y)
                    },
            ),
    )
}

/// The squares of a maze of `w` columns and `h` rows that are no wall.
pub open spec fn layout_open(w: nat, h: nat) -> Set<Position> {
    Set::new(
        |p: Position|
            p.x < w && p.y < h && base_cell(w as int, h as int, p.x as int, p.y as int)
                != Cell::Wall,
    )
}

/// A route from the start to the end of the maze of `w` columns and `h`
/// rows: through the hand-drawn maze where the grid is exactly its size,
/// down the first column and along the last row where only rows were added,
/// else along the first row and down the last column.
pub open spec fn sample_route(w: nat, h: nat) -> Seq<Position> {
    if w == TEMPLATE_WIDTH && h == TEMPLATE_HEIGHT {
        run_east(Position { x: 1, y: 1 }, 12) + run_south(Position { x: 13, y: 1 }, 8) + run_east(
            Position { x: 13, y: 9 },
            4,
        ) + run_south(Position { x: 17, y: 9 }, 4) + run_east(Position { x: 17, y: 13 }, 1)
    } else if w == TEMPLATE_WIDTH && h > TEMPLATE_HEIGHT {
        run_south(start_square(), (h - 3) as nat) + run_east(
            Position { x: 1, y: (h - 2) as usize },
            (w - 3) as nat,
        )
    } else {
        run_east(start_square(), (w - 3) as nat) + run_south(
            Position { x: (w - 2) as usize, y: 1 },
            (h - 3) as nat,
        )
    }
}

/// The hand-drawn maze has a way through: along the first row, down to the
/// ninth, on to the right and down to the end.
proof fn lemma_template_route()
    ensures
        is_route(
            layout_open(TEMPLATE_WIDTH as nat, TEMPLATE_HEIGHT as nat),
            start_square(),
            end_square(TEMPLATE_WIDTH as int, TEMPLATE_HEIGHT as int),
            sample_route(TEMPLATE_WIDTH as nat, TEMPLATE_HEIGHT as nat),
        ),
{
    let open = layout_open(20, 15);
    let a = Position { x: 1, y: 1 };
    let b = Position { x: 13, y: 1 };
    let c = Position { x: 13, y: 9 };
    let d = Position { x: 17, y: 9 };
    let e = Position { x: 17, y: 13 };
    let f = Position { x: 18, y: 13 };
    lemma_run_east(open, a, 12);
    lemma_run_south(open, b, 8);
    lemma_run_east(open, c, 4);
    lemma_run_south(open, d, 4);
    lemma_run_east(open, e, 1);
    assert(east(a, 12) == b);
    assert(south(b, 8) == c);
    assert(east(c, 4) == d);
    assert(south(d, 4) == e);
    assert(east(e, 1) == f);
    let r1 = run_east(a, 12);
    let r2 = r1 + run_south(b, 8);
    let r3 = r2 + run_east(c, 4);
    let r4 = r3 + run_south(d, 4);
    lemma_route_join(open, a, b, c, r1, run_south(b, 8));
    lemma_route_join(open, a, c, d, r2, run_east(c, 4));
    lemma_route_join(open, a, d, e, r3, run_south(d, 4));
    lemma_route_join(open, a, e, f, r4, run_east(e, 1));
}

/// Every maze that can be built has a way from its start to its end.
pub proof fn lemma_layout_route(w: nat, h: nat)
    requires
        3 <= w <= usize::MAX,
        3 <= h <= usize::MAX,
    ensures
        is_route(
            layout_open(w, h),
            start_square(),
            end_square(w as int, h as int),
            sample_route(w, h),
        ),
{
    let open = layout_open(w, h);
    let a = start_square();
    let z = end_square(w as int, h as int);
    if w == TEMPLATE_WIDTH && h == TEMPLATE_HEIGHT {
        lemma_template_route();
    } else if w == TEMPLATE_WIDTH && h > TEMPLATE_HEIGHT {
        let b = Position { x: 1, y: (h - 2) as usize };
        lemma_run_south(open, a, (h - 3) as nat);
        lemma_run_east(open, b, (w - 3) as nat);
        assert(south(a, h - 3) == b);
        assert(east(b, w - 3) == z);
        lemma_route_join(
            open,
            a,
            b,
            z,
            run_south(a, (h - 3) as nat),
            run_east(b, (w - 3) as nat),
        );
    } else {
        let b = Position { x: (w - 2) as usize, y: 1 };
        lemma_run_east(open, a, (w - 3) as nat);
        lemma_run_south(open, b, (h - 3) as nat);
        assert(east(a, w - 3) == b);
        assert(south(b, h - 3) == z);
        lemma_route_join(
            open,
            a,
            b,
            z,
            run_east(a, (w - 3) as nat),
            run_south(b, (h - 3) as nat),
        );
    }
}

/// With nobody drawn on it, the grid can be walked on where the layout
/// leaves it free.
pub proof fn lemma_bare_is_layout(w: nat, h: nat)
    ensures
        open_cells(bare(w, h)) == layout_open(w, h),
{
    assert(open_cells(bare(w, h)) =~= layout_open(w, h));
}

/// Wherever the player is drawn, the squares that can be walked on are the
/// same: those that the layout leaves free.
pub proof fn lemma_open_is_layout(w: nat, h: nat, player: Position)
    requires
        player.x < w,
        player.y < h,
        base_cell(w as int, h as int, player.x as int, player.y as int) != Cell::Wall,
    ensures
        open_cells(board(w, h, player)) == layout_open(w, h),
{
    assert(open_cells(board(w, h, player)) =~= layout_open(w, h));
}

} // verus!
