use vstd::prelude::*;
use crate::cell::{Cell, Position};
use crate::layout::{
    bare, base_cell, board, layout_open, lemma_bare_is_layout, lemma_layout_route, lemma_open_is_layout,
    sample_route,
};
use crate::route::{adjacent, before, is_least_route, is_route, lemma_least_route_is, step_ok};
use crate::search::{lemma_least_route_exists, lemma_open_cells_finite};
use crate::state::MazeView;

verus! {

/// A game before any move is valid, the player waits on the start, and the
/// game is not won, unless its start is its end.
pub proof fn lemma_initial_valid(w: nat, h: nat)
    requires
        3 <= w <= usize::MAX,
        3 <= h <= usize::MAX,
    ensures
        MazeView::initial(w, h).valid(),
        MazeView::initial(w, h).waiting(),
        MazeView::initial(w, h).player == MazeView::initial(w, h).start,
        MazeView::initial(w, h).won <==> w == 3 && h == 3,
{
}

/// Before any move the outer ring is wall, the start shows on the square
/// (1, 1) and nowhere else, the end shows on the inner corner opposite and
/// nowhere else, and the player is drawn nowhere. On three columns and three
/// rows the one inner square is start and end at once and shows the start.
pub proof fn lemma_initial_marks(w: nat, h: nat, x: int, y: int)
    requires
        3 <= w <= usize::MAX,
        3 <= h <= usize::MAX,
        0 <= x < w,
        0 <= y < h,
    ensures
        MazeView::initial(w, h).cells[y][x] == base_cell(w as int, h as int, x, y),
        x == 0 || y == 0 || x == w - 1 || y == h - 1 ==> MazeView::initial(w, h).cells[y][x]
            == Cell::Wall,
        MazeView::initial(w, h).cells[y][x] == Cell::Start <==> x == 1 && y == 1,
        MazeView::initial(w, h).cells[y][x] == Cell::End <==> x == w - 2 && y == h - 2 && !(w == 3
            && h == 3),
        MazeView::initial(w, h).cells[y][x] != Cell::Player,
        MazeView::initial(w, h).cells[y][x] != Cell::Path,
{
}

/// In a valid game the squares that can be walked on are those that the
/// layout leaves free, whether the player is drawn or not.
pub proof fn lemma_valid_open(v: MazeView)
    requires
        v.valid(),
    ensures
        v.open() == layout_open(v.width, v.height),
{
    lemma_bare_is_layout(v.width, v.height);
    lemma_open_is_layout(v.width, v.height, v.player);
}

/// In every valid game the outer ring is wall; the player is drawn on no
/// square but the one the player stands on, and on that one as soon as a
/// move has been made; the start shows on its own square and nowhere else,
/// unless the player is drawn over it, and so does the end.
pub proof fn lemma_marks_are_unique(v: MazeView, x: int, y: int)
    requires
        v.valid(),
        0 <= x < v.width,
        0 <= y < v.height,
    ensures
        x == 0 || y == 0 || x == v.width - 1 || y == v.height - 1 ==> v.cells[y][x] == Cell::Wall,
        v.cells[y][x] == Cell::Player <==> v.player.x == x && v.player.y == y && v.drawn(),
        v.cells[y][x] == Cell::Start <==> v.start.x == x && v.start.y == y && (v.player != v.start
            || v.waiting()),
        v.cells[y][x] == Cell::End <==> v.end.x == x && v.end.y == y && v.player != v.end && v.end
            != v.start,
        v.cells[y][x] != Cell::Path,
        v.drawn() != v.waiting(),
{
    let px = v.player.x as int;
    let py = v.player.y as int;
    assert(board(v.width, v.height, v.player)[py][px] == Cell::Player);
    assert(bare(v.width, v.height)[py][px] != Cell::Player);
}

/// In a valid game a square can be stood on exactly when it lies in the grid
/// and is no wall, whatever else it shows; the player stands on such a
/// square.
pub proof fn lemma_can_move(v: MazeView, p: Position)
    requires
        v.valid(),
    ensures
        v.can_move(p) <==> p.x < v.width && p.y < v.height && v.cells[p.y as int][p.x as int]
            != Cell::Wall,
        v.can_move(v.player),
{
}

/// An attempt to move leaves a valid game valid, does not touch the walls
/// or the route on display, and changes nothing at all where the game is
/// won or the square aimed at is a wall or outside the grid.
pub proof fn lemma_step(v: MazeView, dx: int, dy: int)
    requires
        v.valid(),
    ensures
        v.stepped(dx, dy).valid(),
        v.stepped(dx, dy).open() == v.open(),
        v.stepped(dx, dy).route() == v.route(),
        v.stepped(dx, dy).showing == v.showing,
        v.stepped(dx, dy).path == v.path,
        !v.can_step(dx, dy) ==> v.stepped(dx, dy) == v,
        v.can_step(dx, dy) ==> v.stepped(dx, dy).player == v.target(dx, dy) && v.can_move(
            v.target(dx, dy),
        ),
        v.won ==> !v.can_step(dx, dy),
        v.can_step(dx, dy) && v.target(dx, dy) == v.end ==> v.stepped(dx, dy).won,
        v.can_step(dx, dy) ==> v.stepped(dx, dy).drawn(),
{
    if v.can_step(dx, dy) {
        let p = v.target(dx, dy);
        let n = v.stepped(dx, dy);
        assert(n.cells =~~= board(v.width, v.height, p));
        lemma_valid_open(v);
        lemma_open_is_layout(v.width, v.height, p);
    }
}

/// After any run of attempts to move from a valid game, the game is valid
/// and the player stands on a square that can be stood on.
pub proof fn lemma_moves_keep_valid(v: MazeView, moves: Seq<(int, int)>)
    requires
        v.valid(),
    ensures
        v.after_moves(moves).valid(),
        v.after_moves(moves).can_move(v.after_moves(moves).player),
        v.after_moves(moves).route() == v.route(),
    decreases moves.len(),
{
    if moves.len() > 0 {
        lemma_moves_keep_valid(v, moves.drop_last());
        lemma_step(v.after_moves(moves.drop_last()), moves.last().0, moves.last().1);
    }
}

/// Once the game is won, no run of attempts to move changes it.
pub proof fn lemma_won_is_final(v: MazeView, moves: Seq<(int, int)>)
    requires
        v.valid(),
        v.won,
    ensures
        v.after_moves(moves) == v,
    decreases moves.len(),
{
    if moves.len() > 0 {
        lemma_won_is_final(v, moves.drop_last());
    }
}

/// In every valid game the end can be reached from the start, by a walk in
/// which each square is next to the one before; the walk is empty only in
/// the game whose start is its end.
pub proof fn lemma_end_is_reachable(v: MazeView)
    requires
        v.valid(),
    ensures
        is_route(v.open(), v.start, v.end, sample_route(v.width, v.height)),
        v.route() is Some,
        is_least_route(v.open(), v.start, v.end, v.route().unwrap()),
        forall|r: Seq<Position>, i: int|
            is_route(v.open(), v.start, v.end, r) && 0 <= i < r.len() ==> v.can_move(
                #[trigger] r[i],
            ) && adjacent(before(v.start, r, i), r[i]),
        forall|r: Seq<Position>| #[trigger]
            is_route(v.open(), v.start, v.end, r) && v.start != v.end ==> r.len() > 0,
{
    lemma_valid_open(v);
    lemma_layout_route(v.width, v.height);
    lemma_open_cells_finite(v.cells);
    lemma_least_route_exists(v.open(), v.start, v.end);
    assert forall|r: Seq<Position>, i: int|
        is_route(v.open(), v.start, v.end, r) && 0 <= i < r.len() implies v.can_move(
        #[trigger] r[i],
    ) && adjacent(before(v.start, r, i), r[i]) by {
        assert(step_ok(v.open(), v.start, r, i));
    }
}

/// Showing the route and clearing it keep a valid game valid.
pub proof fn lemma_display_keeps_valid(v: MazeView)
    requires
        v.valid(),
    ensures
        v.cleared().valid(),
        v.shown().valid(),
        v.shown().showing,
        v.toggled().valid(),
        v.toggled().showing == !v.showing,
        v.cleared().cleared() == v.cleared(),
{
    lemma_end_is_reachable(v);
    if v.showing {
        lemma_least_route_is(v.open(), v.start, v.end, v.path);
        assert(v.shown() =~~= v);
    }
}

/// Switching the display of the route twice gives back the game as it was.
pub proof fn lemma_toggle_twice(v: MazeView)
    requires
        v.valid(),
    ensures
        v.toggled().toggled() == v,
{
    if v.showing {
        lemma_least_route_is(v.open(), v.start, v.end, v.path);
        assert(v.toggled().toggled() =~~= v);
    } else {
        assert(v.toggled().toggled() =~~= v);
    }
}

} // verus!
