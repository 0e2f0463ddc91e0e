use vstd::prelude::*;
use crate::cell::{Cell, Position};

verus! {

/// `p` names a square of `cells`, whose rows may differ in length.
pub open spec fn in_bounds(cells: Seq<Seq<Cell>>, p: Position) -> bool {
    p.y < cells.len() && p.x < cells[p.y as int].len()
}

/// `p` is a square of `cells` that is not a wall.
pub open spec fn passable(cells: Seq<Seq<Cell>>, p: Position) -> bool {
    in_bounds(cells, p) && cells[p.y as int][p.x as int] != Cell::Wall
}

/// The squares of `cells` that can be walked on.
pub open spec fn open_cells(cells: Seq<Seq<Cell>>) -> Set<Position> {
    Set::new(|p: Position| passable(cells, p))
}

/// `a` and `b` are one step apart, up, down, left or right.
pub open spec fn adjacent(a: Position, b: Position) -> bool {
    ||| a.x == b.x && (a.y + 1 == b.y || b.y + 1 == a.y)
    ||| a.y == b.y && (a.x + 1 == b.x || b.x + 1 == a.x)
}

/// The rank of the step from `a` to its neighbour `b`: 0 for up (one row
/// less), 1 for down, 2 for left (one column less), 3 for right. A search
/// tries the four steps in this order.
pub open spec fn heading(a: Position, b: Position) -> int {
    if a.x == b.x && b.y + 1 == a.y {
        0
    } else if a.x == b.x && a.y + 1 == b.y {
        1
    } else if a.y == b.y && b.x + 1 == a.x {
        2
    } else {
        3
    }
}

/// The square one step from `p` in the direction of rank `d` (0 up, 1 down,
/// 2 left, anything else right), if the coordinates reach that far.
pub open spec fn toward(p: Position, d: int) -> Option<Position> {
    if d == 0 {
        if p.y > 0 {
            Some(Position { x: p.x, y: (p.y - 1) as usize })
        } else {
            None
        }
    } else if d == 1 {
        if p.y < usize::MAX {
            Some(Position { x: p.x, y: (p.y + 1) as usize })
        } else {
            None
        }
    } else if d == 2 {
        if p.x > 0 {
            Some(Position { x: (p.x - 1) as usize, y: p.y })
        } else {
            None
        }
    } else {
        if p.x < usize::MAX {
            Some(Position { x: (p.x + 1) as usize, y: p.y })
        } else {
            None
        }
    }
}

/// `toward` gives the one neighbour that lies in the direction asked for.
pub proof fn lemma_toward(p: Position, d: int)
    requires
        0 <= d < 4,
    ensures
        match toward(p, d) {
            Some(q) => adjacent(p, q) && heading(p, q) == d,
            None => true,
        },
        forall|o: Position| #[trigger] adjacent(p, o) && heading(p, o) == d ==> toward(p, d) == Some(o),
{
}

/// The square from which step `i` of the walk `r` leaves: `from` for the
/// first step, else the square that the step before arrived at.
pub open spec fn before(from: Position, r: Seq<Position>, i: int) -> Position {
    if i == 0 {
        from
    } else {
        r[i - 1]
    }
}

/// Where the walk `r` from `from` ends.
pub open spec fn arrival(from: Position, r: Seq<Position>) -> Position {
    if r.len() == 0 {
        from
    } else {
        r.last()
    }
}

/// Step `i` of `r` goes to an open square next to the one it leaves.
pub open spec fn step_ok(open: Set<Position>, from: Position, r: Seq<Position>, i: int) -> bool {
    open.contains(r[i]) && adjacent(before(from, r, i), r[i])
}

/// `r` is a walk over open squares from `from` to `to`. It lists the squares
/// it steps on: `from` itself is left out, `to` is its last entry; the walk
/// from a square to itself is empty.
pub open spec fn is_route(open: Set<Position>, from: Position, to: Position, r: Seq<Position>) -> bool {
    &&& forall|i: int| 0 <= i < r.len() ==> #[trigger] step_ok(open, from, r, i)
    &&& arrival(from, r) == to
}

/// The rank of step `i` of the walk `r`.
pub open spec fn turn(from: Position, r: Seq<Position>, i: int) -> int {
    heading(before(from, r, i), r[i])
}

/// `a` and `b` step on the same squares before step `i`.
pub open spec fn agree_upto(a: Seq<Position>, b: Seq<Position>, i: int) -> bool {
    forall|j: int| 0 <= j < i ==> a[j] == b[j]
}

/// At the first step where the walks `a` and `b` part, `a` takes the step
/// of lower rank.
pub open spec fn precedes(from: Position, a: Seq<Position>, b: Seq<Position>) -> bool {
    exists|i: int|
        0 <= i < a.len() && i < b.len() && #[trigger] agree_upto(a, b, i) && turn(from, a, i)
            < turn(from, b, i)
}

/// `r` is a route from `from` to `to`, no route is shorter, and it precedes
/// every other route of its length.
pub open spec fn is_least_route(
    open: Set<Position>,
    from: Position,
    to: Position,
    r: Seq<Position>,
) -> bool {
    &&& is_route(open, from, to, r)
    &&& forall|o: Seq<Position>| #[trigger]
        is_route(open, from, to, o) ==> {
            &&& r.len() <= o.len()
            &&& (o.len() == r.len() ==> o == r || precedes(from, r, o))
        }
}

/// The least route from `from` to `to`, if `to` can be reached at all.
pub open spec fn least_route(open: Set<Position>, from: Position, to: Position) -> Option<
    Seq<Position>,
> {
    if exists|r: Seq<Position>| is_route(open, from, to, r) {
        Some(choose|r: Seq<Position>| is_least_route(open, from, to, r))
    } else {
        None
    }
}

/// Two least routes between the same squares are the same route.
pub proof fn lemma_least_route_unique(
    open: Set<Position>,
    from: Position,
    to: Position,
    a: Seq<Position>,
    b: Seq<Position>,
)
    requires
        is_least_route(open, from, to, a),
        is_least_route(open, from, to, b),
    ensures
        a == b,
{
    assert(a.len() == b.len());
    if a != b {
        assert(precedes(from, a, b));
        assert(precedes(from, b, a));
        let i = choose|i: int|
            0 <= i < a.len() && i < b.len() && #[trigger] agree_upto(a, b, i) && turn(from, a, i)
                < turn(from, b, i);
        let j = choose|j: int|
            0 <= j < b.len() && j < a.len() && #[trigger] agree_upto(b, a, j) && turn(from, b, j)
                < turn(from, a, j);
        if i < j {
            assert(b[i] == a[i]);
            if i > 0 {
                assert(b[i - 1] == a[i - 1]);
            }
        } else if j < i {
            assert(a[j] == b[j]);
            if j > 0 {
                assert(a[j - 1] == b[j - 1]);
            }
        } else {
            if i > 0 {
                assert(a[i - 1] == b[i - 1]);
            }
        }
    }
}

/// A least route is what `least_route` names.
pub proof fn lemma_least_route_is(
    open: Set<Position>,
    from: Position,
    to: Position,
    r: Seq<Position>,
)
    requires
        is_least_route(open, from, to, r),
    ensures
        least_route(open, from, to) == Some(r),
{
    let c = choose|c: Seq<Position>| is_least_route(open, from, to, c);
    lemma_least_route_unique(open, from, to, c, r);
}

/// Where no route exists, `least_route` names none.
pub proof fn lemma_least_route_none(open: Set<Position>, from: Position, to: Position)
    requires
        forall|r: Seq<Position>| !is_route(open, from, to, r),
    ensures
        least_route(open, from, to) is None,
{
}

/// A route to `b` followed by a route from `b` is a route.
pub proof fn lemma_route_join(
    open: Set<Position>,
    a: Position,
    b: Position,
    c: Position,
    r1: Seq<Position>,
    r2: Seq<Position>,
)
    requires
        is_route(open, a, b, r1),
        is_route(open, b, c, r2),
    ensures
        is_route(open, a, c, r1 + r2),
{
    let r = r1 + r2;
    assert forall|i: int| 0 <= i < r.len() implies #[trigger] step_ok(open, a, r, i) by {
        if i < r1.len() {
            assert(step_ok(open, a, r1, i));
        } else {
            let k = i - r1.len();
            assert(step_ok(open, b, r2, k));
            assert(r[i] == r2[k]);
            if k > 0 {
                assert(r[i - 1] == r2[k - 1]);
            }
        }
    }
}

/// The square `i` columns to the right of `a`.
pub open spec fn east(a: Position, i: int) -> Position {
    Position { x: (a.x + i) as usize, y: a.y }
}

/// The square `i` rows below `a`.
pub open spec fn south(a: Position, i: int) -> Position {
    Position { x: a.x, y: (a.y + i) as usize }
}

/// The `n` squares to the right of `a`, nearest first.
pub open spec fn run_east(a: Position, n: nat) -> Seq<Position> {
    Seq::new(n, |i: int| east(a, i + 1))
}

/// The `n` squares below `a`, nearest first.
pub open spec fn run_south(a: Position, n: nat) -> Seq<Position> {
    Seq::new(n, |i: int| south(a, i + 1))
}

/// Over open squares, walking straight to the right is a route.
pub proof fn lemma_run_east(open: Set<Position>, a: Position, n: nat)
    requires
        a.x + n <= usize::MAX,
        forall|i: int| 1 <= i <= n ==> open.contains(#[trigger] east(a, i)),
    ensures
        is_route(open, a, east(a, n as int), run_east(a, n)),
{
    let r = run_east(a, n);
    assert forall|i: int| 0 <= i < r.len() implies #[trigger] step_ok(open, a, r, i) by {
        assert(open.contains(east(a, i + 1)));
        if i > 0 {
            assert(r[i - 1] == east(a, i));
        }
    }
}

/// Over open squares, walking straight down is a route.
pub proof fn lemma_run_south(open: Set<Position>, a: Position, n: nat)
    requires
        a.y + n <= usize::MAX,
        forall|i: int| 1 <= i <= n ==> open.contains(#[trigger] south(a, i)),
    ensures
        is_route(open, a, south(a, n as int), run_south(a, n)),
{
    let r = run_south(a, n);
    assert forall|i: int| 0 <= i < r.len() implies #[trigger] step_ok(open, a, r, i) by {
        assert(open.contains(south(a, i + 1)));
        if i > 0 {
            assert(r[i - 1] == south(a, i));
        }
    }
}

} // verus!
