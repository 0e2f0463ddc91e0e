use std::collections::{HashSet, VecDeque};
use vstd::prelude::*;
use crate::cell::{grid_view, Cell, Position};
use crate::route::{
    adjacent, agree_upto, arrival, before, heading, in_bounds, is_least_route, is_route,
    least_route, lemma_least_route_is, lemma_least_route_none, lemma_toward, open_cells, passable,
    precedes, step_ok, toward, turn,
};
use crate::table::{mark, same_shape, shaped_like};

verus! {

/// What a breadth-first search has found so far: the squares in the order
/// in which it met them, and for each but the first the place in that order
/// of the square it was met from, its distance in steps, and, for every
/// square met, its place in the order.
struct Trace {
    order: Seq<Position>,
    parent: Seq<int>,
    depth: Seq<int>,
    slot: Map<Position, int>,
}

/// Square `i` was met from an earlier square next to it, one step nearer
/// to the start.
spec fn link_ok(open: Set<Position>, t: Trace, i: int) -> bool {
    let p = t.parent[i];
    &&& 0 <= p < i
    &&& open.contains(t.order[i])
    &&& adjacent(t.order[p], t.order[i])
    &&& t.depth[i] == t.depth[p] + 1
}

/// The rank of the step by which square `i` was met.
spec fn rank(t: Trace, i: int) -> int {
    heading(t.order[t.parent[i]], t.order[i])
}

/// The record is sound: it begins with the start, every other square hangs
/// on an earlier one, no square comes twice, squares met from earlier
/// squares come earlier, distances never fall along the order, and of two
/// squares met from the same square the one met by the step of lower rank
/// comes first.
spec fn trace_wf(open: Set<Position>, from: Position, t: Trace) -> bool {
    let n = t.order.len();
    &&& n >= 1
    &&& t.parent.len() == n
    &&& t.depth.len() == n
    &&& t.order[0] == from
    &&& t.depth[0] == 0
    &&& forall|i: int| 1 <= i < n ==> #[trigger] link_ok(open, t, i)
    &&& forall|i: int|
        0 <= i < n ==> t.slot.dom().contains(#[trigger] t.order[i]) && t.slot[t.order[i]] == i
    &&& forall|q: Position| #[trigger]
        t.slot.dom().contains(q) ==> 0 <= t.slot[q] < n && t.order[t.slot[q]] == q
    &&& forall|i: int, j: int|
        1 <= i <= j < n ==> #[trigger] t.parent[i] <= #[trigger] t.parent[j]
    &&& forall|i: int, j: int| 0 <= i <= j < n ==> #[trigger] t.depth[i] <= #[trigger] t.depth[j]
    &&& forall|i: int, j: int|
        1 <= i < j < n && #[trigger] t.parent[i] == #[trigger] t.parent[j] ==> rank(t, i) < rank(
            t,
            j,
        )
}

/// `q` has been met, and not from a square later than square `j`.
spec fn reached(t: Trace, q: Position, j: int) -> bool {
    t.slot.dom().contains(q) && (t.slot[q] == 0 || t.parent[t.slot[q]] <= j)
}

/// The steps of rank below `d` from square `j` have been looked at.
spec fn expanded(open: Set<Position>, t: Trace, j: int, d: int) -> bool {
    forall|q: Position|
        open.contains(q) && adjacent(t.order[j], q) && heading(t.order[j], q) < d
            ==> #[trigger] reached(t, q, j)
}

/// The first `head` squares are done with.
spec fn settled(open: Set<Position>, from: Position, t: Trace, head: int) -> bool {
    let n = t.order.len();
    &&& trace_wf(open, from, t)
    &&& 0 <= head <= n
    &&& forall|j: int| 0 <= j < head ==> #[trigger] expanded(open, t, j, 4)
    &&& forall|i: int| 1 <= i < n ==> #[trigger] t.parent[i] < head
}

/// The first `head` squares are done with, and of square `head` the steps
/// of rank below `d`.
spec fn frontier_ok(open: Set<Position>, from: Position, t: Trace, head: int, d: int) -> bool {
    let n = t.order.len();
    &&& trace_wf(open, from, t)
    &&& 0 <= head < n
    &&& forall|j: int| 0 <= j < head ==> #[trigger] expanded(open, t, j, 4)
    &&& expanded(open, t, head, d)
    &&& forall|i: int| 1 <= i < n ==> #[trigger] t.parent[i] <= head
    &&& forall|i: int| 1 <= i < n && #[trigger] t.parent[i] == head ==> rank(t, i) < d
}

/// What the search knows before it begins: the start alone.
spec fn seed(from: Position) -> Trace {
    Trace { order: seq![from], parent: seq![-1int], depth: seq![0int], slot: map![from => 0int] }
}

/// The record after the square `q` has been met from square `via`.
spec fn grow(t: Trace, q: Position, via: int) -> Trace {
    Trace {
        order: t.order.push(q),
        parent: t.parent.push(via),
        depth: t.depth.push(t.depth[via] + 1),
        slot: t.slot.insert(q, t.order.len() as int),
    }
}

/// The walk along which square `i` was met.
spec fn chain(t: Trace, i: int) -> Seq<Position>
    decreases i,
{
    if i <= 0 || !(0 <= t.parent[i] < i) {
        Seq::empty()
    } else {
        chain(t, t.parent[i]).push(t.order[i])
    }
}

/// The search begins in order.
proof fn lemma_seed(open: Set<Position>, from: Position)
    ensures
        settled(open, from, seed(from), 0),
{
    let t = seed(from);
    assert(t.order[0] == from);
}

/// Taking the next square from the queue keeps the search in order.
proof fn lemma_open_square(open: Set<Position>, from: Position, t: Trace, head: int)
    requires
        settled(open, from, t, head),
        head < t.order.len(),
    ensures
        frontier_ok(open, from, t, head, 0),
{
}

/// A step that leads to nothing new may be passed over.
proof fn lemma_skip(open: Set<Position>, from: Position, t: Trace, head: int, d: int)
    requires
        frontier_ok(open, from, t, head, d),
        forall|q: Position|
            open.contains(q) && #[trigger] adjacent(t.order[head], q) && heading(t.order[head], q)
                == d ==> t.slot.dom().contains(q),
    ensures
        frontier_ok(open, from, t, head, d + 1),
{
    assert forall|q: Position|
        open.contains(q) && adjacent(t.order[head], q) && heading(t.order[head], q) < d
            + 1 implies #[trigger] reached(t, q, head) by {
        if heading(t.order[head], q) < d {
            assert(reached(t, q, head));
        } else {
            let i = t.slot[q];
            if i != 0 {
                assert(t.parent[i] <= head);
            }
        }
    }
}

/// A step to an open square not met before adds that square to the record.
proof fn lemma_discover(
    open: Set<Position>,
    from: Position,
    t: Trace,
    head: int,
    d: int,
    q: Position,
)
    requires
        frontier_ok(open, from, t, head, d),
        open.contains(q),
        adjacent(t.order[head], q),
        heading(t.order[head], q) == d,
        !t.slot.dom().contains(q),
    ensures
        frontier_ok(open, from, grow(t, q, head), head, d + 1),
{
    let n = t.order.len() as int;
    let t2 = grow(t, q, head);
    assert(t.depth[0] <= t.depth[head]);
    assert forall|i: int| 1 <= i < n + 1 implies #[trigger] link_ok(open, t2, i) by {
        if i < n {
            assert(link_ok(open, t, i));
        }
    }
    assert forall|i: int| 0 <= i < n + 1 implies t2.slot.dom().contains(#[trigger] t2.order[i])
        && t2.slot[t2.order[i]] == i by {
        if i < n {
            assert(t.slot.dom().contains(t.order[i]));
        }
    }
    assert forall|o: Position| #[trigger] t2.slot.dom().contains(o) implies 0 <= t2.slot[o] < n + 1
        && t2.order[t2.slot[o]] == o by {
        if o != q {
            assert(t.slot.dom().contains(o));
        }
    }
    assert forall|i: int, j: int| 1 <= i <= j < n + 1 implies #[trigger] t2.parent[i]
        <= #[trigger] t2.parent[j] by {
        if j < n {
            assert(t.parent[i] <= t.parent[j]);
        } else if i < n {
            assert(t.parent[i] <= head);
        }
    }
    assert forall|i: int, j: int| 0 <= i <= j < n + 1 implies #[trigger] t2.depth[i]
        <= #[trigger] t2.depth[j] by {
        if j < n {
            assert(t.depth[i] <= t.depth[j]);
        } else if i < n {
            if i >= 1 {
                assert(link_ok(open, t, i));
                assert(t.parent[i] <= head);
                assert(t.depth[t.parent[i]] <= t.depth[head]);
            }
        }
    }
    assert forall|i: int, j: int|
        1 <= i < j < n + 1 && #[trigger] t2.parent[i] == #[trigger] t2.parent[j] implies rank(
        t2,
        i,
    ) < rank(t2, j) by {
        assert(link_ok(open, t, i));
        if j < n {
            assert(link_ok(open, t, j));
            assert(t.parent[i] == t.parent[j]);
            assert(rank(t, i) < rank(t, j));
        } else {
            assert(t.parent[i] == head);
            assert(rank(t, i) < d);
        }
    }
    assert(trace_wf(open, from, t2));
    assert forall|j: int| 0 <= j < head implies #[trigger] expanded(open, t2, j, 4) by {
        assert(expanded(open, t, j, 4));
        assert forall|o: Position|
            open.contains(o) && adjacent(t2.order[j], o) && heading(t2.order[j], o)
                < 4 implies #[trigger] reached(t2, o, j) by {
            assert(reached(t, o, j));
        }
    }
    assert forall|o: Position|
        open.contains(o) && adjacent(t2.order[head], o) && heading(t2.order[head], o) < d
            + 1 implies #[trigger] reached(t2, o, head) by {
        if heading(t.order[head], o) < d {
            assert(reached(t, o, head));
        } else {
            assert(o == q);
        }
    }
    assert forall|i: int| 1 <= i < n + 1 implies #[trigger] t2.parent[i] <= head by {
        if i < n {
            assert(t.parent[i] <= head);
        }
    }
    assert forall|i: int| 1 <= i < n + 1 && #[trigger] t2.parent[i] == head implies rank(t2, i) < d
        + 1 by {
        if i < n {
            assert(t.parent[i] == head);
            assert(link_ok(open, t, i));
        }
    }
}

/// After its four steps a square is done with.
proof fn lemma_close(open: Set<Position>, from: Position, t: Trace, head: int)
    requires
        frontier_ok(open, from, t, head, 4),
    ensures
        settled(open, from, t, head + 1),
{
    assert forall|i: int| 1 <= i < t.order.len() implies #[trigger] t.parent[i] < head + 1 by {
        assert(t.parent[i] <= head);
    }
}

/// The walk along which a square was met is a route to it, as long as the
/// square's distance.
proof fn lemma_chain(open: Set<Position>, from: Position, t: Trace, i: int)
    requires
        trace_wf(open, from, t),
        0 <= i < t.order.len(),
    ensures
        is_route(open, from, t.order[i], chain(t, i)),
        chain(t, i).len() == t.depth[i],
    decreases i,
{
    if i > 0 {
        assert(link_ok(open, t, i));
        let p = t.parent[i];
        lemma_chain(open, from, t, p);
        let c0 = chain(t, p);
        let c = chain(t, i);
        assert(c == c0.push(t.order[i]));
        assert forall|k: int| 0 <= k < c.len() implies #[trigger] step_ok(open, from, c, k) by {
            if k < c0.len() {
                assert(step_ok(open, from, c0, k));
            } else {
                assert(before(from, c, k) == arrival(from, c0));
            }
        }
    }
}

/// Along a walk from the start, either the search front has been met within
/// `m` steps, or the square after `m` steps is done with and no farther than
/// `m` steps from the start.
proof fn lemma_walk(
    open: Set<Position>,
    from: Position,
    t: Trace,
    head: int,
    r: Seq<Position>,
    m: int,
)
    requires
        settled(open, from, t, head),
        forall|i: int| 0 <= i < r.len() ==> #[trigger] step_ok(open, from, r, i),
        0 <= m <= r.len(),
    ensures
        (head < t.order.len() && t.depth[head] <= m) || ({
            let q = before(from, r, m);
            &&& t.slot.dom().contains(q)
            &&& t.slot[q] < head
            &&& t.depth[t.slot[q]] <= m
        }),
    decreases m,
{
    if m == 0 {
        assert(t.slot.dom().contains(t.order[0]));
    } else {
        lemma_walk(open, from, t, head, r, m - 1);
        if !(head < t.order.len() && t.depth[head] <= m - 1) {
            let q0 = before(from, r, m - 1);
            let j = t.slot[q0];
            let q = r[m - 1];
            assert(step_ok(open, from, r, m - 1));
            assert(expanded(open, t, j, 4));
            assert(reached(t, q, j));
            let i = t.slot[q];
            if i != 0 {
                assert(link_ok(open, t, i));
                assert(t.depth[t.parent[i]] <= t.depth[j]);
            }
            if i >= head {
                assert(t.depth[head] <= t.depth[i]);
            }
        }
    }
}

/// Among the squares at one distance, one met earlier has its walk before
/// every shortest route to one met later.
proof fn lemma_order(
    open: Set<Position>,
    from: Position,
    t: Trace,
    head: int,
    u: int,
    w: int,
    r: Seq<Position>,
)
    requires
        settled(open, from, t, head),
        head < t.order.len(),
        0 <= u <= w <= head,
        t.depth[u] == t.depth[w],
        is_route(open, from, t.order[w], r),
        r.len() == t.depth[w],
    ensures
        u < w ==> precedes(from, chain(t, u), r),
        u == w ==> chain(t, u) == r || precedes(from, chain(t, u), r),
    decreases r.len(),
{
    let k = r.len() as int;
    if w >= 1 {
        assert(link_ok(open, t, w));
        assert(t.depth[0] <= t.depth[t.parent[w]]);
    }
    if u >= 1 {
        assert(link_ok(open, t, u));
        assert(t.depth[0] <= t.depth[t.parent[u]]);
    }
    if k == 0 {
        assert(chain(t, u) =~= r);
    } else {
        let q0 = before(from, r, k - 1);
        assert(t.depth[w] <= t.depth[head]);
        lemma_walk(open, from, t, head, r, k - 1);
        let j0 = t.slot[q0];
        if j0 >= w {
            assert(t.depth[w] <= t.depth[j0]);
        }
        assert(j0 < w);
        assert(step_ok(open, from, r, k - 1));
        assert(r[k - 1] == t.order[w]);
        assert(expanded(open, t, j0, 4));
        assert(reached(t, t.order[w], j0));
        let pw = t.parent[w];
        let pu = t.parent[u];
        assert(pw <= j0);
        assert(t.depth[pw] <= t.depth[j0]);
        assert(t.depth[j0] == k - 1);
        let r0 = r.drop_last();
        assert forall|i: int| 0 <= i < r0.len() implies #[trigger] step_ok(open, from, r0, i) by {
            assert(step_ok(open, from, r, i));
        }
        assert(arrival(from, r0) == q0);
        assert(t.parent[u] <= t.parent[w]);
        lemma_order(open, from, t, head, pu, j0, r0);
        lemma_chain(open, from, t, pu);
        let c0 = chain(t, pu);
        let c = chain(t, u);
        assert(c == c0.push(t.order[u]));
        if precedes(from, c0, r0) {
            let i = choose|i: int|
                0 <= i < c0.len() && i < r0.len() && #[trigger] agree_upto(c0, r0, i) && turn(
                    from,
                    c0,
                    i,
                ) < turn(from, r0, i);
            assert(agree_upto(c, r, i)) by {
                assert forall|j: int| 0 <= j < i implies c[j] == r[j] by {
                    assert(c0[j] == r0[j]);
                }
            }
            if i > 0 {
                assert(c0[i - 1] == r0[i - 1]);
            }
            assert(turn(from, c, i) == turn(from, c0, i));
            assert(turn(from, r, i) == turn(from, r0, i));
            assert(precedes(from, c, r));
        } else {
            assert(pu == j0);
            assert(pw == j0);
            assert(c0 == r0);
            if u == w {
                assert(c =~= r);
            } else {
                assert(rank(t, u) < rank(t, w));
                assert(agree_upto(c, r, k - 1)) by {
                    assert forall|j: int| 0 <= j < k - 1 implies c[j] == r[j] by {
                        assert(c0[j] == r0[j]);
                    }
                }
                assert(before(from, c, k - 1) == arrival(from, c0));
                assert(before(from, r, k - 1) == q0);
                assert(turn(from, c, k - 1) == rank(t, u));
                assert(turn(from, r, k - 1) == rank(t, w));
                assert(precedes(from, c, r));
            }
        }
    }
}

/// When the search takes the goal from its queue, the walk along which the
/// goal was met is the least route.
proof fn lemma_found(open: Set<Position>, from: Position, to: Position, t: Trace, head: int)
    requires
        settled(open, from, t, head),
        head < t.order.len(),
        t.order[head] == to,
    ensures
        is_least_route(open, from, to, chain(t, head)),
{
    let c = chain(t, head);
    lemma_chain(open, from, t, head);
    assert forall|o: Seq<Position>| #[trigger] is_route(open, from, to, o) implies c.len()
        <= o.len() && (o.len() == c.len() ==> o == c || precedes(from, c, o)) by {
        lemma_walk(open, from, t, head, o, o.len() as int);
        assert(t.slot.dom().contains(t.order[head]));
        if o.len() == c.len() {
            lemma_order(open, from, t, head, head, head, o);
        }
    }
}

/// When the queue runs empty and the goal was never taken from it, no route
/// leads to the goal.
proof fn lemma_exhausted(open: Set<Position>, from: Position, to: Position, t: Trace)
    requires
        settled(open, from, t, t.order.len() as int),
        forall|j: int| 0 <= j < t.order.len() ==> #[trigger] t.order[j] != to,
    ensures
        forall|r: Seq<Position>| !is_route(open, from, to, r),
{
    assert forall|r: Seq<Position>| !is_route(open, from, to, r) by {
        if is_route(open, from, to, r) {
            lemma_walk(open, from, t, t.order.len() as int, r, r.len() as int);
            let q = before(from, r, r.len() as int);
            assert(q == to);
            assert(t.order[t.slot[q]] == to);
        }
    }
}

/// The first `m` squares of row `y`.
spec fn row_squares(y: usize, m: nat) -> Set<Position> {
    Set::new(|p: Position| p.y == y && p.x < m)
}

/// The squares of the first `k` rows of the grid.
spec fn squares_above(cells: Seq<Seq<Cell>>, k: nat) -> Set<Position> {
    Set::new(|p: Position| p.y < k && in_bounds(cells, p))
}

/// A row has finitely many squares.
proof fn lemma_row_finite(y: usize, m: nat)
    ensures
        row_squares(y, m).finite(),
    decreases m,
{
    if m == 0 {
        assert(row_squares(y, m) =~= Set::empty());
    } else {
        lemma_row_finite(y, (m - 1) as nat);
        if m - 1 <= usize::MAX {
            assert(row_squares(y, m) =~= row_squares(y, (m - 1) as nat).insert(
                Position { x: (m - 1) as usize, y: y },
            ));
        } else {
            assert(row_squares(y, m) =~= row_squares(y, (m - 1) as nat));
        }
    }
}

/// A grid has finitely many squares.
proof fn lemma_squares_finite(cells: Seq<Seq<Cell>>, k: nat)
    requires
        k <= cells.len(),
    ensures
        squares_above(cells, k).finite(),
    decreases k,
{
    if k == 0 {
        assert(squares_above(cells, k) =~= Set::empty());
    } else {
        lemma_squares_finite(cells, (k - 1) as nat);
        if k - 1 <= usize::MAX {
            lemma_row_finite((k - 1) as usize, cells[k - 1].len());
            assert(squares_above(cells, k) =~= squares_above(cells, (k - 1) as nat).union(
                row_squares((k - 1) as usize, cells[k - 1].len()),
            ));
        } else {
            assert(squares_above(cells, k) =~= squares_above(cells, (k - 1) as nat));
        }
    }
}

/// The open squares that the search has not met.
spec fn unseen(open: Set<Position>, t: Trace) -> Set<Position> {
    open.difference(t.slot.dom())
}

/// Looks at the steps of rank `d` and above from square `head`, as the
/// search does, and gives what has been found after that.
proof fn lemma_expand(open: Set<Position>, from: Position, t: Trace, head: int, d: int) -> (t2:
    Trace)
    requires
        open.finite(),
        frontier_ok(open, from, t, head, d),
        0 <= d <= 4,
    ensures
        frontier_ok(open, from, t2, head, 4),
        t2.order.len() >= t.order.len(),
        forall|i: int| 0 <= i < t.order.len() ==> t2.order[i] == t.order[i],
        unseen(open, t2).len() + t2.order.len() == unseen(open, t).len() + t.order.len(),
    decreases 4 - d,
{
    if d == 4 {
        t
    } else {
        let here = t.order[head];
        let fresh = match toward(here, d) {
            Some(q) => open.contains(q) && !t.slot.dom().contains(q),
            None => false,
        };
        if fresh {
            let q = toward(here, d).unwrap();
            lemma_discover(open, from, t, head, d, q);
            let t1 = grow(t, q, head);
            assert(unseen(open, t1) =~= unseen(open, t).remove(q));
            lemma_expand(open, from, t1, head, d + 1)
        } else {
            assert forall|o: Position|
                open.contains(o) && #[trigger] adjacent(here, o) && heading(here, o)
                    == d implies t.slot.dom().contains(o) by {
                assert(toward(here, d) == Some(o));
            }
            lemma_skip(open, from, t, head, d);
            lemma_expand(open, from, t, head, d + 1)
        }
    }
}

/// Carries the search on from what it has found to its end, and gives its
/// answer: the least route, or none where the goal cannot be reached.
proof fn lemma_search(open: Set<Position>, from: Position, to: Position, t: Trace, head: int) -> (r:
    Option<Seq<Position>>)
    requires
        open.finite(),
        settled(open, from, t, head),
        forall|j: int| 0 <= j < head ==> #[trigger] t.order[j] != to,
    ensures
        match r {
            Some(p) => is_least_route(open, from, to, p),
            None => forall|o: Seq<Position>| !is_route(open, from, to, o),
        },
    decreases unseen(open, t).len() + t.order.len() - head,
{
    if head == t.order.len() {
        lemma_exhausted(open, from, to, t);
        None
    } else if t.order[head] == to {
        lemma_found(open, from, to, t, head);
        Some(chain(t, head))
    } else {
        lemma_open_square(open, from, t, head);
        let t2 = lemma_expand(open, from, t, head, 0);
        lemma_close(open, from, t2, head);
        lemma_search(open, from, to, t2, head + 1)
    }
}

/// Among finitely many open squares, wherever a route leads from `from` to
/// `to`, there is a least one, and `least_route` names it.
pub proof fn lemma_least_route_exists(open: Set<Position>, from: Position, to: Position)
    requires
        open.finite(),
    ensures
        match least_route(open, from, to) {
            Some(r) => is_least_route(open, from, to, r),
            None => forall|o: Seq<Position>| !is_route(open, from, to, o),
        },
{
    lemma_seed(open, from);
    match lemma_search(open, from, to, seed(from), 0) {
        Some(p) => {
            lemma_least_route_is(open, from, to, p);
        },
        None => {},
    }
}

/// A grid has finitely many squares that can be walked on.
pub proof fn lemma_open_cells_finite(cells: Seq<Seq<Cell>>)
    ensures
        open_cells(cells).finite(),
{
    lemma_squares_finite(cells, cells.len());
    vstd::set_lib::lemma_set_subset_finite(
        squares_above(cells, cells.len()),
        open_cells(cells),
    );
}

/// Whether `p` is a square of the grid that is no wall.
pub fn is_open(grid: &Vec<Vec<Cell>>, p: Position) -> (b: bool)
    ensures
        b == passable(grid_view(*grid), p),
{
    if p.y < grid.len() && p.x < grid[p.y].len() {
        match grid[p.y][p.x] {
            Cell::Wall => false,
            _ => true,
        }
    } else {
        false
    }
}

/// The square one step from `p` in the direction of rank `d` (0 up, 1 down,
/// 2 left, 3 right), unless that would leave the range of coordinates.
pub fn neighbor(p: Position, d: u8) -> (q: Option<Position>)
    requires
        d < 4,
    ensures
        q == toward(p, d as int),
{
    if d == 0 {
        if p.y > 0 {
            Some(Position { x: p.x, y: p.y - 1 })
        } else {
            None
        }
    } else if d == 1 {
        if p.y < usize::MAX {
            Some(Position { x: p.x, y: p.y + 1 })
        } else {
            None
        }
    } else if d == 2 {
        if p.x > 0 {
            Some(Position { x: p.x - 1, y: p.y })
        } else {
            None
        }
    } else {
        if p.x < usize::MAX {
            Some(Position { x: p.x + 1, y: p.y })
        } else {
            None
        }
    }
}

/// The entries of `v` in reverse order.
fn reversed(v: &Vec<Position>) -> (r: Vec<Position>)
    ensures
        r@ == v@.reverse(),
{
    let mut r: Vec<Position> = Vec::new();
    let mut i: usize = v.len();
    while i > 0
        invariant
            i <= v.len(),
            r.len() == v.len() - i,
            forall|k: int| 0 <= k < r.len() ==> r[k] == v[v.len() - 1 - k],
        decreases i,
    {
        i -= 1;
        r.push(v[i]);
    }
    assert(r@ =~= v@.reverse());
    r
}

/// The number under which a square is kept in the set of squares seen: the
/// row in the upper half, the column in the lower.
spec fn key_of(p: Position) -> u128 {
    (p.y as u128 * 0x1_0000_0000_0000_0000u128 + p.x as u128) as u128
}

/// Computes the number under which a square is kept in the set of squares
/// seen.
fn key(p: Position) -> (k: u128)
    ensures
        k == key_of(p),
{
    p.y as u128 * 0x1_0000_0000_0000_0000u128 + p.x as u128
}

/// Two squares with the same number are the same square.
proof fn lemma_key_injective(p: Position, q: Position)
    requires
        key_of(p) == key_of(q),
    ensures
        p == q,
{
}

/// The set and the table of the search agree with what it has found: a
/// square is in the set of squares seen exactly when it was met, and each
/// square met from another has that other square noted as its parent.
spec fn marks_ok(
    cells: Seq<Seq<Cell>>,
    seen: HashSet<u128>,
    parent: Vec<Vec<Option<Position>>>,
    t: Trace,
) -> bool {
    &&& same_shape(parent, cells)
    &&& forall|p: Position|
        #![trigger t.slot.dom().contains(p)]
        #![trigger key_of(p)]
        seen@.contains(key_of(p)) == t.slot.dom().contains(p)
    &&& forall|i: int|
        1 <= i < t.order.len() ==> parent[(#[trigger] t.order[i]).y as int][t.order[i].x as int]
            == Some(t.order[t.parent[i]])
}

/// Searches the grid breadth first for the least route from `start` to
/// `end`: a shortest walk over squares that are no wall, and among the
/// shortest the one that at each parting of ways goes up rather than down,
/// down rather than left, left rather than right. The route lists the
/// squares stepped on, `end` last and `start` left out. `None` means that no
/// walk leads from `start` to `end`.
pub fn shortest_route(grid: &Vec<Vec<Cell>>, start: Position, end: Position) -> (found: Option<
    Vec<Position>,
>)
    ensures
        match found {
            Some(path) => {
                &&& is_least_route(open_cells(grid_view(*grid)), start, end, path@)
                &&& least_route(open_cells(grid_view(*grid)), start, end) == Some(path@)
            },
            None => {
                &&& forall|r: Seq<Position>|
                    !is_route(open_cells(grid_view(*grid)), start, end, r)
                &&& least_route(open_cells(grid_view(*grid)), start, end) is None
            },
        },
{
    let ghost cells = grid_view(*grid);
    let ghost open = open_cells(cells);
    let mut queue: VecDeque<Position> = VecDeque::new();
    let mut seen: HashSet<u128> = HashSet::new();
    let mut parent: Vec<Vec<Option<Position>>> = shaped_like(grid, None);
    queue.push_back(start);
    seen.insert(key(start));
    let ghost mut t = seed(start);
    let ghost mut head: int = 0;
    let ghost mut fresh: Set<Position> = squares_above(cells, cells.len());
    proof {
        lemma_seed(open, start);
        lemma_squares_finite(cells, cells.len());
        assert(queue@ =~= t.order.subrange(0, 1));
        assert forall|p: Position|
            #![trigger t.slot.dom().contains(p)]
            #![trigger key_of(p)]
            seen@.contains(key_of(p)) == t.slot.dom().contains(p) by {
            if key_of(p) == key_of(start) {
                lemma_key_injective(p, start);
            }
        }
    }
    loop
        invariant
            cells == grid_view(*grid),
            open == open_cells(cells),
            settled(open, start, t, head),
            queue@ =~= t.order.subrange(head, t.order.len() as int),
            marks_ok(cells, seen, parent, t),
            forall|j: int| 0 <= j < head ==> #[trigger] t.order[j] != end,
            fresh.finite(),
            forall|p: Position|
                in_bounds(cells, p) && !t.slot.dom().contains(p) ==> #[trigger] fresh.contains(p),
        decreases fresh.len() + queue@.len(),
    {
        let ghost budget = fresh.len() + queue@.len();
        let current = match queue.pop_front() {
            Some(c) => c,
            None => {
                proof {
                    lemma_exhausted(open, start, end, t);
                    lemma_least_route_none(open, start, end);
                }
                return None;
            },
        };
        assert(current == t.order[head]);
        if current.x == end.x && current.y == end.y {
            proof {
                lemma_found(open, start, end, t, head);
                lemma_chain(open, start, t, head);
            }
            let ghost goal = chain(t, head);
            let mut back: Vec<Position> = Vec::new();
            let mut step = current;
            let ghost mut i = head;
            while step.x != start.x || step.y != start.y
                invariant
                    trace_wf(open, start, t),
                    marks_ok(cells, seen, parent, t),
                    open == open_cells(cells),
                    0 <= i <= head < t.order.len(),
                    step == t.order[i],
                    goal == chain(t, head),
                    goal.len() == back.len() + chain(t, i).len(),
                    forall|k: int| 0 <= k < chain(t, i).len() ==> goal[k] == chain(t, i)[k],
                    forall|k: int| 0 <= k < back.len() ==> back[k] == goal[goal.len() - 1 - k],
                decreases i,
            {
                proof {
                    assert(t.slot[t.order[i]] == i);
                    assert(t.slot[t.order[0]] == 0);
                    assert(i >= 1);
                    assert(link_ok(open, t, i));
                    assert(chain(t, i) == chain(t, t.parent[i]).push(t.order[i]));
                    assert(goal[chain(t, i).len() - 1] == chain(t, i)[chain(t, i).len() - 1]);
                    assert(in_bounds(cells, step));
                }
                back.push(step);
                step = parent[step.y][step.x].unwrap();
                proof {
                    let p = t.parent[i];
                    assert forall|k: int| 0 <= k < chain(t, p).len() implies goal[k] == chain(
                        t,
                        p,
                    )[k] by {
                        assert(goal[k] == chain(t, i)[k]);
                    }
                    i = p;
                }
            }
            proof {
                assert(t.slot[t.order[i]] == i);
                assert(t.slot[t.order[0]] == 0);
                assert(i == 0);
            }
            let path = reversed(&back);
            proof {
                assert(path@ =~= goal);
                lemma_least_route_is(open, start, end, goal);
            }
            return Some(path);
        }
        proof {
            lemma_open_square(open, start, t, head);
            assert(queue@ =~= t.order.subrange(head + 1, t.order.len() as int));
        }
        let mut d: u8 = 0;
        while d < 4
            invariant
                cells == grid_view(*grid),
                open == open_cells(cells),
                d <= 4,
                frontier_ok(open, start, t, head, d as int),
                current == t.order[head],
                queue@ =~= t.order.subrange(head + 1, t.order.len() as int),
                marks_ok(cells, seen, parent, t),
                forall|j: int| 0 <= j <= head ==> #[trigger] t.order[j] != end,
                fresh.finite(),
                forall|p: Position|
                    in_bounds(cells, p) && !t.slot.dom().contains(p) ==> #[trigger] fresh.contains(
                        p,
                    ),
                fresh.len() + queue@.len() + 1 == budget,
            decreases 4 - d,
        {
            let mut fresh_square: Option<Position> = None;
            proof {
                lemma_toward(current, d as int);
            }
            match neighbor(current, d) {
                Some(q) => {
                    if is_open(grid, q) && !seen.contains(&key(q)) {
                        fresh_square = Some(q);
                    }
                },
                None => {},
            }
            match fresh_square {
                Some(q) => {
                    seen.insert(key(q));
                    mark(&mut parent, q, Some(current));
                    queue.push_back(q);
                    proof {
                        lemma_discover(open, start, t, head, d as int, q);
                        let t2 = grow(t, q, head);
                        assert(queue@ =~= t2.order.subrange(head + 1, t2.order.len() as int));
                        assert forall|i: int| 1 <= i < t2.order.len() implies parent[(
                        #[trigger] t2.order[i]).y as int][t2.order[i].x as int] == Some(
                            t2.order[t2.parent[i]],
                        ) by {
                            if i < t.order.len() {
                                assert(link_ok(open, t, i));
                                assert(t.slot.dom().contains(t.order[i]));
                            }
                        }
                        assert forall|p: Position|
                            #![trigger t2.slot.dom().contains(p)]
                            #![trigger key_of(p)]
                            seen@.contains(key_of(p)) == t2.slot.dom().contains(p) by {
                            if key_of(p) == key_of(q) {
                                lemma_key_injective(p, q);
                            }
                            assert(seen@.contains(key_of(p)) == (key_of(p) == key_of(q)
                                || t.slot.dom().contains(p)));
                        }
                        assert forall|j: int| 0 <= j <= head implies #[trigger] t2.order[j]
                            != end by {
                            assert(t.order[j] != end);
                        }
                        fresh = fresh.remove(q);
                        t = t2;
                    }
                },
                None => {
                    proof {
                        lemma_skip(open, start, t, head, d as int);
                    }
                },
            }
            d += 1;
        }
        proof {
            lemma_close(open, start, t, head);
            head = head + 1;
        }
    }
}

} // verus!
