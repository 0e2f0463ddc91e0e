use vstd::prelude::*;
use crate::cell::{grid_view, Cell, Position};

verus! {

/// `v` has a row for each row of `cells`, of the same length.
pub open spec fn same_shape<T>(v: Vec<Vec<T>>, cells: Seq<Seq<Cell>>) -> bool {
    &&& v.len() == cells.len()
    &&& forall|y: int| 0 <= y < v.len() ==> (#[trigger] v[y]).len() == cells[y].len()
}

/// A table with one entry for each square of the grid, all equal to `fill`.
pub(crate) fn shaped_like<T: Copy>(grid: &Vec<Vec<Cell>>, fill: T) -> (v: Vec<Vec<T>>)
    ensures
        same_shape(v, grid_view(*grid)),
        forall|y: int, x: int|
            0 <= y < v.len() && 0 <= x < v[y].len() ==> (#[trigger] v[y][x]) == fill,
{
    let mut v: Vec<Vec<T>> = Vec::new();
    let mut y: usize = 0;
    while y < grid.len()
        invariant
            y <= grid.len(),
            v.len() == y,
            forall|j: int| 0 <= j < y ==> (#[trigger] v[j]).len() == grid[j].len(),
            forall|j: int, x: int|
                0 <= j < v.len() && 0 <= x < v[j].len() ==> (#[trigger] v[j][x]) == fill,
        decreases grid.len() - y,
    {
        let mut row: Vec<T> = Vec::new();
        let mut x: usize = 0;
        while x < grid[y].len()
            invariant
                y < grid.len(),
                x <= grid[y as int].len(),
                row.len() == x,
                forall|i: int| 0 <= i < x ==> (#[trigger] row[i]) == fill,
            decreases grid[y as int].len() - x,
        {
            row.push(fill);
            x += 1;
        }
        v.push(row);
        y += 1;
    }
    v
}

/// Writes `value` into the entry of the table for square `p`.
pub(crate) fn mark<T>(v: &mut Vec<Vec<T>>, p: Position, value: T)
    requires
        p.y < old(v).len(),
        p.x < old(v)[p.y as int].len(),
    ensures
        final(v).len() == old(v).len(),
        forall|y: int| 0 <= y < old(v).len() ==> (#[trigger] final(v)[y]).len() == old(v)[y].len(),
        forall|y: int, x: int|
            0 <= y < old(v).len() && 0 <= x < old(v)[y].len() ==> (#[trigger] final(v)[y][x]) == (
            if y == p.y && x == p.x {
                value
            } else {
                old(v)[y][x]
            }),
{
    v[p.y][p.x] = value;
}

} // verus!
