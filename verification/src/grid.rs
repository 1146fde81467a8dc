//! Grid addressing: cells are numbered row by row, `index = y * dim_x + x`.

use vstd::arithmetic::div_mod::{
    lemma_fundamental_div_mod, lemma_fundamental_div_mod_converse, lemma_mod_bound,
};
use vstd::prelude::*;

verus! {

/// Column (`x`) of cell `idx` on a grid that is `dim_x` cells wide.
pub open spec fn col(idx: int, dim_x: int) -> int {
    idx % dim_x
}

/// Row (`y`) of cell `idx` on a grid that is `dim_x` cells wide.
pub open spec fn row(idx: int, dim_x: int) -> int {
    idx / dim_x
}

/// Absolute difference of two integers.
pub open spec fn abs_diff(a: int, b: int) -> int {
    if a >= b {
        a - b
    } else {
        b - a
    }
}

/// Manhattan distance between the cells `a` and `b`.
pub open spec fn manhattan_distance(a: int, b: int, dim_x: int) -> int {
    abs_diff(col(a, dim_x), col(b, dim_x)) + abs_diff(row(a, dim_x), row(b, dim_x))
}

/// The one-element sequence `[cell]` if `cond` holds, the empty sequence otherwise.
pub open spec fn offered(cond: bool, cell: int) -> Seq<usize> {
    if cond {
        seq![cell as usize]
    } else {
        Seq::empty()
    }
}

/// The neighbours of `idx` in the order in which the search visits them:
/// left, left-up, left-down, right, right-up, right-down, up, down.
/// A move is offered only if it stays on the grid; diagonal moves are
/// offered only if `diagonals` is set.
pub open spec fn neighbors(idx: usize, dim_x: usize, dim_y: usize, diagonals: bool) -> Seq<usize> {
    let left = col(idx as int, dim_x as int) > 0;
    let right = col(idx as int, dim_x as int) < dim_x - 1;
    let up = row(idx as int, dim_x as int) > 0;
    let down = row(idx as int, dim_x as int) < dim_y - 1;
    offered(left, idx - 1) + offered(left && diagonals && up, idx - 1 - dim_x) + offered(
        left && diagonals && down,
        idx - 1 + dim_x,
    ) + offered(right, idx + 1) + offered(right && diagonals && up, idx + 1 - dim_x) + offered(
        right && diagonals && down,
        idx + 1 + dim_x,
    ) + offered(up, idx - dim_x) + offered(down, idx + dim_x)
}

/// A cell index is its row times the width plus its column, and the
/// column is less than the width.
pub proof fn lemma_cell_decomposition(idx: int, dim_x: int)
    requires
        0 <= idx,
        0 < dim_x,
    ensures
        idx == row(idx, dim_x) * dim_x + col(idx, dim_x),
        0 <= col(idx, dim_x) < dim_x,
        0 <= row(idx, dim_x) <= idx,
{
    lemma_fundamental_div_mod(idx, dim_x);
    lemma_mod_bound(idx, dim_x);
    let q = idx / dim_x;
    assert(dim_x * q == q * dim_x) by (nonlinear_arith);
    assert(0 <= q <= idx) by (nonlinear_arith)
        requires
            idx == q * dim_x + idx % dim_x,
            0 <= idx % dim_x < dim_x,
            0 <= idx,
            0 < dim_x,
    ;
}

/// A cell of a `dim_x` by `dim_y` grid lies in one of its `dim_y` rows.
pub proof fn lemma_row_in_grid(idx: int, dim_x: int, dim_y: int)
    requires
        0 <= idx < dim_x * dim_y,
        0 < dim_x,
    ensures
        0 <= row(idx, dim_x) < dim_y,
{
    lemma_cell_decomposition(idx, dim_x);
    let q = row(idx, dim_x);
    let r = col(idx, dim_x);
    assert(q < dim_y) by (nonlinear_arith)
        requires
            q * dim_x + r < dim_x * dim_y,
            0 <= r,
            0 < dim_x,
    ;
}

/// The cell in row `y` and column `x` has the index `y * dim_x + x`.
pub proof fn lemma_cell_of_coords(x: int, y: int, dim_x: int)
    requires
        0 <= x < dim_x,
        0 <= y,
    ensures
        col(y * dim_x + x, dim_x) == x,
        row(y * dim_x + x, dim_x) == y,
{
    lemma_fundamental_div_mod_converse(y * dim_x + x, dim_x, y, x);
}

/// The Manhattan distance between two cells is at most the larger of
/// their indices.
pub proof fn lemma_manhattan_bound(a: int, b: int, dim_x: int)
    requires
        0 <= a,
        0 <= b,
        0 < dim_x,
    ensures
        0 <= manhattan_distance(a, b, dim_x),
        manhattan_distance(a, b, dim_x) <= a || manhattan_distance(a, b, dim_x) <= b,
{
    lemma_cell_decomposition(a, dim_x);
    lemma_cell_decomposition(b, dim_x);
    let row_a = row(a, dim_x);
    let row_b = row(b, dim_x);
    if row_a > row_b {
        assert(row_a * dim_x >= dim_x + row_a - 1) by (nonlinear_arith)
            requires
                row_a >= 1,
                dim_x >= 1,
        ;
    } else if row_b > row_a {
        assert(row_b * dim_x >= dim_x + row_b - 1) by (nonlinear_arith)
            requires
                row_b >= 1,
                dim_x >= 1,
        ;
    }
}

/// Whether one move leads from cell `a` to cell `b`: both are cells of the
/// grid, `b` lies in a column and a row next to or equal to those of `a`,
/// and is another cell. Unless `diagonals` is set, column or row stay.
pub open spec fn adjacent(a: usize, b: usize, dim_x: usize, dim_y: usize, diagonals: bool) -> bool {
    let dx = abs_diff(col(a as int, dim_x as int), col(b as int, dim_x as int));
    let dy = abs_diff(row(a as int, dim_x as int), row(b as int, dim_x as int));
    &&& a < dim_x * dim_y
    &&& b < dim_x * dim_y
    &&& dx <= 1
    &&& dy <= 1
    &&& dx + dy >= 1
    &&& diagonals || dx + dy == 1
}

/// The index that lies `ox` columns and `oy` rows from `idx`, for `oy`
/// one of -1, 0 and 1.
spec fn moved(idx: int, dim_x: int, ox: int, oy: int) -> int {
    idx + ox + if oy == 1 {
        dim_x
    } else if oy == 0 {
        0
    } else {
        -dim_x
    }
}

/// Where the position `ox` columns and `oy` rows from the cell `idx` is on
/// the grid, `moved` gives the cell at that position.
proof fn lemma_moved(idx: int, dim_x: int, dim_y: int, ox: int, oy: int)
    requires
        0 < dim_x,
        0 <= idx < dim_x * dim_y,
        0 <= col(idx, dim_x) + ox < dim_x,
        0 <= row(idx, dim_x) + oy < dim_y,
        -1 <= oy <= 1,
    ensures
        0 <= moved(idx, dim_x, ox, oy) < dim_x * dim_y,
        col(moved(idx, dim_x, ox, oy), dim_x) == col(idx, dim_x) + ox,
        row(moved(idx, dim_x, ox, oy), dim_x) == row(idx, dim_x) + oy,
{
    lemma_cell_decomposition(idx, dim_x);
    let x = col(idx, dim_x) + ox;
    let y = row(idx, dim_x) + oy;
    assert(y * dim_x + x == moved(idx, dim_x, ox, oy)) by (nonlinear_arith)
        requires
            idx == (y - oy) * dim_x + (x - ox),
            -1 <= oy <= 1,
    ;
    assert(0 <= y * dim_x && y * dim_x + dim_x <= dim_x * dim_y) by (nonlinear_arith)
        requires
            0 <= y < dim_y,
            0 < dim_x,
    ;
    lemma_cell_of_coords(x, y, dim_x);
}

/// What an optional move offers.
proof fn lemma_offered_contains(cond: bool, cell: int, b: usize)
    ensures
        offered(cond, cell).contains(b) <==> cond && b == cell as usize,
{
    if cond {
        assert(offered(cond, cell)[0] == cell as usize);
    }
}

/// `b` is one of the up to eight cells that `neighbors` lists for `idx`.
spec fn listed(idx: usize, b: usize, dim_x: usize, dim_y: usize, diagonals: bool) -> bool {
    let left = col(idx as int, dim_x as int) > 0;
    let right = col(idx as int, dim_x as int) < dim_x - 1;
    let up = row(idx as int, dim_x as int) > 0;
    let down = row(idx as int, dim_x as int) < dim_y - 1;
    ||| left && b == idx - 1
    ||| left && diagonals && up && b == idx - 1 - dim_x
    ||| left && diagonals && down && b == idx - 1 + dim_x
    ||| right && b == idx + 1
    ||| right && diagonals && up && b == idx + 1 - dim_x
    ||| right && diagonals && down && b == idx + 1 + dim_x
    ||| up && b == idx - dim_x
    ||| down && b == idx + dim_x
}

/// The listed cells are cells of the grid, one move away.
proof fn lemma_listed_adjacent(idx: usize, b: usize, dim_x: usize, dim_y: usize, diagonals: bool)
    requires
        dim_x > 0,
        dim_y > 0,
        idx < dim_x * dim_y,
        listed(idx, b, dim_x, dim_y, diagonals),
    ensures
        adjacent(idx, b, dim_x, dim_y, diagonals),
{
    let d = dim_x as int;
    let h = dim_y as int;
    let i = idx as int;
    lemma_cell_decomposition(i, d);
    lemma_row_in_grid(i, d, h);
    let left = col(i, d) > 0;
    let right = col(i, d) < d - 1;
    let up = row(i, d) > 0;
    let down = row(i, d) < h - 1;
    if left && b == i - 1 {
        lemma_moved(i, d, h, -1, 0);
    } else if left && diagonals && up && b == i - 1 - d {
        lemma_moved(i, d, h, -1, -1);
    } else if left && diagonals && down && b == i - 1 + d {
        lemma_moved(i, d, h, -1, 1);
    } else if right && b == i + 1 {
        lemma_moved(i, d, h, 1, 0);
    } else if right && diagonals && up && b == i + 1 - d {
        lemma_moved(i, d, h, 1, -1);
    } else if right && diagonals && down && b == i + 1 + d {
        lemma_moved(i, d, h, 1, 1);
    } else if up && b == i - d {
        lemma_moved(i, d, h, 0, -1);
    } else {
        lemma_moved(i, d, h, 0, 1);
    }
}

/// Every cell of the grid that is one move away is listed.
proof fn lemma_adjacent_listed(idx: usize, b: usize, dim_x: usize, dim_y: usize, diagonals: bool)
    requires
        dim_x > 0,
        dim_y > 0,
        adjacent(idx, b, dim_x, dim_y, diagonals),
    ensures
        listed(idx, b, dim_x, dim_y, diagonals),
{
    let d = dim_x as int;
    let h = dim_y as int;
    let i = idx as int;
    lemma_cell_decomposition(b as int, d);
    lemma_row_in_grid(i, d, h);
    lemma_row_in_grid(b as int, d, h);
    let ox = col(b as int, d) - col(i, d);
    let oy = row(b as int, d) - row(i, d);
    lemma_moved(i, d, h, ox, oy);
    let c = moved(i, d, ox, oy);
    lemma_cell_decomposition(c, d);
    assert(b == c);
}

/// The neighbours of a cell are the cells to which one move leads.
pub proof fn lemma_neighbors_adjacent(
    idx: usize,
    b: usize,
    dim_x: usize,
    dim_y: usize,
    diagonals: bool,
)
    requires
        dim_x > 0,
        dim_y > 0,
        dim_x * dim_y <= usize::MAX,
        idx < dim_x * dim_y,
    ensures
        neighbors(idx, dim_x, dim_y, diagonals).contains(b) <==> adjacent(
            idx,
            b,
            dim_x,
            dim_y,
            diagonals,
        ),
{
    broadcast use vstd::seq_lib::lemma_seq_concat_contains_all_elements;

    let d = dim_x as int;
    let h = dim_y as int;
    let i = idx as int;
    lemma_cell_decomposition(i, d);
    lemma_row_in_grid(i, d, h);
    let left = col(i, d) > 0;
    let right = col(i, d) < d - 1;
    let up = row(i, d) > 0;
    let down = row(i, d) < h - 1;
    if left {
        lemma_moved(i, d, h, -1, 0);
        if up {
            lemma_moved(i, d, h, -1, -1);
        }
        if down {
            lemma_moved(i, d, h, -1, 1);
        }
    }
    if right {
        lemma_moved(i, d, h, 1, 0);
        if up {
            lemma_moved(i, d, h, 1, -1);
        }
        if down {
            lemma_moved(i, d, h, 1, 1);
        }
    }
    if up {
        lemma_moved(i, d, h, 0, -1);
    }
    if down {
        lemma_moved(i, d, h, 0, 1);
    }
    lemma_offered_contains(left, i - 1, b);
    lemma_offered_contains(left && diagonals && up, i - 1 - d, b);
    lemma_offered_contains(left && diagonals && down, i - 1 + d, b);
    lemma_offered_contains(right, i + 1, b);
    lemma_offered_contains(right && diagonals && up, i + 1 - d, b);
    lemma_offered_contains(right && diagonals && down, i + 1 + d, b);
    lemma_offered_contains(up, i - d, b);
    lemma_offered_contains(down, i + d, b);
    assert(neighbors(idx, dim_x, dim_y, diagonals).contains(b) <==> listed(
        idx,
        b,
        dim_x,
        dim_y,
        diagonals,
    ));
    if listed(idx, b, dim_x, dim_y, diagonals) {
        lemma_listed_adjacent(idx, b, dim_x, dim_y, diagonals);
    }
    if adjacent(idx, b, dim_x, dim_y, diagonals) {
        lemma_adjacent_listed(idx, b, dim_x, dim_y, diagonals);
    }
}

/// Every neighbour of a cell of the grid is a cell of the grid.
pub proof fn lemma_neighbors_in_grid(idx: usize, dim_x: usize, dim_y: usize, diagonals: bool)
    requires
        dim_x > 0,
        dim_y > 0,
        dim_x * dim_y <= usize::MAX,
        idx < dim_x * dim_y,
    ensures
        forall|b: usize| #[trigger]
            neighbors(idx, dim_x, dim_y, diagonals).contains(b) ==> b < dim_x * dim_y,
{
    assert forall|b: usize| #[trigger]
        neighbors(idx, dim_x, dim_y, diagonals).contains(b) implies b < dim_x * dim_y by {
        lemma_neighbors_adjacent(idx, b, dim_x, dim_y, diagonals);
    }
}

/// Column and row of cell `idx`.
pub fn idx_to_coords(idx: usize, dim_x: usize) -> (coords: (usize, usize))
    requires
        dim_x > 0,
    ensures
        coords.0 == col(idx as int, dim_x as int),
        coords.1 == row(idx as int, dim_x as int),
{
    (idx % dim_x, idx / dim_x)
}

/// Manhattan distance between the cells `idx` and `target`.
pub fn manhattan(idx: usize, target: usize, dim_x: usize) -> (dist: usize)
    requires
        dim_x > 0,
    ensures
        dist == manhattan_distance(idx as int, target as int, dim_x as int),
{
    let (x1, y1) = idx_to_coords(idx, dim_x);
    let (x2, y2) = idx_to_coords(target, dim_x);
    let dx: usize = if x2 >= x1 {
        x2 - x1
    } else {
        x1 - x2
    };
    let dy: usize = if y2 >= y1 {
        y2 - y1
    } else {
        y1 - y2
    };
    proof {
        lemma_manhattan_bound(idx as int, target as int, dim_x as int);
    }
    dx + dy
}

/// The neighbours of `idx` on a `dim_x` by `dim_y` grid, in visiting order.
pub fn get_adjacent(idx: usize, dim_x: usize, dim_y: usize, diagonals: bool) -> (adj: Vec<usize>)
    requires
        dim_x > 0,
        dim_y > 0,
        dim_x * dim_y <= usize::MAX,
        idx < dim_x * dim_y,
    ensures
        adj@ == neighbors(idx, dim_x, dim_y, diagonals),
{
    let x = idx % dim_x;
    let y = idx / dim_x;
    proof {
        lemma_cell_decomposition(idx as int, dim_x as int);
        lemma_row_in_grid(idx as int, dim_x as int, dim_y as int);
        assert(y * dim_x + dim_x <= dim_x * dim_y) by (nonlinear_arith)
            requires
                0 <= y < dim_y,
                0 < dim_x,
        ;
        assert(y > 0 ==> y * dim_x >= dim_x) by (nonlinear_arith)
            requires
                0 <= y,
                0 < dim_x,
        ;
        assert(y < dim_y - 1 ==> y * dim_x + dim_x + dim_x <= dim_x * dim_y) by (nonlinear_arith)
            requires
                0 <= y < dim_y,
                0 < dim_x,
        ;
    }

    let mut adj: Vec<usize> = Vec::new();
    if x > 0 {
        adj.push(idx - 1);
        if diagonals {
            if y > 0 {
                adj.push(idx - 1 - dim_x);
            }
            if y < dim_y - 1 {
                adj.push(idx - 1 + dim_x);
            }
        }
    }
    if x < dim_x - 1 {
        adj.push(idx + 1);
        if diagonals {
            if y > 0 {
                adj.push(idx + 1 - dim_x);
            }
            if y < dim_y - 1 {
                adj.push(idx + 1 + dim_x);
            }
        }
    }
    if y > 0 {
        adj.push(idx - dim_x);
    }
    if y < dim_y - 1 {
        adj.push(idx + dim_x);
    }
    assert(adj@ =~= neighbors(idx, dim_x, dim_y, diagonals));
    adj
}

} // verus!
