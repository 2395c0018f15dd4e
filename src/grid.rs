//! Cell indices of a rectangular grid, their coordinates and their neighbours.
use vstd::prelude::*;

verus! {

/// Column and row of the cell with linear index `index` in a grid `width`
/// cells wide (row-major order).
pub open spec fn coords_of(width: int, index: int) -> (int, int) {
    (index % width, index / width)
}

/// Linear index of the cell at (`column`, `row`), if it lies in the grid.
pub open spec fn index_of(width: int, height: int, column: int, row: int) -> Option<int> {
    if 0 <= column < width && 0 <= row < height {
        Some(row * width + column)
    } else {
        None
    }
}

/// The cell one step of (`dc`, `dr`) away from `index`, if that stays in the grid.
pub open spec fn step(width: int, height: int, index: int, dc: int, dr: int) -> Seq<int> {
    let (c, r) = coords_of(width, index);
    match index_of(width, height, c + dc, r + dr) {
        Some(j) => seq![j],
        None => Seq::empty(),
    }
}

/// The in-grid neighbours of `index`, in the fixed order right, left, up, down.
pub open spec fn neighbors_of(width: int, height: int, index: int) -> Seq<int> {
    step(width, height, index, 1, 0) + step(width, height, index, -1, 0)
        + step(width, height, index, 0, 1) + step(width, height, index, 0, -1)
}

/// Two cells share a side.
pub open spec fn adjacent(width: int, height: int, a: int, b: int) -> bool {
    neighbors_of(width, height, a).contains(b)
}


pub proof fn lemma_coords(width: int, index: int)
    requires
        1 <= width,
        0 <= index,
    ensures
        0 <= index % width < width,
        0 <= index / width,
        index == (index / width) * width + index % width,
{
    vstd::arithmetic::div_mod::lemma_fundamental_div_mod(index, width);
    assert(width * (index / width) == (index / width) * width) by (nonlinear_arith);
}

/// The index of (column, row) maps back to (column, row).
pub proof fn lemma_index_coords(width: int, height: int, column: int, row: int)
    requires
        0 <= column < width,
        0 <= row < height,
    ensures
        index_of(width, height, column, row) is Some,
        coords_of(width, index_of(width, height, column, row).unwrap()) == (column, row),
        0 <= row * width + column < width * height,
{
    let i = row * width + column;
    vstd::arithmetic::div_mod::lemma_fundamental_div_mod_converse(i, width, row, column);
    assert(row * width + column < width * height) by (nonlinear_arith)
        requires
            0 <= column < width,
            0 <= row < height,
    ;
}

/// The coordinates of a cell in the grid give back its index.
pub proof fn lemma_coords_index(width: int, height: int, index: int)
    requires
        1 <= width,
        1 <= height,
        0 <= index < width * height,
    ensures
        0 <= coords_of(width, index).0 < width,
        0 <= coords_of(width, index).1 < height,
        index_of(width, height, coords_of(width, index).0, coords_of(width, index).1) == Some(
            index,
        ),
{
    lemma_coords(width, index);
    let q = index / width;
    let r = index % width;
    assert(q < height) by (nonlinear_arith)
        requires
            index == q * width + r,
            0 <= r < width,
            index < width * height,
            0 <= q,
    ;
}

proof fn lemma_concat_contains(a: Seq<int>, b: Seq<int>, x: int)
    ensures
        a.contains(x) || b.contains(x) ==> (a + b).contains(x),
{
    if a.contains(x) {
        let i = choose|i: int| 0 <= i < a.len() && a[i] == x;
        assert((a + b)[i] == x);
    } else if b.contains(x) {
        let i = choose|i: int| 0 <= i < b.len() && b[i] == x;
        assert((a + b)[a.len() + i] == x);
    }
}

/// Neighbours lie in the grid.
pub proof fn lemma_neighbors_in_grid(width: int, height: int, index: int)
    requires
        1 <= width,
        1 <= height,
    ensures
        forall|x: int| #[trigger] adjacent(width, height, index, x) ==> 0 <= x < width * height,
{
    let (c, r) = coords_of(width, index);
    if 0 <= c + 1 < width && 0 <= r < height {
        lemma_index_coords(width, height, c + 1, r);
    }
    if 0 <= c - 1 < width && 0 <= r < height {
        lemma_index_coords(width, height, c - 1, r);
    }
    if 0 <= c < width && 0 <= r + 1 < height {
        lemma_index_coords(width, height, c, r + 1);
    }
    if 0 <= c < width && 0 <= r - 1 < height {
        lemma_index_coords(width, height, c, r - 1);
    }
    let ns = neighbors_of(width, height, index);
    assert forall|k: int| 0 <= k < ns.len() implies 0 <= #[trigger] ns[k] < width * height by {}
}

proof fn lemma_concat_member(a: Seq<int>, b: Seq<int>, x: int)
    requires
        (a + b).contains(x),
    ensures
        a.contains(x) || b.contains(x),
{
    let i = choose|i: int| 0 <= i < (a + b).len() && (a + b)[i] == x;
    if i < a.len() {
        assert(a[i] == x);
    } else {
        assert(b[i - a.len()] == x);
    }
}

/// A neighbour is one unit step along an axis away.
pub proof fn lemma_adjacent_coords(width: int, height: int, a: int, b: int)
    requires
        1 <= width,
        1 <= height,
        0 <= a < width * height,
        adjacent(width, height, a, b),
    ensures
        0 <= b < width * height,
        ({
            let (ca, ra) = coords_of(width, a);
            let (cb, rb) = coords_of(width, b);
            (cb - ca == 1 && rb == ra) || (cb - ca == -1 && rb == ra) || (cb == ca && rb - ra == 1) || (cb
                == ca && rb - ra == -1)
        }),
{
    lemma_neighbors_in_grid(width, height, a);
    lemma_coords_index(width, height, a);
    let (c, r) = coords_of(width, a);
    let s1 = step(width, height, a, 1, 0);
    let s2 = step(width, height, a, -1, 0);
    let s3 = step(width, height, a, 0, 1);
    let s4 = step(width, height, a, 0, -1);
    lemma_concat_member(s1 + s2 + s3, s4, b);
    if !s4.contains(b) {
        lemma_concat_member(s1 + s2, s3, b);
        if !s3.contains(b) {
            lemma_concat_member(s1, s2, b);
        }
    }
    if s1.contains(b) {
        lemma_index_coords(width, height, c + 1, r);
    } else if s2.contains(b) {
        lemma_index_coords(width, height, c - 1, r);
    } else if s3.contains(b) {
        lemma_index_coords(width, height, c, r + 1);
    } else {
        lemma_index_coords(width, height, c, r - 1);
    }
}

/// A unit step along an axis that stays in the grid reaches a neighbour.
pub proof fn lemma_step_adjacent(width: int, height: int, column: int, row: int, dc: int, dr: int)
    requires
        0 <= column < width,
        0 <= row < height,
        0 <= column + dc < width,
        0 <= row + dr < height,
        (dc, dr) == (1int, 0int) || (dc, dr) == (-1int, 0int) || (dc, dr) == (0int, 1int) || (dc, dr)
            == (0int, -1int),
    ensures
        adjacent(width, height, row * width + column, (row + dr) * width + (column + dc)),
{
    let i = row * width + column;
    let j = (row + dr) * width + (column + dc);
    lemma_index_coords(width, height, column, row);
    let s1 = step(width, height, i, 1, 0);
    let s2 = step(width, height, i, -1, 0);
    let s3 = step(width, height, i, 0, 1);
    let s4 = step(width, height, i, 0, -1);
    let s = step(width, height, i, dc, dr);
    assert(s[0] == j);
    lemma_concat_contains(s1, s2, j);
    lemma_concat_contains(s1 + s2, s3, j);
    lemma_concat_contains(s1 + s2 + s3, s4, j);
}

/// Spreading a property that passes to neighbours along a row.
proof fn lemma_spread_row(width: int, height: int, p: spec_fn(int) -> bool, row: int, column: int, target: int)
    requires
        0 <= row < height,
        0 <= column < width,
        0 <= target < width,
        p(row * width + column),
        forall|x: int, y: int|
            0 <= x < width * height && #[trigger] p(x) && #[trigger] adjacent(width, height, x, y) ==> p(y),
    ensures
        p(row * width + target),
    decreases if column <= target { target - column } else { column - target },
{
    lemma_index_coords(width, height, column, row);
    if column < target {
        lemma_step_adjacent(width, height, column, row, 1, 0);
        assert((row + 0) * width + (column + 1) == row * width + (column + 1));
        lemma_spread_row(width, height, p, row, column + 1, target);
    } else if column > target {
        lemma_step_adjacent(width, height, column, row, -1, 0);
        assert((row + 0) * width + (column - 1) == row * width + (column - 1));
        lemma_spread_row(width, height, p, row, column - 1, target);
    }
}

/// Spreading a property that passes to neighbours along a column.
proof fn lemma_spread_column(width: int, height: int, p: spec_fn(int) -> bool, column: int, row: int, target: int)
    requires
        0 <= row < height,
        0 <= column < width,
        0 <= target < height,
        p(row * width + column),
        forall|x: int, y: int|
            0 <= x < width * height && #[trigger] p(x) && #[trigger] adjacent(width, height, x, y) ==> p(y),
    ensures
        p(target * width + column),
    decreases if row <= target { target - row } else { row - target },
{
    lemma_index_coords(width, height, column, row);
    if row < target {
        lemma_step_adjacent(width, height, column, row, 0, 1);
        lemma_spread_column(width, height, p, column, row + 1, target);
    } else if row > target {
        lemma_step_adjacent(width, height, column, row, 0, -1);
        lemma_spread_column(width, height, p, column, row - 1, target);
    }
}

/// The grid is connected: a property of one cell that passes from every cell
/// to its neighbours holds of every cell.
pub proof fn lemma_grid_connected(width: int, height: int, start: int, p: spec_fn(int) -> bool)
    requires
        1 <= width,
        1 <= height,
        0 <= start < width * height,
        p(start),
        forall|x: int, y: int|
            0 <= x < width * height && #[trigger] p(x) && #[trigger] adjacent(width, height, x, y) ==> p(y),
    ensures
        forall|x: int| 0 <= x < width * height ==> #[trigger] p(x),
{
    lemma_coords_index(width, height, start);
    let (c0, r0) = coords_of(width, start);
    lemma_spread_row(width, height, p, r0, c0, 0);
    assert forall|x: int| 0 <= x < width * height implies #[trigger] p(x) by {
        lemma_coords_index(width, height, x);
        let (c, r) = coords_of(width, x);
        lemma_spread_column(width, height, p, 0, r0, r);
        lemma_spread_row(width, height, p, r, 0, c);
    }
}

} // verus!
