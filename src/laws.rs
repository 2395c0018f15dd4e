//! What holds of every generated maze and its walls.
use crate::grid::{adjacent, coords_of, index_of, lemma_adjacent_coords, lemma_coords, lemma_coords_index, lemma_index_coords};
use crate::map::{boundary, carved_tree, cell_walls, edge, interior_walls, wall_between, walls_of, MazeMap};
use vstd::prelude::*;

verus! {

/// Two walls between neighbouring cells coincide, in either orientation, only
/// when they stand between the same two cells.
proof fn lemma_wall_injective(width: int, height: int, a: int, b: int, i: int, n: int)
    requires
        1 <= width,
        1 <= height,
        0 <= a < width * height,
        0 <= i < width * height,
        adjacent(width, height, a, b),
        adjacent(width, height, i, n),
        wall_between(width, a, b) == wall_between(width, i, n) || wall_between(width, a, b)
            == wall_between(width, n, i),
    ensures
        edge(a, b) == edge(i, n),
{
    lemma_adjacent_coords(width, height, a, b);
    lemma_adjacent_coords(width, height, i, n);
    lemma_coords(width, a);
    lemma_coords(width, b);
    lemma_coords(width, i);
    lemma_coords(width, n);
}

/// A wall between two neighbouring cells is none of the outer sides.
proof fn lemma_wall_not_boundary(width: int, height: int, a: int, b: int)
    requires
        1 <= width,
        1 <= height,
        0 <= a < width * height,
        adjacent(width, height, a, b),
    ensures
        !boundary(width, height).contains(wall_between(width, a, b)),
{
    lemma_adjacent_coords(width, height, a, b);
    lemma_coords_index(width, height, a);
    lemma_coords_index(width, height, b);
    let bd = boundary(width, height);
    let x = wall_between(width, a, b);
    assert(x != bd[0] && x != bd[1] && x != bd[2] && x != bd[3]);
}

/// A property of every wall between neighbours that the tree leaves apart
/// holds of every wall a cell raises.
proof fn lemma_cell_walls_all(
    width: int,
    height: int,
    tree: Seq<(int, int)>,
    cell: int,
    ns: Seq<int>,
    p: spec_fn(((int, int), (int, int))) -> bool,
)
    requires
        0 <= cell < width * height,
        forall|k: int| 0 <= k < ns.len() ==> adjacent(width, height, cell, #[trigger] ns[k]),
        forall|a: int, b: int|
            0 <= a < width * height && #[trigger] adjacent(width, height, a, b) && !tree.contains(edge(a, b))
                ==> p(#[trigger] wall_between(width, a, b)),
    ensures
        forall|j: int| 0 <= j < cell_walls(width, tree, cell, ns).len() ==> p(#[trigger] cell_walls(width, tree, cell, ns)[j]),
    decreases ns.len(),
{
    if ns.len() > 0 {
        lemma_cell_walls_all(width, height, tree, cell, ns.drop_last(), p);
        let last = ns[ns.len() - 1];
        assert(adjacent(width, height, cell, last));
        let prev = cell_walls(width, tree, cell, ns.drop_last());
        let cw = cell_walls(width, tree, cell, ns);
        assert forall|j: int| 0 <= j < cw.len() implies p(#[trigger] cw[j]) by {
            if j < prev.len() {
                assert(cw[j] == prev[j]);
            } else {
                assert(p(wall_between(width, cell, last)));
            }
        }
    }
}

/// A property of every wall between neighbours that the tree leaves apart
/// holds of every interior wall.
proof fn lemma_interior_all(
    width: int,
    height: int,
    tree: Seq<(int, int)>,
    k: int,
    p: spec_fn(((int, int), (int, int))) -> bool,
)
    requires
        0 <= k <= width * height,
        forall|a: int, b: int|
            0 <= a < width * height && #[trigger] adjacent(width, height, a, b) && !tree.contains(edge(a, b))
                ==> p(#[trigger] wall_between(width, a, b)),
    ensures
        forall|j: int| 0 <= j < interior_walls(width, height, tree, k).len() ==> p(#[trigger] interior_walls(width, height, tree, k)[j]),
    decreases k,
{
    if k > 0 {
        lemma_interior_all(width, height, tree, k - 1, p);
        let ns = crate::grid::neighbors_of(width, height, k - 1);
        assert forall|j: int| 0 <= j < ns.len() implies adjacent(width, height, k - 1, #[trigger] ns[j]) by {
            assert(ns.contains(ns[j]));
        }
        lemma_cell_walls_all(width, height, tree, k - 1, ns, p);
        let prev = interior_walls(width, height, tree, k - 1);
        let cw = cell_walls(width, tree, k - 1, ns);
        assert forall|j: int| 0 <= j < (prev + cw).len() implies p(#[trigger] (prev + cw)[j]) by {
            if j < prev.len() {
                assert(p(prev[j]));
            } else {
                assert(p(cw[j - prev.len()]));
            }
        }
    }
}

proof fn lemma_cell_walls_contains(width: int, tree: Seq<(int, int)>, cell: int, ns: Seq<int>, n: int)
    requires
        ns.contains(n),
        !tree.contains(edge(cell, n)),
    ensures
        cell_walls(width, tree, cell, ns).contains(wall_between(width, cell, n)),
    decreases ns.len(),
{
    let cw = cell_walls(width, tree, cell, ns);
    if ns.last() == n {
        assert(cw.last() == wall_between(width, cell, n));
    } else {
        let k = choose|k: int| 0 <= k < ns.len() && ns[k] == n;
        assert(ns.drop_last()[k] == n);
        lemma_cell_walls_contains(width, tree, cell, ns.drop_last(), n);
        let prev = cell_walls(width, tree, cell, ns.drop_last());
        let j = choose|j: int| 0 <= j < prev.len() && prev[j] == wall_between(width, cell, n);
        assert(cw[j] == prev[j]);
    }
}

proof fn lemma_interior_contains(width: int, height: int, tree: Seq<(int, int)>, k: int, i: int, n: int)
    requires
        0 <= i < k,
        adjacent(width, height, i, n),
        !tree.contains(edge(i, n)),
    ensures
        interior_walls(width, height, tree, k).contains(wall_between(width, i, n)),
    decreases k,
{
    let prev = interior_walls(width, height, tree, k - 1);
    let cw = cell_walls(width, tree, k - 1, crate::grid::neighbors_of(width, height, k - 1));
    if k - 1 == i {
        lemma_cell_walls_contains(width, tree, i, crate::grid::neighbors_of(width, height, i), n);
        let j = choose|j: int| 0 <= j < cw.len() && cw[j] == wall_between(width, i, n);
        assert((prev + cw)[prev.len() + j] == cw[j]);
    } else {
        lemma_interior_contains(width, height, tree, k - 1, i, n);
        let j = choose|j: int| 0 <= j < prev.len() && prev[j] == wall_between(width, i, n);
        assert((prev + cw)[j] == prev[j]);
    }
}

/// For neighbouring cells `i` and `n`, exactly one holds: the tree joins them,
/// or the walls hold a segment between them (in either orientation).
pub proof fn lemma_walls_complement_tree(m: MazeMap, i: int, n: int)
    requires
        m.wf(),
        0 <= i < m.config().cells(),
        adjacent(m.width(), m.height(), i, n),
    ensures
        m.tree().contains(edge(i, n)) <==> !(m.walls().contains(wall_between(m.width(), i, n))
            || m.walls().contains(wall_between(m.width(), n, i))),
{
    let w = m.width();
    let h = m.height();
    let tree = m.tree();
    let all = m.walls();
    let inner = interior_walls(w, h, tree, w * h);
    if tree.contains(edge(i, n)) {
        let p = |x: ((int, int), (int, int))|
            x != wall_between(w, i, n) && x != wall_between(w, n, i) && !boundary(w, h).contains(x);
        assert forall|a: int, b: int|
            0 <= a < w * h && #[trigger] adjacent(w, h, a, b) && !tree.contains(edge(a, b))
                implies p(#[trigger] wall_between(w, a, b)) by {
            if wall_between(w, a, b) == wall_between(w, i, n) || wall_between(w, a, b) == wall_between(w, n, i) {
                lemma_wall_injective(w, h, a, b, i, n);
            }
            lemma_wall_not_boundary(w, h, a, b);
        }
        lemma_interior_all(w, h, tree, w * h, p);
        lemma_adjacent_coords(w, h, i, n);
        lemma_wall_not_boundary(w, h, i, n);
        lemma_coords_index(w, h, n);
        assert(adjacent(w, h, n, i)) by {
            lemma_adjacent_coords(w, h, i, n);
            let (ci, ri) = coords_of(w, i);
            let (cn, rn) = coords_of(w, n);
            lemma_coords_index(w, h, i);
            lemma_step_back(w, h, ci, ri, cn, rn);
        }
        lemma_wall_not_boundary(w, h, n, i);
        assert forall|j: int| 0 <= j < all.len() implies all[j] != wall_between(w, i, n) && all[j] != wall_between(w, n, i) by {
            if j < inner.len() {
                assert(p(inner[j]));
            } else {
                assert(boundary(w, h).contains(all[j]));
                assert(all[j] == boundary(w, h)[j - inner.len()]);
            }
        }
    } else {
        lemma_adjacent_coords(w, h, i, n);
        lemma_interior_contains(w, h, tree, w * h, i, n);
        let j = choose|j: int| 0 <= j < inner.len() && inner[j] == wall_between(w, i, n);
        assert(all[j] == inner[j]);
    }
}

/// Adjacency runs both ways.
proof fn lemma_step_back(width: int, height: int, ci: int, ri: int, cn: int, rn: int)
    requires
        0 <= ci < width,
        0 <= ri < height,
        0 <= cn < width,
        0 <= rn < height,
        (cn - ci == 1 && rn == ri) || (cn - ci == -1 && rn == ri) || (cn == ci && rn - ri == 1) || (cn
            == ci && rn - ri == -1),
    ensures
        adjacent(width, height, rn * width + cn, ri * width + ci),
{
    crate::grid::lemma_step_adjacent(width, height, cn, rn, ci - cn, ri - rn);
    assert((rn + (ri - rn)) * width + (cn + (ci - cn)) == ri * width + ci);
}

/// The walls end with the four sides of the outer rectangle, which close on
/// themselves, and no other wall is one of those sides.
pub proof fn lemma_boundary_walls(m: MazeMap)
    requires
        m.wf(),
    ensures
        m.walls().len() >= 4,
        m.walls().subrange(m.walls().len() - 4, m.walls().len() as int) == boundary(m.width(), m.height()),
        forall|k: int| 0 <= k < 3 ==> (#[trigger] boundary(m.width(), m.height())[k]).1 == boundary(m.width(), m.height())[k + 1].0,
        boundary(m.width(), m.height())[3].1 == boundary(m.width(), m.height())[0].0,
        forall|k: int| 0 <= k < m.walls().len() - 4 ==> !boundary(m.width(), m.height()).contains(#[trigger] m.walls()[k]),
{
    let w = m.width();
    let h = m.height();
    let tree = m.tree();
    let inner = interior_walls(w, h, tree, w * h);
    let p = |x: ((int, int), (int, int))| !boundary(w, h).contains(x);
    assert forall|a: int, b: int|
        0 <= a < w * h && #[trigger] adjacent(w, h, a, b) && !tree.contains(edge(a, b))
            implies p(#[trigger] wall_between(w, a, b)) by {
        lemma_wall_not_boundary(w, h, a, b);
    }
    lemma_interior_all(w, h, tree, w * h, p);
    assert(m.walls().subrange(m.walls().len() - 4, m.walls().len() as int) =~= boundary(w, h));
    assert forall|k: int| 0 <= k < m.walls().len() - 4 implies !boundary(w, h).contains(#[trigger] m.walls()[k]) by {
        assert(m.walls()[k] == inner[k]);
        assert(p(inner[k]));
    }
}

/// Two maps carved from the same width, height and seed hold the same tree
/// and raise the same walls, in the same order.
pub proof fn lemma_same_config_same_maze(a: MazeMap, b: MazeMap)
    requires
        a.tree() == carved_tree(a.config()),
        b.tree() == carved_tree(b.config()),
        a.config().width == b.config().width,
        a.config().height == b.config().height,
        a.config().seed == b.config().seed,
    ensures
        a.tree() == b.tree(),
        a.walls() == b.walls(),
{
    assert(a.config() == b.config());
}

/// A cell's coordinates and its index determine each other.
pub proof fn lemma_coords_round_trip(width: int, height: int, column: int, row: int)
    requires
        0 <= column < width,
        0 <= row < height,
    ensures
        index_of(width, height, column, row) matches Some(i) && coords_of(width, i) == (column, row),
{
    lemma_index_coords(width, height, column, row);
}

} // verus!
