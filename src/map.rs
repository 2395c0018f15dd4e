//! The maze generator: configuration, spanning-tree construction and walls.
use crate::grid::{
    adjacent, coords_of, index_of, lemma_adjacent_coords, lemma_coords_index, lemma_grid_connected, lemma_index_coords,
    lemma_neighbors_in_grid, neighbors_of, step,
};
use crate::random::{self, draw_below, generator_state, seeded_state, shuffled, GenState};
use rand_chacha::ChaCha8Rng;
use vstd::prelude::*;

verus! {

/// An adjacency between two neighbouring cells, stored with the smaller
/// index first.
#[derive(PartialEq, Eq, Structural, Clone, Copy, Debug)]
pub struct Connection(pub usize, pub usize);

/// The canonical connection between cells `a` and `b`.
pub open spec fn edge(a: int, b: int) -> (int, int) {
    if a <= b {
        (a, b)
    } else {
        (b, a)
    }
}

impl Connection {
    pub open spec fn view(&self) -> (int, int) {
        (self.0 as int, self.1 as int)
    }

    pub fn new(from: usize, to: usize) -> (r: Connection)
        ensures
            r@ == edge(from as int, to as int),
    {
        if from <= to {
            Connection(from, to)
        } else {
            Connection(to, from)
        }
    }
}

/// `cells` holds distinct cells of a grid of `n` cells.
pub open spec fn distinct_cells(cells: Seq<usize>, n: int) -> bool {
    &&& cells.no_duplicates()
    &&& forall|k: int| 0 <= k < cells.len() ==> #[trigger] cells[k] < n
}

/// Connection `k` of `tree` joins the cell visited `k + 1`-th to a neighbour of
/// it visited earlier.
pub open spec fn joins(width: int, height: int, visited: Seq<usize>, tree: Seq<(int, int)>, k: int) -> bool {
    exists|j: int|
        #![trigger visited[j]]
        0 <= j <= k && tree[k] == edge(visited[j] as int, visited[k + 1] as int) && adjacent(
            width,
            height,
            visited[j] as int,
            visited[k + 1] as int,
        )
}

/// `tree` grows with `visited`: each connection brings in one new cell, in the
/// order of `visited`, so the connections form a tree over the visited cells.
pub open spec fn grown_from(width: int, height: int, visited: Seq<usize>, tree: Seq<(int, int)>) -> bool {
    &&& tree.len() + 1 == visited.len()
    &&& forall|k: int| 0 <= k < tree.len() ==> #[trigger] joins(width, height, visited, tree, k)
}

/// Every neighbour of `cell` is among `visited`.
pub open spec fn closed_at(width: int, height: int, visited: Seq<usize>, cell: int) -> bool {
    forall|n: int| #[trigger] adjacent(width, height, cell, n) ==> visited.contains(n as usize)
}

/// `tree` is a spanning tree of the grid: some order of all its cells grows it.
pub open spec fn spanning_tree(width: int, height: int, tree: Seq<(int, int)>) -> bool {
    exists|order: Seq<usize>|
        #![trigger grown_from(width, height, order, tree)]
        {
            &&& order.len() == width * height
            &&& distinct_cells(order, width * height)
            &&& grown_from(width, height, order, tree)
        }
}

proof fn lemma_distinct_bound(cells: Seq<usize>, n: int)
    requires
        distinct_cells(cells, n),
        0 <= n <= usize::MAX,
    ensures
        cells.len() <= n,
{
    let all = Set::<usize>::range(0, n as usize);
    vstd::set_lib::range_set_properties::<usize>(0, n as usize);
    assert(cells.to_set().subset_of(all));
    vstd::set_lib::lemma_len_subset(cells.to_set(), all);
    cells.unique_seq_to_set();
}

proof fn lemma_prefix_contains(a: Seq<usize>, b: Seq<usize>)
    requires
        a.len() <= b.len(),
        b.take(a.len() as int) == a,
    ensures
        forall|x: usize| a.contains(x) ==> #[trigger] b.contains(x),
{
    assert forall|x: usize| a.contains(x) implies #[trigger] b.contains(x) by {
        let i = choose|i: int| 0 <= i < a.len() && a[i] == x;
        assert(b.take(a.len() as int)[i] == b[i]);
    }
}

/// A tree grown one new cell at a time holds no connection twice.
pub proof fn lemma_grown_no_duplicates(width: int, height: int, visited: Seq<usize>, tree: Seq<(int, int)>)
    requires
        visited.no_duplicates(),
        grown_from(width, height, visited, tree),
    ensures
        tree.no_duplicates(),
{
    assert forall|a: int, b: int| 0 <= a < b < tree.len() implies tree[a] != tree[b] by {
        assert(joins(width, height, visited, tree, a));
        assert(joins(width, height, visited, tree, b));
        let ja = choose|j: int|
            #![trigger visited[j]]
            0 <= j <= a && tree[a] == edge(visited[j] as int, visited[a + 1] as int) && adjacent(
                width,
                height,
                visited[j] as int,
                visited[a + 1] as int,
            );
        let jb = choose|j: int|
            #![trigger visited[j]]
            0 <= j <= b && tree[b] == edge(visited[j] as int, visited[b + 1] as int) && adjacent(
                width,
                height,
                visited[j] as int,
                visited[b + 1] as int,
            );
        // visited[b + 1] is an endpoint of tree[b] but was not yet visited when tree[a] was added
        assert(visited[b + 1] != visited[ja]);
        assert(visited[b + 1] != visited[a + 1]);
    }
}

/// The in-grid neighbours of `cell`, as indices.
pub open spec fn neighbor_cells(width: int, height: int, cell: int) -> Seq<usize> {
    neighbors_of(width, height, cell).map_values(|x: int| x as usize)
}

/// The depth-first traversal from `cell`: mark it visited, shuffle its
/// neighbours with the generator, and explore them in that order. Gives the
/// visited cells, the tree and the generator state afterwards; `fuel` bounds
/// the depth.
pub open spec fn explore(
    width: int,
    height: int,
    cell: usize,
    visited: Seq<usize>,
    tree: Seq<(int, int)>,
    state: GenState,
    fuel: nat,
) -> (Seq<usize>, Seq<(int, int)>, GenState)
    decreases fuel, 1nat, 0nat,
{
    let (order, next) = shuffled(state, neighbor_cells(width, height, cell as int));
    explore_from(width, height, cell, order, 0, visited.push(cell), tree, next, fuel)
}

/// The traversal from `cell` over its shuffled neighbours `order`, from the
/// `k`-th on: each one not yet visited is joined to `cell` and explored.
pub open spec fn explore_from(
    width: int,
    height: int,
    cell: usize,
    order: Seq<usize>,
    k: nat,
    visited: Seq<usize>,
    tree: Seq<(int, int)>,
    state: GenState,
    fuel: nat,
) -> (Seq<usize>, Seq<(int, int)>, GenState)
    decreases fuel, 0nat, order.len() - k,
{
    if k >= order.len() {
        (visited, tree, state)
    } else if visited.contains(order[k as int]) {
        explore_from(width, height, cell, order, k + 1, visited, tree, state, fuel)
    } else if fuel == 0 {
        (visited, tree, state)
    } else {
        let r = explore(
            width,
            height,
            order[k as int],
            visited,
            tree.push(edge(cell as int, order[k as int] as int)),
            state,
            (fuel - 1) as nat,
        );
        explore_from(width, height, cell, order, k + 1, r.0, r.1, r.2, fuel)
    }
}

/// The tree carved for a configuration: the generator seeded from its seed
/// draws a start cell below `cells - 1`, and the traversal runs from there.
pub open spec fn carved_tree(config: MapConfig) -> Seq<(int, int)> {
    let n = config.cells();
    let (start, state) = draw_below(seeded_state(config.seed), (n - 1) as u64);
    explore(config.width as int, config.height as int, start as usize, Seq::empty(), Seq::empty(), state, n as nat).1
}

/// A point counted in half cells: it stands at (`x / 2`, `y / 2`) in cell
/// coordinates, where cell centres are at whole numbers.
#[derive(PartialEq, Eq, Structural, Clone, Copy, Debug)]
pub struct HalfPoint {
    pub x: i64,
    pub y: i64,
}

/// A wall segment as its two end points, in half-cell units.
pub open spec fn wall_view(s: (HalfPoint, HalfPoint)) -> ((int, int), (int, int)) {
    ((s.0.x as int, s.0.y as int), (s.1.x as int, s.1.y as int))
}

/// The unit wall between neighbouring cells `a` and `b`: centred on the middle
/// of the two centres and perpendicular to the step from `a` to `b`, its first
/// end a quarter turn counter-clockwise from that step.
pub open spec fn wall_between(width: int, a: int, b: int) -> ((int, int), (int, int)) {
    let (c1, r1) = coords_of(width, a);
    let (c2, r2) = coords_of(width, b);
    let (dx, dy) = (c2 - c1, r2 - r1);
    ((c1 + c2 - dy, r1 + r2 + dx), (c1 + c2 + dy, r1 + r2 - dx))
}

/// The outer rectangle, half a cell beyond the outermost cell centres, in the
/// order bottom, right, top, left.
pub open spec fn boundary(width: int, height: int) -> Seq<((int, int), (int, int))> {
    let (lo, right, top) = (-1int, 2 * width - 1, 2 * height - 1);
    seq![((lo, lo), (right, lo)), ((right, lo), (right, top)), ((right, top), (lo, top)), ((lo, top), (lo, lo))]
}

/// Walls from `cell` towards each of `ns` that the tree does not join to it.
pub open spec fn cell_walls(width: int, tree: Seq<(int, int)>, cell: int, ns: Seq<int>) -> Seq<((int, int), (int, int))>
    decreases ns.len(),
{
    if ns.len() == 0 {
        Seq::empty()
    } else {
        let before = cell_walls(width, tree, cell, ns.drop_last());
        if tree.contains(edge(cell, ns.last())) {
            before
        } else {
            before.push(wall_between(width, cell, ns.last()))
        }
    }
}

/// Walls of the cells below index `k`, cell by cell, each towards its
/// neighbours in order.
pub open spec fn interior_walls(width: int, height: int, tree: Seq<(int, int)>, k: int) -> Seq<((int, int), (int, int))>
    decreases k,
{
    if k <= 0 {
        Seq::empty()
    } else {
        interior_walls(width, height, tree, k - 1) + cell_walls(width, tree, k - 1, neighbors_of(width, height, k - 1))
    }
}

/// All walls of a maze: one per cell and neighbour that the tree leaves
/// apart (so two for each such pair of cells), then the outer rectangle.
pub open spec fn walls_of(width: int, height: int, tree: Seq<(int, int)>) -> Seq<((int, int), (int, int))> {
    interior_walls(width, height, tree, width * height) + boundary(width, height)
}

/// Size of the grid and seed of the generator.
#[derive(Clone, Copy, Debug)]
pub struct MapConfig {
    pub width: usize,
    pub height: usize,
    pub seed: u64,
}

impl MapConfig {
    /// Number of cells.
    pub open spec fn cells(&self) -> int {
        self.width * self.height
    }

    /// A grid of at least one cell whose index fits a `usize`, and whose
    /// coordinates, counted in half cells, fit an `i64`.
    pub open spec fn fits(&self) -> bool {
        &&& 1 <= self.width
        &&& 1 <= self.height
        &&& self.cells() <= usize::MAX
        &&& 2 * self.width + 2 <= i64::MAX
        &&& 2 * self.height + 2 <= i64::MAX
    }

    pub fn get_width(&self) -> (r: usize)
        ensures
            r == self.width,
    {
        self.width
    }

    pub fn get_height(&self) -> (r: usize)
        ensures
            r == self.height,
    {
        self.height
    }
}

impl Default for MapConfig {
    fn default() -> (r: MapConfig)
        ensures
            r.width == 3 && r.height == 3 && r.seed == 0,
    {
        MapConfig { width: 3, height: 3, seed: 0 }
    }
}

/// A maze under construction: its configuration, the spanning tree carved so
/// far, and the generator that chooses it.
pub struct MazeMap {
    map_config: MapConfig,
    path: Vec<Connection>,
    random: ChaCha8Rng,
}

impl MazeMap {
    pub closed spec fn config(&self) -> MapConfig {
        self.map_config
    }

    /// The carved connections, in the order they were added.
    pub closed spec fn tree(&self) -> Seq<(int, int)> {
        self.path@.map_values(|c: Connection| c@)
    }

    pub open spec fn width(&self) -> int {
        self.config().width as int
    }

    pub open spec fn height(&self) -> int {
        self.config().height as int
    }

    pub open spec fn wf(&self) -> bool {
        self.config().fits()
    }

    /// Nothing carved yet, and the generator as its seed left it.
    pub closed spec fn unbuilt(&self) -> bool {
        &&& self.path@.len() == 0
        &&& generator_state(self.random) == seeded_state(self.map_config.seed)
    }

    /// A map with no connection yet, its generator seeded from the configuration.
    pub fn new(map_config: MapConfig) -> (r: MazeMap)
        requires
            map_config.fits(),
        ensures
            r.wf(),
            r.config() == map_config,
            r.tree() == Seq::<(int, int)>::empty(),
            r.unbuilt(),
    {
        let random = random::seeded(map_config.seed);
        let map = MazeMap { map_config, random, path: Vec::new() };
        proof {
            assert(map.tree() =~= Seq::<(int, int)>::empty());
        }
        map
    }

    pub fn get_config(&self) -> (r: &MapConfig)
        ensures
            *r == self.config(),
    {
        &self.map_config
    }

    /// Column and row of a cell.
    pub fn get_node_coords(&self, node: usize) -> (r: (i64, i64))
        requires
            self.wf(),
            node < self.config().cells(),
        ensures
            (r.0 as int, r.1 as int) == coords_of(self.width(), node as int),
            0 <= r.0 < self.width(),
            0 <= r.1 < self.height(),
    {
        proof {
            lemma_coords_index(self.width(), self.height(), node as int);
        }
        let w = self.map_config.width;
        ((node % w) as i64, (node / w) as i64)
    }

    /// The index of the cell at `coords`, or `None` outside the grid.
    pub fn get_node_from_coords(&self, coords: (i64, i64)) -> (r: Option<usize>)
        requires
            self.wf(),
        ensures
            r matches Some(i) ==> index_of(self.width(), self.height(), coords.0 as int, coords.1 as int)
                == Some(i as int),
            r is None ==> index_of(self.width(), self.height(), coords.0 as int, coords.1 as int) is None,
    {
        let w = self.map_config.width as i64;
        let h = self.map_config.height as i64;
        if coords.0 < w && coords.0 >= 0 && coords.1 < h && coords.1 >= 0 {
            proof {
                lemma_index_coords(self.width(), self.height(), coords.0 as int, coords.1 as int);
            }
            let (c, row) = (coords.0 as usize, coords.1 as usize);
            Some(row * self.map_config.width + c)
        } else {
            None
        }
    }

    /// Appends to `r` the cell one step of (`dc`, `dr`) from (`column`, `row`), if
    /// that step stays in the grid.
    fn push_step(&self, r: &mut Vec<usize>, column: i64, row: i64, dc: i64, dr: i64, node: Ghost<int>)
        requires
            self.wf(),
            0 <= node@ < self.config().cells(),
            (column as int, row as int) == coords_of(self.width(), node@),
            0 <= column < self.width(),
            0 <= row < self.height(),
            -1 <= dc <= 1,
            -1 <= dr <= 1,
        ensures
            final(r)@.map_values(|n: usize| n as int) == old(r)@.map_values(|n: usize| n as int) + step(
                self.width(),
                self.height(),
                node@,
                dc as int,
                dr as int,
            ),
    {
        let next = self.get_node_from_coords((column + dc, row + dr));
        let ghost before = r@;
        match next {
            Some(j) => {
                r.push(j);
            },
            None => {},
        }
        proof {
            let w = self.width();
            let h = self.height();
            assert(r@.map_values(|n: usize| n as int) =~= before.map_values(|n: usize| n as int) + step(
                w,
                h,
                node@,
                dc as int,
                dr as int,
            ));
        }
    }

    /// The in-grid neighbours of a cell, in the order right, left, up, down.
    pub fn get_neighbors(&self, node: usize) -> (r: Vec<usize>)
        requires
            self.wf(),
            node < self.config().cells(),
        ensures
            r@.map_values(|n: usize| n as int) == neighbors_of(self.width(), self.height(), node as int),
    {
        let coords = self.get_node_coords(node);
        let mut r: Vec<usize> = Vec::new();
        proof {
            assert(r@.map_values(|n: usize| n as int) =~= Seq::<int>::empty());
        }
        self.push_step(&mut r, coords.0, coords.1, 1, 0, Ghost(node as int));
        self.push_step(&mut r, coords.0, coords.1, -1, 0, Ghost(node as int));
        self.push_step(&mut r, coords.0, coords.1, 0, 1, Ghost(node as int));
        self.push_step(&mut r, coords.0, coords.1, 0, -1, Ghost(node as int));
        proof {
            let w = self.width();
            let h = self.height();
            let i = node as int;
            assert(neighbors_of(w, h, i) =~= Seq::<int>::empty() + step(w, h, i, 1, 0) + step(w, h, i, -1, 0)
                + step(w, h, i, 0, 1) + step(w, h, i, 0, -1));
        }
        r
    }

    /// A map for `map_config` with its maze carved.
    pub fn generated(map_config: MapConfig) -> (r: MazeMap)
        requires
            map_config.fits(),
            map_config.cells() >= 2,
        ensures
            r.wf(),
            r.config() == map_config,
            r.tree() == carved_tree(map_config),
            r.tree().len() == map_config.cells() - 1,
            r.tree().no_duplicates(),
            spanning_tree(r.width(), r.height(), r.tree()),
    {
        let mut map = MazeMap::new(map_config);
        map.generate_map();
        map
    }

    /// Carves the maze: from a start cell drawn in `[0, cells - 1)` by the
    /// generator, a randomized depth-first traversal adds a connection to each
    /// cell the first time it is reached. The result is a spanning tree of the
    /// grid with one connection fewer than there are cells.
    pub fn generate_map(&mut self)
        requires
            old(self).wf(),
            old(self).config().cells() >= 2,
            old(self).unbuilt(),
        ensures
            final(self).tree() == carved_tree(old(self).config()),
            final(self).wf(),
            final(self).config() == old(self).config(),
            final(self).tree().len() == old(self).config().cells() - 1,
            final(self).tree().no_duplicates(),
            spanning_tree(final(self).width(), final(self).height(), final(self).tree()),
    {
        proof {
            assert(self.width() * self.height() == self.height() * self.width()) by (nonlinear_arith);
        }
        let n = self.map_config.height * self.map_config.width;
        let ghost before = generator_state(self.random);
        let drawn_start = random::below(&mut self.random, (n - 1) as u64);
        let start_node = drawn_start as usize;
        let ghost drawn = generator_state(self.random);
        let mut visited_nodes: Vec<usize> = Vec::new();
        proof {
            assert(before == seeded_state(self.config().seed));
            assert((drawn_start, drawn) == draw_below(seeded_state(self.config().seed), (self.config().cells() - 1) as u64));
            assert(visited_nodes@ =~= Seq::<usize>::empty());
            assert(self.tree() =~= Seq::<(int, int)>::empty());
        }
        proof {
            assert(visited_nodes@.push(start_node) =~= seq![start_node]);
        }
        self.recursive_backtracking(start_node, &mut visited_nodes, Ghost(n as nat));
        proof {
            let w = self.width();
            let h = self.height();
            let v = visited_nodes@;
            let p = |x: int| v.contains(x as usize);
            assert(v.take(1)[0] == start_node);
            assert forall|x: int, y: int|
                0 <= x < w * h && #[trigger] p(x) && #[trigger] adjacent(w, h, x, y) implies p(y) by {
                let k = choose|k: int| 0 <= k < v.len() && v[k] == x as usize;
                assert(closed_at(w, h, v, v[k] as int));
            }
            lemma_grid_connected(w, h, start_node as int, p);
            let all = Set::<usize>::range(0, n);
            vstd::set_lib::range_set_properties::<usize>(0, n);
            assert(v.to_set() =~= all) by {
                assert forall|x: usize| all.contains(x) implies v.to_set().contains(x) by {
                    assert(p(x as int));
                }
            }
            v.unique_seq_to_set();
            lemma_grown_no_duplicates(w, h, v, self.tree());
            assert(grown_from(w, h, v, self.tree()));
        }
    }

    /// Visits `current_node`, shuffles its neighbours and, in that order,
    /// joins each one not yet visited to it and visits that one in turn. This
    /// is the traversal `explore` describes, `fuel` bounding its depth.
    fn recursive_backtracking(&mut self, current_node: usize, visited_nodes: &mut Vec<usize>, fuel: Ghost<nat>)
        requires
            fuel@ >= old(self).config().cells() - old(visited_nodes)@.len(),
            old(self).wf(),
            current_node < old(self).config().cells(),
            distinct_cells(old(visited_nodes)@.push(current_node), old(self).config().cells()),
            grown_from(old(self).width(), old(self).height(), old(visited_nodes)@.push(current_node), old(self).tree()),
        ensures
            final(self).wf(),
            final(self).config() == old(self).config(),
            (final(visited_nodes)@, final(self).tree(), generator_state(final(self).random)) == explore(
                old(self).width(),
                old(self).height(),
                current_node,
                old(visited_nodes)@,
                old(self).tree(),
                generator_state(old(self).random),
                fuel@,
            ),
            final(visited_nodes)@.len() > old(visited_nodes)@.len(),
            final(visited_nodes)@.take(old(visited_nodes)@.len() + 1int) == old(visited_nodes)@.push(current_node),
            final(self).tree().len() >= old(self).tree().len(),
            final(self).tree().take(old(self).tree().len() as int) == old(self).tree(),
            distinct_cells(final(visited_nodes)@, old(self).config().cells()),
            grown_from(old(self).width(), old(self).height(), final(visited_nodes)@, final(self).tree()),
            forall|k: int|
                old(visited_nodes)@.len() <= k < final(visited_nodes)@.len() ==> #[trigger] closed_at(
                    old(self).width(),
                    old(self).height(),
                    final(visited_nodes)@,
                    final(visited_nodes)@[k] as int,
                ),
        decreases old(self).config().cells() - old(visited_nodes)@.len(),
    {
        let ghost w = self.width();
        let ghost h = self.height();
        let ghost n = self.config().cells();
        let ghost config = self.config();
        let ghost v0 = visited_nodes@;
        let ghost t0 = self.tree();
        let mut neighbors = self.get_neighbors(current_node);
        let ghost ns0 = neighbors@;
        proof {
            assert(ns0 =~= neighbor_cells(w, h, current_node as int));
        }
        random::shuffle(&mut self.random, &mut neighbors);
        let ghost result = explore_from(w, h, current_node, neighbors@, 0, v0.push(current_node), t0, generator_state(self.random), fuel@);
        proof {
            assert forall|x: usize| neighbors@.contains(x) <==> ns0.contains(x) by {
                neighbors@.to_multiset_ensures();
                ns0.to_multiset_ensures();
                assert(neighbors@.to_multiset().count(x) == ns0.to_multiset().count(x));
            }
            assert forall|x: usize| ns0.contains(x) implies adjacent(w, h, current_node as int, x as int) by {
                let ni = ns0.map_values(|n: usize| n as int);
                let k = choose|k: int| 0 <= k < ns0.len() && ns0[k] == x;
                assert(ni[k] == x as int);
            }
            assert forall|x: usize| #[trigger] neighbors@.contains(x) implies adjacent(w, h, current_node as int, x as int) by {
                assert(ns0.contains(x));
            }
            assert forall|x: int| #[trigger] adjacent(w, h, current_node as int, x) implies ns0.contains(x as usize) by {
                let ni = ns0.map_values(|n: usize| n as int);
                let k = choose|k: int| 0 <= k < ni.len() && ni[k] == x;
                assert(ns0[k] as int == x);
            }
        }
        visited_nodes.push(current_node);
        let mut i: usize = 0;
        while i < neighbors.len()
            invariant
                self.wf(),
                self.config() == config,
                config == old(self).config(),
                v0 == old(visited_nodes)@,
                w == self.width(),
                h == self.height(),
                n == config.cells(),
                current_node < n,
                forall|x: int| #[trigger] adjacent(w, h, current_node as int, x) ==> neighbors@.contains(x as usize),
                forall|x: usize| #[trigger] neighbors@.contains(x) ==> adjacent(w, h, current_node as int, x as int),
                i <= neighbors.len(),
                visited_nodes@.len() >= v0.len() + 1,
                visited_nodes@.take(v0.len() + 1int) == v0.push(current_node),
                self.tree().len() >= t0.len(),
                self.tree().take(t0.len() as int) == t0,
                distinct_cells(visited_nodes@, n),
                grown_from(w, h, visited_nodes@, self.tree()),
                forall|k: int|
                    v0.len() < k < visited_nodes@.len() ==> #[trigger] closed_at(w, h, visited_nodes@, visited_nodes@[k] as int),
                forall|j: int| 0 <= j < i ==> visited_nodes@.contains(#[trigger] neighbors@[j]),
                fuel@ >= n - v0.len(),
                result == explore_from(w, h, current_node, neighbors@, i as nat, visited_nodes@, self.tree(), generator_state(self.random), fuel@),
            decreases neighbors.len() - i,
        {
            let neighbor = neighbors[i];
            let seen = contains(visited_nodes, neighbor);
            if !seen {
                let ghost v1 = visited_nodes@;
                let ghost t1 = self.tree();
                proof {
                    assert(neighbors@.contains(neighbor));
                    assert(adjacent(w, h, current_node as int, neighbor as int));
                }
                self.path.push(Connection::new(current_node, neighbor));
                proof {
                    assert(self.tree() =~= t1.push(edge(current_node as int, neighbor as int)));
                    let v2 = v1.push(neighbor);
                    assert(v1[v0.len() as int] == current_node) by {
                        assert(v1.take(v0.len() + 1int)[v0.len() as int] == current_node);
                    }
                    assert forall|k: int| 0 <= k < self.tree().len() implies #[trigger] joins(w, h, v2, self.tree(), k) by {
                        if k < t1.len() {
                            assert(joins(w, h, v1, t1, k));
                            let j = choose|j: int|
                                #![trigger v1[j]]
                                0 <= j <= k && t1[k] == edge(v1[j] as int, v1[k + 1] as int) && adjacent(
                                    w,
                                    h,
                                    v1[j] as int,
                                    v1[k + 1] as int,
                                );
                            assert(v2[j] == v1[j]);
                        } else {
                            let j = v0.len() as int;
                            assert(v2[j] == current_node);
                        }
                    }
                    lemma_neighbors_in_grid(w, h, current_node as int);
                    assert(v2.no_duplicates()) by {
                        assert forall|a: int, b: int| 0 <= a < b < v2.len() implies v2[a] != v2[b] by {
                            if b == v1.len() {
                                assert(v1.contains(v1[a]));
                            } else {
                                assert(v1[a] != v1[b]);
                            }
                        }
                    }
                    assert(distinct_cells(v2, n));
                    lemma_distinct_bound(v2, n);
                }
                self.recursive_backtracking(neighbor, visited_nodes, Ghost((fuel@ - 1) as nat));
                proof {
                    let v3 = visited_nodes@;
                    assert(v3.take(v1.len() as int) == v1) by {
                        assert(v3.take(v1.len() as int) =~= v3.take(v1.len() + 1int).take(v1.len() as int));
                        assert(v1.push(neighbor).take(v1.len() as int) =~= v1);
                    }
                    lemma_prefix_contains(v1, v3);
                    assert(v3.take(v0.len() + 1int) =~= v1.take(v0.len() + 1int));
                    assert(self.tree().take(t0.len() as int) =~= self.tree().take(t1.len() as int).take(t0.len() as int));
                    assert(self.tree().take(t1.len() as int) =~= t1) by {
                        assert(self.tree().take(t1.len() + 1int).take(t1.len() as int) =~= self.tree().take(t1.len() as int));
                        assert(t1.push(edge(current_node as int, neighbor as int)).take(t1.len() as int) =~= t1);
                    }
                    assert forall|k: int|
                        v0.len() < k < v3.len() implies #[trigger] closed_at(w, h, v3, v3[k] as int) by {
                        if k < v1.len() {
                            assert(v3[k] == v1[k]);
                            assert(closed_at(w, h, v1, v1[k] as int));
                        }
                    }
                    assert forall|j: int| 0 <= j <= i implies v3.contains(#[trigger] neighbors@[j]) by {
                        if j < i {
                            assert(v1.contains(neighbors@[j]));
                        } else {
                            assert(v3.take(v1.len() + 1int)[v1.len() as int] == neighbor);
                        }
                    }
                }
            }
            i += 1;
        }
        proof {
            let v = visited_nodes@;
            assert(v[v0.len() as int] == current_node) by {
                assert(v.take(v0.len() + 1int)[v0.len() as int] == current_node);
            }
            assert(closed_at(w, h, v, current_node as int)) by {
                assert forall|x: int| #[trigger] adjacent(w, h, current_node as int, x) implies v.contains(x as usize) by {
                    let j = choose|j: int| 0 <= j < neighbors@.len() && neighbors@[j] == x as usize;
                }
            }
        }
    }

    /// The walls of this maze.
    pub open spec fn walls(&self) -> Seq<((int, int), (int, int))> {
        walls_of(self.width(), self.height(), self.tree())
    }

    /// Whether the tree holds the connection between `from` and `to`.
    pub fn contains_connection(&self, from: usize, to: usize) -> (r: bool)
        ensures
            r == self.tree().contains(edge(from as int, to as int)),
    {
        let c = Connection::new(from, to);
        let mut k: usize = 0;
        while k < self.path.len()
            invariant
                k <= self.path.len(),
                c@ == edge(from as int, to as int),
                forall|j: int| 0 <= j < k ==> self.tree()[j] != c@,
            decreases self.path.len() - k,
        {
            if self.path[k] == c {
                proof {
                    assert(self.tree()[k as int] == c@);
                }
                return true;
            }
            k += 1;
        }
        false
    }

    /// Number of connections in the tree.
    pub fn connection_count(&self) -> (r: usize)
        ensures
            r == self.tree().len(),
    {
        self.path.len()
    }

    /// The wall segments of the maze, in half-cell units: for each cell in
    /// index order and each of its neighbours in order, the wall between them
    /// unless the tree joins them; then the four sides of the outer rectangle.
    pub fn get_walls(&self) -> (r: Vec<(HalfPoint, HalfPoint)>)
        requires
            self.wf(),
        ensures
            r@.map_values(|s: (HalfPoint, HalfPoint)| wall_view(s)) == self.walls(),
    {
        let ghost w = self.width();
        let ghost h = self.height();
        let ghost tree = self.tree();
        proof {
            assert(w * h == h * w) by (nonlinear_arith);
        }
        let n = self.map_config.height * self.map_config.width;
        let mut walls: Vec<(HalfPoint, HalfPoint)> = Vec::new();
        let mut i: usize = 0;
        proof {
            assert(walls@.map_values(|s: (HalfPoint, HalfPoint)| wall_view(s)) =~= interior_walls(w, h, tree, 0));
        }
        while i < n
            invariant
                self.wf(),
                w == self.width(),
                h == self.height(),
                tree == self.tree(),
                n == w * h,
                i <= n,
                walls@.map_values(|s: (HalfPoint, HalfPoint)| wall_view(s)) == interior_walls(w, h, tree, i as int),
            decreases n - i,
        {
            let neighbors = self.get_neighbors(i);
            let ghost ns = neighbors_of(w, h, i as int);
            let ghost before = walls@.map_values(|s: (HalfPoint, HalfPoint)| wall_view(s));
            proof {
                lemma_neighbors_in_grid(w, h, i as int);
                assert(ns.take(0) =~= Seq::<int>::empty());
                assert(before =~= before + cell_walls(w, tree, i as int, ns.take(0)));
            }
            let mut j: usize = 0;
            while j < neighbors.len()
                invariant
                    self.wf(),
                    w == self.width(),
                    h == self.height(),
                    tree == self.tree(),
                    n == w * h,
                    i < n,
                    neighbors@.map_values(|x: usize| x as int) == ns,
                    ns == neighbors_of(w, h, i as int),
                    forall|x: int| #[trigger] adjacent(w, h, i as int, x) ==> 0 <= x < w * h,
                    before == interior_walls(w, h, tree, i as int),
                    j <= neighbors.len(),
                    walls@.map_values(|s: (HalfPoint, HalfPoint)| wall_view(s)) == before + cell_walls(w, tree, i as int, ns.take(j as int)),
                decreases neighbors.len() - j,
            {
                let neighbor = neighbors[j];
                let ghost cur = walls@;
                proof {
                    assert(ns[j as int] == neighbor as int);
                    assert(adjacent(w, h, i as int, neighbor as int));
                    assert(ns.take(j + 1int).drop_last() =~= ns.take(j as int));
                }
                if !self.contains_connection(i, neighbor) {
                    proof {
                        lemma_adjacent_coords(w, h, i as int, neighbor as int);
                    }
                    let a = self.get_node_coords(i);
                    let b = self.get_node_coords(neighbor);
                    let (dx, dy) = (b.0 - a.0, b.1 - a.1);
                    let (sx, sy) = (a.0 + b.0, a.1 + b.1);
                    walls.push((HalfPoint { x: sx - dy, y: sy + dx }, HalfPoint { x: sx + dy, y: sy - dx }));
                    proof {
                        assert(walls@.map_values(|s: (HalfPoint, HalfPoint)| wall_view(s)) =~= cur.map_values(
                            |s: (HalfPoint, HalfPoint)| wall_view(s),
                        ).push(wall_between(w, i as int, neighbor as int)));
                    }
                }
                j += 1;
            }
            proof {
                assert(ns.take(neighbors.len() as int) =~= ns);
            }
            i += 1;
        }
        let right = 2 * (self.map_config.width as i64) - 1;
        let top = 2 * (self.map_config.height as i64) - 1;
        let left_bottom = HalfPoint { x: -1, y: -1 };
        let right_bottom = HalfPoint { x: right, y: -1 };
        let right_top = HalfPoint { x: right, y: top };
        let left_top = HalfPoint { x: -1, y: top };
        let ghost inner = walls@.map_values(|s: (HalfPoint, HalfPoint)| wall_view(s));
        walls.push((left_bottom, right_bottom));
        walls.push((right_bottom, right_top));
        walls.push((right_top, left_top));
        walls.push((left_top, left_bottom));
        proof {
            assert(walls@.map_values(|s: (HalfPoint, HalfPoint)| wall_view(s)) =~= inner + boundary(w, h));
        }
        walls
    }
}

/// Whether `cells` holds `cell`.
fn contains(cells: &Vec<usize>, cell: usize) -> (r: bool)
    ensures
        r == cells@.contains(cell),
{
    let mut i: usize = 0;
    while i < cells.len()
        invariant
            i <= cells.len(),
            forall|j: int| 0 <= j < i ==> cells@[j] != cell,
        decreases cells.len() - i,
    {
        if cells[i] == cell {
            return true;
        }
        i += 1;
    }
    false
}

} // verus!
