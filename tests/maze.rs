use maze_map::map::{Connection, HalfPoint, MapConfig, MazeMap};
use maze_map::plugin::MapPlugin;

fn built(width: usize, height: usize, seed: u64) -> MazeMap {
    let mut map = MazeMap::new(MapConfig { width, height, seed });
    map.generate_map();
    map
}

fn seg(a: (i64, i64), b: (i64, i64)) -> (HalfPoint, HalfPoint) {
    (HalfPoint { x: a.0, y: a.1 }, HalfPoint { x: b.0, y: b.1 })
}

fn boundary(width: i64, height: i64) -> Vec<(HalfPoint, HalfPoint)> {
    let (r, t) = (2 * width - 1, 2 * height - 1);
    vec![seg((-1, -1), (r, -1)), seg((r, -1), (r, t)), seg((r, t), (-1, t)), seg((-1, t), (-1, -1))]
}

fn separated(walls: &[(HalfPoint, HalfPoint)], map: &MazeMap, a: usize, b: usize) -> bool {
    let (ca, cb) = (map.get_node_coords(a), map.get_node_coords(b));
    let (dx, dy) = (cb.0 - ca.0, cb.1 - ca.1);
    let (sx, sy) = (ca.0 + cb.0, ca.1 + cb.1);
    let forward = seg((sx - dy, sy + dx), (sx + dy, sy - dx));
    let backward = seg((sx + dy, sy - dx), (sx - dy, sy + dx));
    walls.contains(&forward) || walls.contains(&backward)
}

#[test]
fn two_cells_single_connection() {
    let map = built(2, 1, 0);
    assert_eq!(map.connection_count(), 1);
    assert!(map.contains_connection(0, 1));
    assert!(map.contains_connection(1, 0));
    let walls = map.get_walls();
    assert_eq!(walls.len(), 4);
    assert_eq!(walls, boundary(2, 1));
}

#[test]
fn three_by_three_seed_42() {
    let map = built(3, 3, 42);
    assert_eq!(map.connection_count(), 8);
    let walls = map.get_walls();
    let mut directed_apart = 0;
    for i in 0..9 {
        for n in map.get_neighbors(i) {
            if !map.contains_connection(i, n) {
                directed_apart += 1;
            }
        }
    }
    assert_eq!(directed_apart, 8);
    assert_eq!(walls.len(), directed_apart + 4);
    let again = built(3, 3, 42);
    for a in 0..9 {
        for b in 0..9 {
            assert_eq!(map.contains_connection(a, b), again.contains_connection(a, b));
        }
    }
}

#[test]
fn seeds_give_different_mazes() {
    let first = built(3, 3, 42).get_walls();
    let mut differs = false;
    for seed in 0..16u64 {
        if built(3, 3, seed).get_walls() != first {
            differs = true;
        }
    }
    assert!(differs);
}

#[test]
fn same_seed_same_walls() {
    for seed in [0u64, 1, 7, 42, 1234567] {
        assert_eq!(built(5, 4, seed).get_walls(), built(5, 4, seed).get_walls());
    }
}

#[test]
fn spanning_tree_size_on_several_grids() {
    for (w, h) in [(2, 1), (1, 2), (1, 5), (4, 4), (7, 3), (10, 10)] {
        let map = built(w, h, 9);
        assert_eq!(map.connection_count(), w * h - 1);
        let walls = map.get_walls();
        let adjacent_directed: usize = (0..w * h).map(|i| map.get_neighbors(i).len()).sum();
        assert_eq!(walls.len(), adjacent_directed - 2 * (w * h - 1) + 4);
    }
}

#[test]
fn walls_complement_tree() {
    let map = built(6, 5, 3);
    let walls = map.get_walls();
    for i in 0..30 {
        for n in map.get_neighbors(i) {
            assert_ne!(map.contains_connection(i, n), separated(&walls, &map, i, n));
        }
    }
}

#[test]
fn boundary_closes_the_walls() {
    for seed in [0u64, 5, 99] {
        let walls = built(4, 3, seed).get_walls();
        let n = walls.len();
        assert_eq!(walls[n - 4..].to_vec(), boundary(4, 3));
        for k in 0..4 {
            assert_eq!(walls[n - 4 + k].1, walls[n - 4 + (k + 1) % 4].0);
        }
        for w in &walls[..n - 4] {
            assert!(!boundary(4, 3).contains(w));
        }
    }
}

#[test]
fn wall_geometry_on_two_by_two() {
    let map = built(2, 2, 11);
    assert_eq!(map.connection_count(), 3);
    let walls = map.get_walls();
    assert_eq!(walls.len(), 6);
    let expected = [
        ((0, 1), seg((1, 1), (1, -1)), seg((1, -1), (1, 1))),
        ((2, 3), seg((1, 3), (1, 1)), seg((1, 1), (1, 3))),
        ((0, 2), seg((-1, 1), (1, 1)), seg((1, 1), (-1, 1))),
        ((1, 3), seg((1, 1), (3, 1)), seg((3, 1), (1, 1))),
    ];
    let mut apart = 0;
    for ((a, b), from_a, from_b) in expected {
        if !map.contains_connection(a, b) {
            apart += 1;
            assert_eq!(walls[0], from_a);
            assert_eq!(walls[1], from_b);
        }
    }
    assert_eq!(apart, 1);
    assert_eq!(walls[2..].to_vec(), boundary(2, 2));
}

#[test]
fn coordinate_round_trip() {
    let map = MazeMap::new(MapConfig { width: 4, height: 3, seed: 0 });
    for column in 0..4i64 {
        for row in 0..3i64 {
            let index = map.get_node_from_coords((column, row)).unwrap();
            assert_eq!(index as i64, row * 4 + column);
            assert_eq!(map.get_node_coords(index), (column, row));
        }
    }
    assert_eq!(map.get_node_from_coords((4, 0)), None);
    assert_eq!(map.get_node_from_coords((-1, 0)), None);
    assert_eq!(map.get_node_from_coords((0, 3)), None);
    assert_eq!(map.get_node_from_coords((0, -1)), None);
}

#[test]
fn neighbours_in_fixed_order() {
    let map = MazeMap::new(MapConfig { width: 3, height: 3, seed: 0 });
    assert_eq!(map.get_neighbors(4), vec![5, 3, 7, 1]);
    assert_eq!(map.get_neighbors(0), vec![1, 3]);
    assert_eq!(map.get_neighbors(8), vec![7, 5]);
    assert_eq!(map.get_neighbors(3), vec![4, 6, 0]);
}

#[test]
fn connection_is_canonical() {
    assert_eq!(Connection::new(5, 2), Connection(2, 5));
    assert_eq!(Connection::new(2, 5), Connection(2, 5));
    assert_eq!(Connection::new(3, 3), Connection(3, 3));
}

#[test]
fn config_defaults_and_getters() {
    let config = MapConfig::default();
    assert_eq!((config.get_width(), config.get_height(), config.seed), (3, 3, 0));
    let map = MazeMap::new(MapConfig { width: 7, height: 2, seed: 1 });
    assert_eq!(map.get_config().get_width(), 7);
    assert_eq!(map.get_config().get_height(), 2);
    assert_eq!(map.connection_count(), 0);
}

#[test]
fn map_size_from_players() {
    assert_eq!(MapPlugin::calculate_map_size(5, 3), (9, 6));
    assert_eq!(MapPlugin::calculate_map_size(1, 1), (2, 1));
    assert_eq!(MapPlugin::calculate_map_size(4, 2), (4, 4));
    assert_eq!(MapPlugin::calculate_map_size(12, 1), (4, 3));
    assert_eq!(MapPlugin::calculate_map_size(7, 10), (40, 20));
}

#[test]
fn shuffles_vary_the_traversal() {
    // With neighbours taken in their fixed order, only the start cell (one of
    // eight) would vary; shuffling gives many more trees.
    let mut seen: Vec<Vec<(HalfPoint, HalfPoint)>> = Vec::new();
    for seed in 0..64u64 {
        let walls = MazeMap::generated(MapConfig { width: 3, height: 3, seed }).get_walls();
        if !seen.contains(&walls) {
            seen.push(walls);
        }
    }
    assert!(seen.len() > 8);
}

#[test]
fn start_cell_below_last() {
    // A 1 x 2 grid has one tree whatever the start; the draw only has to succeed.
    let map = MazeMap::generated(MapConfig { width: 1, height: 2, seed: 77 });
    assert_eq!(map.connection_count(), 1);
    assert!(map.contains_connection(1, 0));
    assert_eq!(map.get_walls(), boundary(1, 2));
}
