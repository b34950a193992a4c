use mindgames::distance;
use mindgames::kruskal;
use mindgames::maze;
use mindgames::session::Session;
use mindgames::rng::Rng;
use mindgames::wall_model;

fn open_flags(m: &maze::Maze) -> usize {
    m.walls.iter().filter(|w| !**w).count()
}

#[test]
fn wall_index_arithmetic() {
    // cell (0, 0) of a 2x2 grid: right wall is flag 1, bottom is flag 2
    assert_eq!(wall_model::wall_index(2, 0, 0, 1, 0), 1);
    assert_eq!(wall_model::wall_index(2, 0, 0, 0, 1), 2);
    // cell (1, 1) has base index 3 * 4 = 12; top wall 12, left wall 15
    assert_eq!(wall_model::wall_index(2, 1, 1, 1, 0), 12);
    assert_eq!(wall_model::wall_index(2, 1, 1, 0, 1), 15);
    assert_eq!(wall_model::cell_index_of(3, 2, 1), 5);
}

#[test]
fn cells_adjacent_is_manhattan_one() {
    assert!(wall_model::cells_adjacent(1, 1, 1, 2));
    assert!(wall_model::cells_adjacent(1, 1, 0, 1));
    assert!(!wall_model::cells_adjacent(1, 1, 2, 2));
    assert!(!wall_model::cells_adjacent(1, 1, 1, 1));
}

#[test]
fn flood_fill_visits_every_cell() {
    // connectivity: a flood fill from any cell of a generated maze
    // visits exactly n * n cells
    for size in 1..6usize {
        for seed in 0..5u64 {
            let mut rng = Rng::seeded(seed);
            let m = maze::generate(size, &mut rng);
            for x in 0..size {
                for y in 0..size {
                    assert_eq!(m.flood_fill_count(x, y), size * size);
                }
            }
        }
    }
}

#[test]
fn wall_symmetry_everywhere() {
    // no one-way walls: the passage reads the same from both sides
    for seed in 0..5u64 {
        let mut rng = Rng::seeded(seed);
        let m = maze::generate(4, &mut rng);
        for x in 0..4usize {
            for y in 0..4usize {
                if x + 1 < 4 {
                    assert_eq!(m.is_open(x, y, x + 1, y), m.is_open(x + 1, y, x, y));
                }
                if y + 1 < 4 {
                    assert_eq!(m.is_open(x, y, x, y + 1), m.is_open(x, y + 1, x, y));
                }
            }
        }
    }
}

#[test]
fn perfect_maze_edge_count() {
    // acyclicity: a perfect maze over n * n cells opens exactly
    // n * n - 1 passages, two flags each
    for size in 1..7usize {
        for seed in 0..5u64 {
            let mut rng = Rng::seeded(seed);
            let m = maze::generate(size, &mut rng);
            assert_eq!(open_flags(&m), 2 * (size * size - 1));
        }
    }
}

#[test]
fn marker_placement_distinct() {
    // start, key and door are pairwise distinct whenever the grid has
    // at least three cells
    for size in 2..7usize {
        for seed in 0..10u64 {
            let mut rng = Rng::seeded(seed);
            let m = maze::generate(size, &mut rng);
            assert_ne!(m.start, m.key);
            assert_ne!(m.key, m.door);
            assert_ne!(m.start, m.door);
        }
    }
}

#[test]
fn single_cell_maze_collapses_markers() {
    let mut rng = Rng::seeded(7);
    let m = maze::generate(1, &mut rng);
    assert_eq!(m.start, (0, 0));
    assert_eq!(m.key, (0, 0));
    assert_eq!(m.door, (0, 0));
}

#[test]
fn key_lies_on_start_door_path() {
    // the key sits strictly inside the rebuilt start-to-door path
    for size in 2..6usize {
        for seed in 0..10u64 {
            let mut rng = Rng::seeded(seed);
            let m = maze::generate(size, &mut rng);
            let (dist, parent) =
                distance::bfs(size, &m.walls, m.start.0, m.start.1);
            let path = distance::trace_path(
                size, &m.walls, &dist, &parent, m.start.0, m.start.1, m.door.0, m.door.1,
            );
            assert!(path.len() >= 3);
            assert_eq!(path[0], m.start);
            assert_eq!(path[path.len() - 1], m.door);
            let k = path.iter().position(|c| *c == m.key);
            let k = k.expect("key must lie on the path");
            assert!(0 < k && k < path.len() - 1);
        }
    }
}

#[test]
fn bfs_distances_consistent() {
    let mut rng = Rng::seeded(11);
    let m = maze::generate(4, &mut rng);
    let (dist, parent) = distance::bfs(4, &m.walls, m.start.0, m.start.1);
    let si = m.start.1 * 4 + m.start.0;
    assert_eq!(dist[si], 0);
    assert_eq!(parent[si], si);
    for i in 0..16usize {
        assert!(dist[i] < 16);
        if i != si {
            let p = parent[i];
            assert_eq!(dist[p] + 1, dist[i]);
            // the predecessor edge is an open passage
            let (px, py) = (p % 4, p / 4);
            let (x, y) = (i % 4, i / 4);
            assert!(m.is_open(px, py, x, y));
        }
    }
}

#[test]
fn furthest_cell_is_argmax() {
    let dist = vec![0usize, 3, 1, 3];
    let r = distance::furthest_cell(2, &dist);
    assert_eq!(r, 1);
    assert_eq!(dist[r], 3);
}

#[test]
fn seeded_generation_is_deterministic() {
    let mut r1 = Rng::seeded(42);
    let mut r2 = Rng::seeded(42);
    let m1 = maze::generate(5, &mut r1);
    let m2 = maze::generate(5, &mut r2);
    assert_eq!(m1.walls, m2.walls);
    assert_eq!(m1.start, m2.start);
    assert_eq!(m1.key, m2.key);
    assert_eq!(m1.door, m2.door);
}

#[test]
fn kruskal_carves_a_perfect_maze_too() {
    for size in 1..6usize {
        for seed in 0..5u64 {
            let mut rng = Rng::seeded(seed);
            let walls = kruskal::carve_kruskal(size, &mut rng);
            assert_eq!(walls.len(), 4 * size * size);
            // exactly n * n - 1 open passages, two flags each
            assert_eq!(walls.iter().filter(|w| !**w).count(), 2 * (size * size - 1));
            // symmetric and fully connected: a sweep from the corner
            // reaches every cell
            let (dist, _parent) = distance::bfs(size, &walls, 0, 0);
            for d in dist {
                assert!(d < size * size);
            }
            for x in 0..size {
                for y in 0..size {
                    if x + 1 < size {
                        assert_eq!(
                            walls[wall_model::wall_index(size, x, y, x + 1, y)],
                            walls[wall_model::wall_index(size, x + 1, y, x, y)]
                        );
                    }
                    if y + 1 < size {
                        assert_eq!(
                            walls[wall_model::wall_index(size, x, y, x, y + 1)],
                            walls[wall_model::wall_index(size, x, y + 1, x, y)]
                        );
                    }
                }
            }
        }
    }
}

#[test]
fn door_is_farthest_from_start() {
    // the double sweep puts the door at maximal shortest-path distance
    for size in 2..6usize {
        for seed in 0..5u64 {
            let mut rng = Rng::seeded(seed);
            let m = maze::generate(size, &mut rng);
            let (dist, _parent) = distance::bfs(size, &m.walls, m.start.0, m.start.1);
            let door_dist = dist[m.door.1 * size + m.door.0];
            for d in &dist {
                assert!(*d <= door_dist);
            }
        }
    }
}

#[test]
fn reset_installs_a_fresh_perfect_maze() {
    let mut s = Session::new(3, 5);
    // unlock the door by force of play: collect the key first
    let path = {
        let (dist, parent) = distance::bfs(3, &s.maze.walls, s.maze.start.0, s.maze.start.1);
        distance::trace_path(
            3, &s.maze.walls, &dist, &parent, s.maze.start.0, s.maze.start.1, s.maze.key.0,
            s.maze.key.1,
        )
    };
    for step in path.iter().skip(1) {
        s.try_move(step.0, step.1);
    }
    assert!(s.holds_key());
    // the unlocked maze has extra open flags; a reset must replace it
    // with a spanning tree again
    assert!(s.maze.walls.iter().filter(|w| !**w).count() > 2 * (3 * 3 - 1));
    s.reset();
    assert_eq!(s.maze.walls.iter().filter(|w| !**w).count(), 2 * (3 * 3 - 1));
    assert!(!s.holds_key());
    let mut t = Session::new(5, 8);
    t.reset_to_level_one();
    assert_eq!(t.maze.walls.iter().filter(|w| !**w).count(), 2 * (2 * 2 - 1));
}
