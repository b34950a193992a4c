use mindgames::grid::GridPos;
use mindgames::level_generator;
use mindgames::numeracy::Level;
use mindgames::rng::Rng;
use mindgames::rotation;
use mindgames::tile::Direction;
use mindgames::tile::Tile;
use mindgames::tile_generator;

#[test]
fn grid_pos_round_trip() {
    let p = GridPos::new(3, 7);
    assert_eq!(p.to_pair(), (3, 7));
}

#[test]
fn direction_reversed_and_rotated() {
    assert_eq!(Direction::North.reversed(), Direction::South);
    assert_eq!(Direction::NorthEast.reversed(), Direction::SouthWest);
    assert_eq!(Direction::East.rotate_90(), Direction::South);
    assert_eq!(Direction::SouthWest.rotate_90(), Direction::NorthWest);
}

#[test]
fn direction_from_rotation() {
    assert_eq!(Direction::from_rotation(Direction::East, 0, false), Direction::East);
    assert_eq!(Direction::from_rotation(Direction::East, 90, false), Direction::South);
    assert_eq!(Direction::from_rotation(Direction::North, 180, false), Direction::South);
    assert_eq!(Direction::from_rotation(Direction::East, 0, true), Direction::West);
    // diagonal bases fall back to east
    assert_eq!(Direction::from_rotation(Direction::NorthWest, 90, false), Direction::South);
}

#[test]
fn tile_rotate_and_reverse() {
    let mut t = Tile { cells: vec![(0, 0)], rotation: 270, reversed: false };
    t.rotate();
    assert_eq!(t.rotation, 0);
    t.rotate();
    assert_eq!(t.rotation, 90);
    t.reverse();
    assert!(t.reversed);
    assert_eq!(t.cells, vec![(0, 0)]);
}

#[test]
fn effective_direction_accounts_for_rotation_and_reversal() {
    let t = Tile { cells: vec![(0, 0)], rotation: 90, reversed: false };
    assert_eq!(t.get_effective_direction(), Direction::South);
    let t = Tile { cells: vec![(0, 0)], rotation: 180, reversed: true };
    assert_eq!(t.get_effective_direction(), Direction::East);
    // a rotation off the quarter stops counts as none
    let t = Tile { cells: vec![(0, 0)], rotation: 45, reversed: false };
    assert_eq!(t.get_effective_direction(), Direction::East);
}

#[test]
fn rotate_coordinates_quarter_turn() {
    let cells = vec![(0usize, 0usize), (0, 1)];
    let r = rotation::rotate_coordinates(&cells, 90);
    assert_eq!(r, vec![(0, 0), (1, 0)]);
}

#[test]
fn rotate_coordinates_clamps_outside_quadrant() {
    let cells = vec![(0usize, 0usize), (1, 0)];
    let r = rotation::rotate_coordinates(&cells, 90);
    assert_eq!(r[0], (0, 0));
    assert_eq!(r[1], (usize::MAX, usize::MAX));
}

#[test]
fn rotate_coordinates_identity_at_zero() {
    let cells = vec![(2usize, 3usize), (4, 5)];
    let r = rotation::rotate_coordinates(&cells, 0);
    assert_eq!(r, cells);
}

#[test]
fn rotate_coordinates_for_tile_empty_is_none() {
    let t = Tile { cells: Vec::new(), rotation: 0, reversed: false };
    assert!(rotation::rotate_coordinates_for_tile(&t).is_none());
    let t = Tile { cells: vec![(0, 0)], rotation: 0, reversed: false };
    assert!(rotation::rotate_coordinates_for_tile(&t).is_some());
}

#[test]
fn initial_tiles_fixed_layouts() {
    let t1 = tile_generator::generate_initial_tiles(1);
    assert_eq!(t1.len(), 1);
    assert_eq!(t1[0].cells, vec![(0, 0)]);
    let t2 = tile_generator::generate_initial_tiles(2);
    assert_eq!(t2.len(), 2);
    assert_eq!(t2[0].cells, vec![(0, 0), (0, 1)]);
    assert_eq!(t2[1].cells, vec![(1, 1)]);
    let t3 = tile_generator::generate_initial_tiles(3);
    assert_eq!(t3.len(), 2);
    assert_eq!(t3[0].cells, vec![(0, 1), (1, 1)]);
    assert_eq!(t3[1].cells, vec![(2, 1)]);
    assert!(tile_generator::generate_initial_tiles(4).is_empty());
}

#[test]
fn generated_level_traces_path_and_scrambles() {
    for seed in 0..5u64 {
        let mut rng = Rng::seeded(seed);
        let (tiles, sol, start, end) = level_generator::generate_level(5, &mut rng);
        assert_eq!(start.0, 0);
        assert!(start.1 < 5);
        assert_eq!(end.0, 4);
        assert!(end.1 < 5);
        assert!(sol.len() <= tiles.len());
        for (j, s) in sol.iter().enumerate() {
            assert_eq!(*s, j);
        }
        // the solution tiles' cells trace the path west to east,
        // drifting at most one row per column
        let cells: Vec<(usize, usize)> =
            tiles[..sol.len()].iter().flat_map(|t| t.cells.clone()).collect();
        assert_eq!(cells.len(), 5);
        assert_eq!(cells[0], start);
        for (i, c) in cells.iter().enumerate() {
            assert_eq!(c.0, i);
            assert!(c.1 < 5);
            if i > 0 {
                assert!(cells[i - 1].1.abs_diff(c.1) <= 1);
            }
        }
        for (j, t) in tiles.iter().enumerate() {
            assert!(t.rotation == 0 || t.rotation == 90 || t.rotation == 180 || t.rotation == 270);
            if j < sol.len() {
                // scrambled one way, and so not already pointing east
                assert!(
                    (t.rotation != 0 && !t.reversed) || (t.rotation == 0 && t.reversed)
                );
                assert_ne!(t.get_effective_direction(), Direction::East);
            }
        }
        // distractor cells are off the path and pairwise disjoint
        let mut seen: Vec<(usize, usize)> = Vec::new();
        for t in &tiles[sol.len()..] {
            for c in &t.cells {
                assert!(!cells.contains(c));
                assert!(!seen.contains(c));
                seen.push(*c);
            }
        }
    }
}

#[test]
fn tiny_levels_use_fixed_rows() {
    let mut rng = Rng::seeded(1);
    let (_, _, start, end) = level_generator::generate_level(2, &mut rng);
    assert_eq!(start, (0, 0));
    assert_eq!(end, (1, 0));
}

#[test]
fn random_rotation_hits_quarter_stops() {
    let mut rng = Rng::seeded(5);
    for _ in 0..50 {
        let r = level_generator::random_rotation(&mut rng);
        assert!(r == 0 || r == 90 || r == 180 || r == 270);
    }
}

#[test]
fn numeracy_level_record() {
    let l = Level::new(5);
    assert_eq!(l.number, 5);
    assert_eq!(l.round_len(), 3);
}

use mindgames::puzzle::MentalRotation;

fn two_tile_game(tiles: Vec<Tile>) -> MentalRotation {
    MentalRotation {
        level: 2,
        tiles,
        initial_tiles: Vec::new(),
        solution_path_tiles: Vec::new(),
        grid_size: 2,
        start_pos: (0, 0),
        end_pos: (1, 0),
        moves: 0,
        time_remaining: 180,
    }
}

#[test]
fn rotation_validity_checks_bounds_and_collisions() {
    // the vertical domino turns into the top-left corner; a blocker
    // there makes the turn invalid
    let domino = Tile { cells: vec![(0, 1), (1, 1)], rotation: 0, reversed: false };
    let blocker = Tile { cells: vec![(0, 0)], rotation: 0, reversed: false };
    let g = two_tile_game(vec![domino.clone(), blocker.clone()]);
    assert!(!g.is_valid_rotation(0));
    let g = two_tile_game(vec![domino.clone()]);
    assert!(g.is_valid_rotation(0));
    // out-of-range index
    assert!(!g.is_valid_rotation(5));
    // a turn that would leave the grid is invalid
    let edge = Tile { cells: vec![(0, 0), (1, 0)], rotation: 0, reversed: false };
    let g = two_tile_game(vec![edge]);
    assert!(!g.is_valid_rotation(0));
}

#[test]
fn rotate_tile_applies_only_valid_turns() {
    let domino = Tile { cells: vec![(0, 1), (1, 1)], rotation: 0, reversed: false };
    let blocker = Tile { cells: vec![(0, 0)], rotation: 0, reversed: false };
    let mut g = two_tile_game(vec![domino.clone(), blocker]);
    g.rotate_tile(0);
    assert_eq!(g.tiles[0].rotation, 0);
    let mut g = two_tile_game(vec![domino]);
    g.rotate_tile(0);
    assert_eq!(g.tiles[0].rotation, 90);
    assert_eq!(g.tiles[0].cells, vec![(0, 1), (1, 1)]);
}

#[test]
fn scrambled_game_is_not_won_and_can_be_solved() {
    let mut rng = Rng::seeded(4);
    let mut g = MentalRotation::new(1, &mut rng);
    assert_eq!(g.grid_size(), 1);
    assert_eq!(g.solution_path_tiles, vec![0]);
    assert!(!g.check_win());
    let mut clicks: u64 = 0;
    while !g.check_win() && clicks < 8 {
        if g.tiles[0].reversed {
            // secondary button flips
            g.handle_click(2, 0);
        } else {
            // primary button turns; a single-cell tile always may
            g.handle_click(0, 0);
        }
        clicks += 1;
    }
    assert!(g.check_win());
    assert_eq!(g.moves, clicks);
    // a handled click reports the win state
    assert!(g.handle_click(7, 0));
}
