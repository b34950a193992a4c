use mindgames::distance;
use mindgames::session::MoveOutcome;
use mindgames::session::Session;

/// The start-to-door path of the session's maze, rebuilt from a
/// breadth-first sweep.
fn solution_path(s: &Session) -> Vec<(usize, usize)> {
    let size = s.maze.size;
    let (dist, parent) = distance::bfs(size, &s.maze.walls, s.maze.start.0, s.maze.start.1);
    distance::trace_path(
        size,
        &s.maze.walls,
        &dist,
        &parent,
        s.maze.start.0,
        s.maze.start.1,
        s.maze.door.0,
        s.maze.door.1,
    )
}

/// A seed whose size-two maze starts in the north-west corner.
fn seed_with_start_origin() -> u64 {
    for seed in 0..1000u64 {
        let s = Session::new(2, seed);
        if s.maze.start == (0, 0) {
            return seed;
        }
    }
    panic!("no suitable seed found");
}

#[test]
fn non_adjacent_move_rejected() {
    let seed = seed_with_start_origin();
    let mut s = Session::new(2, seed);
    assert_eq!(s.current_position(), (0, 0));
    // Manhattan distance two: rejected, nothing changes
    let r = s.try_move(1, 1);
    assert_eq!(r, MoveOutcome::Rejected);
    assert_eq!(s.current_position(), (0, 0));
    assert_eq!(s.moves, 0);
}

#[test]
fn wall_bump_resets_to_start() {
    let seed = seed_with_start_origin();
    let mut s = Session::new(2, seed);
    // the start of a two-by-two perfect maze always has exactly one
    // open and one closed incident edge; find the closed one
    let neighbors = [(1usize, 0usize), (0usize, 1usize)];
    let mut bumped = false;
    for (nx, ny) in neighbors {
        if !s.maze.is_open(0, 0, nx, ny) && (nx, ny) != s.maze.door {
            // step onto the open neighbor first so the reset is visible
            let (ox, oy) = if (nx, ny) == (1, 0) { (0, 1) } else { (1, 0) };
            if s.maze.is_open(0, 0, ox, oy) && (ox, oy) != s.maze.door {
                let r = s.try_move(ox, oy);
                assert_eq!(r, MoveOutcome::Stepped);
            }
            // bump from wherever we stand: walk back if needed
            if s.current_position() != (0, 0) {
                let back = s.try_move(0, 0);
                assert_eq!(back, MoveOutcome::Stepped);
            }
            let r = s.try_move(nx, ny);
            assert_eq!(r, MoveOutcome::Blocked);
            assert_eq!(s.current_position(), s.maze.start);
            // the visited set shrank back to the start alone
            for x in 0..2 {
                for y in 0..2 {
                    assert_eq!(s.is_visited(x, y), (x, y) == s.maze.start);
                }
            }
            bumped = true;
        }
    }
    assert!(bumped || s.maze.is_open(0, 0, 1, 0) || s.maze.is_open(0, 0, 0, 1));
}

#[test]
fn door_gated_until_key_then_level_complete() {
    // walk the forced path: the locked door always rejects, the key
    // unlocks it, and the door then completes the level with a fresh,
    // larger maze
    let mut s = Session::new(2, 3);
    let path = solution_path(&s);
    assert!(path.len() >= 3);
    let door = s.maze.door;
    let key = s.maze.key;
    let start_level = s.level;
    for step in 1..path.len() {
        let (tx, ty) = path[step];
        // before holding the key, knock on the door whenever adjacent
        if !s.holds_key() {
            let (cx, cy) = s.current_position();
            let dx = door.0.abs_diff(cx) + door.1.abs_diff(cy);
            if dx == 1 {
                let pos_before = s.current_position();
                let r = s.try_move(door.0, door.1);
                assert_eq!(r, MoveOutcome::Rejected);
                assert_eq!(s.current_position(), pos_before);
            }
        }
        let had_key = s.holds_key();
        let r = s.try_move(tx, ty);
        if (tx, ty) == door {
            assert!(had_key);
            assert_eq!(r, MoveOutcome::LevelComplete);
            assert_eq!(s.maze.size, 3);
            assert_eq!(s.level, start_level + 1);
            assert_eq!(s.moves, 0);
            assert!(!s.holds_key());
            assert_eq!(s.current_position(), s.maze.start);
        } else {
            assert_eq!(r, MoveOutcome::Stepped);
            if (tx, ty) == key {
                assert!(s.holds_key());
            }
        }
    }
}

#[test]
fn door_unlock_opens_all_walls_and_is_idempotent() {
    let mut s = Session::new(3, 9);
    let path = solution_path(&s);
    let key = s.maze.key;
    let door = s.maze.door;
    // walk up to the key
    let mut key_step = 0;
    for step in 1..path.len() {
        let (tx, ty) = path[step];
        let r = s.try_move(tx, ty);
        assert_eq!(r, MoveOutcome::Stepped);
        if (tx, ty) == key {
            key_step = step;
            break;
        }
    }
    assert!(s.holds_key());
    // all walls around the door stand open, from both sides
    let size = s.maze.size;
    let (dx, dy) = door;
    if dy >= 1 {
        assert!(s.maze.is_open(dx, dy, dx, dy - 1));
        assert!(s.maze.is_open(dx, dy - 1, dx, dy));
    }
    if dx + 1 < size {
        assert!(s.maze.is_open(dx, dy, dx + 1, dy));
        assert!(s.maze.is_open(dx + 1, dy, dx, dy));
    }
    if dy + 1 < size {
        assert!(s.maze.is_open(dx, dy, dx, dy + 1));
        assert!(s.maze.is_open(dx, dy + 1, dx, dy));
    }
    if dx >= 1 {
        assert!(s.maze.is_open(dx, dy, dx - 1, dy));
        assert!(s.maze.is_open(dx - 1, dy, dx, dy));
    }
    // step off the key and back onto it: re-collecting must not
    // change the walls
    let (bx, by) = path[key_step - 1];
    assert_eq!(s.try_move(bx, by), MoveOutcome::Stepped);
    let walls_before = s.maze.walls.clone();
    assert_eq!(s.try_move(key.0, key.1), MoveOutcome::Stepped);
    assert!(s.holds_key());
    assert_eq!(s.maze.walls, walls_before);
}

#[test]
fn reset_regenerates_same_size() {
    let mut s = Session::new(4, 21);
    let level = s.level;
    s.reset();
    assert_eq!(s.maze.size, 4);
    assert_eq!(s.level, level);
    assert_eq!(s.moves, 0);
    assert!(!s.holds_key());
    assert_eq!(s.current_position(), s.maze.start);
}

#[test]
fn reset_to_level_one_drops_to_side_two() {
    let mut s = Session::new(5, 33);
    s.reset_to_level_one();
    assert_eq!(s.maze.size, 2);
    assert_eq!(s.level, 1);
    assert_eq!(s.moves, 0);
    let mut t = Session::new(2, 33);
    let level_before = t.level;
    t.reset_to_level_one();
    assert_eq!(t.maze.size, 2);
    assert_eq!(t.level, level_before);
}

#[test]
fn move_counter_counts_steps_only() {
    let mut s = Session::new(2, 3);
    let path = solution_path(&s);
    let (tx, ty) = path[1];
    assert_eq!(s.try_move(tx, ty), MoveOutcome::Stepped);
    assert_eq!(s.moves, 1);
    // a rejected move leaves the counter alone
    let far = (s.maze.size - 1, s.maze.size - 1);
    let (cx, cy) = s.current_position();
    if far.0.abs_diff(cx) + far.1.abs_diff(cy) >= 2 {
        let _ = s.try_move(far.0, far.1);
        assert_eq!(s.moves, 1);
    }
}
