//! The movement and reachability engine: one game session.
//!
//! A session owns one maze, the player position, the visited set, the
//! key flag and the move and level counters, together with its own
//! seedable generator for level transitions.  `try_move` validates a
//! proposed move against the wall model and the key/door rules and
//! performs the level transition when the door is reached with the key.
//!
//! Policy choices the engine fixes, stated here so callers need not
//! guess: a wall bump resets the position and the visited set to the
//! start but keeps the key and the counters; rejected and blocked moves
//! do not raise the move counter, successful steps do.

use vstd::prelude::*;
use crate::maze::door_unlocked;
use crate::maze::fill_bools;
use crate::maze::fresh_maze;
use crate::maze::generate;
use crate::maze::lemma_unlock_idempotent;
use crate::maze::unlocked_from;
use crate::maze::Maze;
use crate::rng::Rng;
use crate::wall_model::adjacent;
use crate::wall_model::cell_index;
use crate::wall_model::cell_index_of;
use crate::wall_model::cells_adjacent;
use crate::wall_model::in_grid;
use crate::wall_model::lemma_cell_index_bounds;
use crate::wall_model::passage_open;
use crate::wall_model::wall_index;

verus! {

/// The largest grid side a session will grow to; reaching the door on a
/// maze of this size regenerates at the same size.
pub const SIZE_CAP: usize = 1024;

/// The four ways a proposed move can end.
#[derive(Clone, Copy, PartialEq, Eq, Structural, Debug)]
pub enum MoveOutcome {
    /// The target is not adjacent, or it is the locked door: nothing
    /// changes.
    Rejected,
    /// The wall between the cells stands: the position and the visited
    /// set reset to the start.
    Blocked,
    /// An ordinary step onto an open neighbor cell.
    Stepped,
    /// The door was reached with the key: a fresh, larger maze begins.
    LevelComplete,
}

/// A counter bump that stops at the numeric ceiling.
pub open spec fn bump(n: u64) -> u64 {
    if n < u64::MAX {
        (n + 1) as u64
    } else {
        n
    }
}

/// Whether the visited set holds exactly the start cell of `m`.
pub open spec fn only_start_visited(vis: Seq<bool>, m: Maze) -> bool {
    &&& vis.len() == m.size * m.size
    &&& forall|i: int|
        0 <= i < vis.len() ==> (#[trigger] vis[i]) == (i == cell_index(
            m.size as int,
            m.start.0 as int,
            m.start.1 as int,
        ))
}

/// What a proposed move to `(x, y)` will do, as a function of the
/// session state: non-adjacent targets and the locked door are
/// rejected, a standing wall blocks, the door with the key completes
/// the level, anything else is a step.
pub open spec fn outcome_of(s: Session, x: usize, y: usize) -> MoveOutcome {
    if !adjacent(s.current.0 as int, s.current.1 as int, x as int, y as int) {
        MoveOutcome::Rejected
    } else if (x, y) == s.maze.door && !s.has_key {
        MoveOutcome::Rejected
    } else if !passage_open(
        s.maze.walls@,
        s.maze.size as int,
        s.current.0 as int,
        s.current.1 as int,
        x as int,
        y as int,
    ) {
        MoveOutcome::Blocked
    } else if (x, y) == s.maze.door {
        MoveOutcome::LevelComplete
    } else {
        MoveOutcome::Stepped
    }
}

/// The state after a blocked move: the same maze, position and visited
/// set back at the start, everything else kept.
pub open spec fn blocked_effect(s0: Session, s1: Session) -> bool {
    &&& s1.maze == s0.maze
    &&& s1.current == s0.maze.start
    &&& only_start_visited(s1.visited@, s0.maze)
    &&& s1.has_key == s0.has_key
    &&& s1.moves == s0.moves
    &&& s1.level == s0.level
}

/// The state after an ordinary step to `(x, y)`: position moved, cell
/// visited, move counter bumped; stepping onto the key raises the flag
/// and opens every wall around the door (and nothing else), while
/// stepping anywhere else leaves the maze untouched.
pub open spec fn stepped_effect(s0: Session, s1: Session, x: usize, y: usize) -> bool {
    &&& s1.current == (x, y)
    &&& s1.moves == bump(s0.moves)
    &&& s1.level == s0.level
    &&& s1.has_key == (s0.has_key || (x, y) == s0.maze.key)
    &&& s1.visited@ == s0.visited@.update(
        cell_index(s0.maze.size as int, x as int, y as int),
        true,
    )
    &&& s1.maze.size == s0.maze.size
    &&& s1.maze.start == s0.maze.start
    &&& s1.maze.key == s0.maze.key
    &&& s1.maze.door == s0.maze.door
    &&& if (x, y) == s0.maze.key {
        unlocked_from(
            s0.maze.walls@,
            s1.maze.walls@,
            s0.maze.size as int,
            s0.maze.door.0 as int,
            s0.maze.door.1 as int,
        )
    } else {
        s1.maze == s0.maze
    }
    &&& ((x, y) == s0.maze.key ==> door_unlocked(
        s1.maze.walls@,
        s1.maze.size as int,
        s1.maze.door.0 as int,
        s1.maze.door.1 as int,
    ))
    &&& ((s0.has_key && (x, y) == s0.maze.key) ==> s1.maze.walls@ == s0.maze.walls@)
}

/// The state after completing a level: a fresh well-formed maze one
/// size larger (up to the cap), the player on its start with the key
/// dropped, the move counter cleared and the level counter bumped.
pub open spec fn complete_effect(s0: Session, s1: Session) -> bool {
    &&& s1.maze.size == (if s0.maze.size < SIZE_CAP {
        (s0.maze.size + 1) as usize
    } else {
        s0.maze.size
    })
    &&& s1.current == s1.maze.start
    &&& only_start_visited(s1.visited@, s1.maze)
    &&& !s1.has_key
    &&& s1.moves == 0
    &&& s1.level == bump(s0.level)
    &&& fresh_maze(s1.maze)
}

/// One game session.
pub struct Session {
    pub maze: Maze,
    pub current: (usize, usize),
    pub visited: Vec<bool>,
    pub has_key: bool,
    pub moves: u64,
    pub level: u64,
    pub rng: Rng,
}

impl Session {
    /// Well-formedness: the maze is well formed and of session size,
    /// the position is a visited grid cell, the start is visited, the
    /// door stands unlocked whenever the key is held, and the player is
    /// never on the door without the key.
    pub open spec fn wf(self) -> bool {
        &&& self.maze.wf()
        &&& 2 <= self.maze.size <= SIZE_CAP
        &&& in_grid(self.maze.size as int, self.current.0 as int, self.current.1 as int)
        &&& self.visited@.len() == self.maze.size * self.maze.size
        &&& self.visited@[cell_index(
            self.maze.size as int,
            self.current.0 as int,
            self.current.1 as int,
        )]
        &&& self.visited@[cell_index(
            self.maze.size as int,
            self.maze.start.0 as int,
            self.maze.start.1 as int,
        )]
        &&& (self.has_key ==> door_unlocked(
            self.maze.walls@,
            self.maze.size as int,
            self.maze.door.0 as int,
            self.maze.door.1 as int,
        ))
        &&& (!self.has_key ==> self.current != self.maze.door)
    }

    /// A fresh session: a generated maze of the given size, the player
    /// on its start, no key, zeroed counters.
    pub fn new(size: usize, seed: u64) -> (s: Session)
        requires
            2 <= size <= SIZE_CAP,
        ensures
            s.wf(),
            s.maze.size == size,
            s.current == s.maze.start,
            only_start_visited(s.visited@, s.maze),
            !s.has_key,
            s.moves == 0,
            s.level == 1,
            fresh_maze(s.maze),
    {
        let mut rng = Rng::seeded(seed);
        proof {
            assert(size * size <= usize::MAX && 4 * size * size <= usize::MAX)
                by (nonlinear_arith)
                requires
                    2 <= size <= 1024,
            ;
        }
        let maze = generate(size, &mut rng);
        let total = size * size;
        let mut visited = fill_bools(total, false);
        let si = cell_index_of(size, maze.start.0, maze.start.1);
        visited.set(si, true);
        let current = (maze.start.0, maze.start.1);
        proof {
            lemma_cell_index_bounds(size as int, maze.start.0 as int, maze.start.1 as int);
        }
        Session { maze, current, visited, has_key: false, moves: 0, level: 1, rng }
    }

    /// The player's cell.
    pub fn current_position(&self) -> (r: (usize, usize))
        ensures
            r == self.current,
    {
        self.current
    }

    /// Whether the key has been collected this level.
    pub fn holds_key(&self) -> (r: bool)
        ensures
            r == self.has_key,
    {
        self.has_key
    }

    /// Whether a cell has been visited since the last reset.
    pub fn is_visited(&self, x: usize, y: usize) -> (r: bool)
        requires
            self.wf(),
            in_grid(self.maze.size as int, x as int, y as int),
        ensures
            r == self.visited@[cell_index(self.maze.size as int, x as int, y as int)],
    {
        let i = cell_index_of(self.maze.size, x, y);
        self.visited[i]
    }

    /// Sends the player back to the start and clears the visited set;
    /// the maze, the key flag and the counters stay.
    pub fn reset_position(&mut self)
        requires
            old(self).wf(),
        ensures
            final(self).wf(),
            final(self).maze == old(self).maze,
            final(self).has_key == old(self).has_key,
            final(self).moves == old(self).moves,
            final(self).level == old(self).level,
            final(self).rng == old(self).rng,
            final(self).current == old(self).maze.start,
            only_start_visited(final(self).visited@, old(self).maze),
    {
        let size = self.maze.size;
        proof {
            assert(size * size <= 4 * size * size) by (nonlinear_arith)
                requires
                    size >= 1,
            ;
        }
        let total = size * size;
        let mut v = fill_bools(total, false);
        let si = cell_index_of(size, self.maze.start.0, self.maze.start.1);
        v.set(si, true);
        self.visited = v;
        self.current = (self.maze.start.0, self.maze.start.1);
        proof {
            lemma_cell_index_bounds(size as int, self.maze.start.0 as int, self.maze.start.1 as int);
        }
    }

    /// Installs a freshly generated maze of the given size and resets
    /// all per-level state; the level counter is left alone.
    fn install_fresh_maze(&mut self, size: usize)
        requires
            2 <= size <= SIZE_CAP,
        ensures
            final(self).wf(),
            final(self).maze.size == size,
            final(self).current == final(self).maze.start,
            only_start_visited(final(self).visited@, final(self).maze),
            !final(self).has_key,
            final(self).moves == 0,
            final(self).level == old(self).level,
            fresh_maze(final(self).maze),
    {
        proof {
            assert(size * size <= usize::MAX && 4 * size * size <= usize::MAX)
                by (nonlinear_arith)
                requires
                    2 <= size <= 1024,
            ;
        }
        let m = generate(size, &mut self.rng);
        let total = size * size;
        let mut v = fill_bools(total, false);
        let si = cell_index_of(size, m.start.0, m.start.1);
        v.set(si, true);
        proof {
            lemma_cell_index_bounds(size as int, m.start.0 as int, m.start.1 as int);
        }
        self.current = (m.start.0, m.start.1);
        self.maze = m;
        self.visited = v;
        self.has_key = false;
        self.moves = 0;
    }

    /// Replaces the maze by a freshly generated one of the same size
    /// and puts the player at its start with the key dropped; the level
    /// stays, the move counter clears.
    pub fn reset(&mut self)
        requires
            old(self).wf(),
        ensures
            final(self).wf(),
            final(self).maze.size == old(self).maze.size,
            fresh_maze(final(self).maze),
            final(self).level == old(self).level,
            final(self).moves == 0,
            !final(self).has_key,
            final(self).current == final(self).maze.start,
            only_start_visited(final(self).visited@, final(self).maze),
    {
        let size = self.maze.size;
        self.install_fresh_maze(size);
    }

    /// Drops the session back to the first level (grid side two) when
    /// it has advanced beyond it; on the first level nothing changes.
    pub fn reset_to_level_one(&mut self)
        requires
            old(self).wf(),
        ensures
            final(self).wf(),
            old(self).maze.size > 2 ==> {
                &&& final(self).maze.size == 2
                &&& fresh_maze(final(self).maze)
                &&& final(self).level == 1
                &&& final(self).moves == 0
                &&& !final(self).has_key
                &&& final(self).current == final(self).maze.start
                &&& only_start_visited(final(self).visited@, final(self).maze)
            },
            old(self).maze.size <= 2 ==> *final(self) == *old(self),
    {
        if self.maze.size > 2 {
            self.level = 1;
            self.install_fresh_maze(2);
        }
    }

    /// The open-passage part of a move: the wall check has passed and
    /// the target is not the locked door.  Steps, collects the key,
    /// completes the level on the unlocked door.
    #[verifier::rlimit(100)]
    fn step_open(&mut self, x: usize, y: usize) -> (r: MoveOutcome)
        requires
            old(self).wf(),
            in_grid(old(self).maze.size as int, x as int, y as int),
            adjacent(old(self).current.0 as int, old(self).current.1 as int, x as int, y as int),
            passage_open(
                old(self).maze.walls@,
                old(self).maze.size as int,
                old(self).current.0 as int,
                old(self).current.1 as int,
                x as int,
                y as int,
            ),
            !((x, y) == old(self).maze.door && !old(self).has_key),
        ensures
            final(self).wf(),
            r == (if (x, y) == old(self).maze.door {
                MoveOutcome::LevelComplete
            } else {
                MoveOutcome::Stepped
            }),
            r == MoveOutcome::Stepped ==> stepped_effect(*old(self), *final(self), x, y),
            r == MoveOutcome::LevelComplete ==> complete_effect(*old(self), *final(self)),
    {
        if self.moves < u64::MAX {
            self.moves = self.moves + 1;
        }
        self.current = (x, y);
        let ti = cell_index_of(self.maze.size, x, y);
        self.visited.set(ti, true);
        if x == self.maze.key.0 && y == self.maze.key.1 {
            self.has_key = true;
            let ghost w_before = self.maze.walls@;
            self.maze.unlock_door();
            proof {
                if old(self).has_key {
                    lemma_unlock_idempotent(
                        w_before,
                        self.maze.walls@,
                        self.maze.size as int,
                        self.maze.door.0 as int,
                        self.maze.door.1 as int,
                    );
                }
            }
        }
        if x == self.maze.door.0 && y == self.maze.door.1 {
            let newsize = if self.maze.size < SIZE_CAP {
                self.maze.size + 1
            } else {
                self.maze.size
            };
            if self.level < u64::MAX {
                self.level = self.level + 1;
            }
            self.install_fresh_maze(newsize);
            return MoveOutcome::LevelComplete;
        }
        proof {
            lemma_cell_index_bounds(
                self.maze.size as int,
                self.maze.start.0 as int,
                self.maze.start.1 as int,
            );
            if !self.has_key {
                assert(self.current != self.maze.door);
            }
        }
        MoveOutcome::Stepped
    }

    /// Validates and performs one proposed move to the grid cell
    /// `(x, y)`.
    ///
    /// A non-adjacent target, or the door before the key, is rejected
    /// with no change.  A standing wall bumps the player back to the
    /// start.  An open passage is stepped through; stepping onto the
    /// key unlocks every wall around the door, and stepping onto the
    /// door with the key completes the level: a fresh maze one size
    /// larger (up to the cap) is generated and the per-level state
    /// resets.
    #[verifier::rlimit(100)]
    pub fn try_move(&mut self, x: usize, y: usize) -> (r: MoveOutcome)
        requires
            old(self).wf(),
            in_grid(old(self).maze.size as int, x as int, y as int),
        ensures
            final(self).wf(),
            r == outcome_of(*old(self), x, y),
            ((x, y) == old(self).maze.door && !old(self).has_key) ==> r == MoveOutcome::Rejected,
            r == MoveOutcome::Rejected ==> *final(self) == *old(self),
            r == MoveOutcome::Blocked ==> blocked_effect(*old(self), *final(self)),
            r == MoveOutcome::Stepped ==> stepped_effect(*old(self), *final(self), x, y),
            r == MoveOutcome::LevelComplete ==> complete_effect(*old(self), *final(self)),
    {
        let cx = self.current.0;
        let cy = self.current.1;
        if !cells_adjacent(cx, cy, x, y) {
            return MoveOutcome::Rejected;
        }
        if x == self.maze.door.0 && y == self.maze.door.1 && !self.has_key {
            return MoveOutcome::Rejected;
        }
        let f = wall_index(self.maze.size, cx, cy, x, y);
        if self.maze.walls[f] {
            self.reset_position();
            return MoveOutcome::Blocked;
        }
        self.step_open(x, y)
    }
}

} // verus!
