//! The rotation-puzzle game state and its move logic.
//!
//! The player rotates and flips tiles until every tile on the solution
//! path points east.  A rotation is applied only when the turned tile
//! would stay on the grid without covering another tile's cell; an
//! invalid rotation is silently ignored, as the click handler expects.

use vstd::prelude::*;
use crate::level_generator::generate_level;
use crate::level_generator::level_layout;
use crate::rng::Rng;
use crate::rotation::clamp_cell;
use crate::rotation::min_x_of;
use crate::rotation::min_y_of;
use crate::rotation::rot_cell;
use crate::rotation::rotate_coordinates;
use crate::tile::effective_direction_spec;
use crate::tile::Direction;
use crate::tile::Tile;

verus! {

/// Whether the cell list holds the (unbounded) coordinate pair.
pub open spec fn cell_listed(cells: Seq<(usize, usize)>, px: int, py: int) -> bool {
    exists|k: int|
        0 <= k < cells.len() && ((#[trigger] cells[k]).0 as int) == px && (cells[k].1 as int) == py
}

/// A tile within bounds: a quarter-stop rotation and cells on the grid.
pub open spec fn tile_in_grid(t: Tile, grid_size: int) -> bool {
    &&& (t.rotation == 0 || t.rotation == 90 || t.rotation == 180 || t.rotation == 270)
    &&& forall|c: int|
        0 <= c < t.cells@.len() ==> ((#[trigger] t.cells@[c]).0 as int) < grid_size && (
        t.cells@[c].1 as int) < grid_size
}

/// One rotation-puzzle game.
pub struct MentalRotation {
    pub level: usize,
    pub tiles: Vec<Tile>,
    pub initial_tiles: Vec<Tile>,
    pub solution_path_tiles: Vec<usize>,
    pub grid_size: usize,
    pub start_pos: (usize, usize),
    pub end_pos: (usize, usize),
    pub moves: u64,
    pub time_remaining: u32,
}

impl MentalRotation {
    /// Well-formedness: a sane grid side and every tile on the grid.
    pub open spec fn wf(self) -> bool {
        &&& 1 <= self.grid_size <= 1000
        &&& forall|j: int|
            0 <= j < self.tiles@.len() ==> tile_in_grid(#[trigger] self.tiles@[j], self.grid_size as int)
    }

    /// The cell of tile `idx` at position `c`, turned a quarter
    /// clockwise around the tile's bounding-box corner.
    pub open spec fn turned_cell(self, idx: int, c: int) -> (int, int) {
        let t = self.tiles@[idx];
        clamp_cell(
            rot_cell(
                1,
                min_x_of(t.cells@),
                min_y_of(t.cells@),
                t.cells@[c].0 as int,
                t.cells@[c].1 as int,
            ),
        )
    }

    /// Whether turning tile `idx` keeps every one of its cells on the
    /// grid and off every other tile.
    pub open spec fn valid_rotation_spec(self, idx: int) -> bool {
        &&& 0 <= idx < self.tiles@.len()
        &&& forall|c: int|
            0 <= c < self.tiles@[idx].cells@.len() ==> {
                let rc = #[trigger] self.turned_cell(idx, c);
                &&& rc.0 < self.grid_size
                &&& rc.1 < self.grid_size
                &&& forall|o: int|
                    0 <= o < self.tiles@.len() && o != idx ==> !cell_listed(
                        (#[trigger] self.tiles@[o]).cells@,
                        rc.0,
                        rc.1,
                    )
            }
    }

    /// Whether the puzzle is solved: every solution-path tile exists
    /// and effectively points east.
    pub open spec fn win_spec(self) -> bool {
        forall|j: int|
            0 <= j < self.solution_path_tiles@.len() ==> {
                let t = (#[trigger] self.solution_path_tiles@[j]) as int;
                &&& t < self.tiles@.len()
                &&& effective_direction_spec(
                    self.tiles@[t].rotation as int,
                    self.tiles@[t].reversed,
                ) == Direction::East
            }
    }

    /// A fresh game for the given level: the grid side equals the
    /// level, the generated tiles double as the initial layout, and the
    /// counters start cleared with three minutes on the clock.
    pub fn new(level: usize, rng: &mut Rng) -> (r: MentalRotation)
        requires
            1 <= level <= 1000,
        ensures
            r.wf(),
            r.level == level,
            r.grid_size == level,
            level_layout(r.tiles@, r.solution_path_tiles@, r.start_pos, r.end_pos, r.level as int),
            r.moves == 0,
            r.time_remaining == 180,
            r.initial_tiles@.len() == r.tiles@.len(),
            forall|j: int|
                0 <= j < r.tiles@.len() ==> (#[trigger] r.initial_tiles@[j]).cells@
                    == r.tiles@[j].cells@ && r.initial_tiles@[j].rotation == r.tiles@[j].rotation
                    && r.initial_tiles@[j].reversed == r.tiles@[j].reversed,
    {
        let pieces = generate_level(level, rng);
        let tiles = pieces.0;
        let solution_path_tiles = pieces.1;
        let start_pos = pieces.2;
        let end_pos = pieces.3;
        let mut initial_tiles: Vec<Tile> = Vec::new();
        let mut i: usize = 0;
        while i < tiles.len()
            invariant
                i <= tiles@.len(),
                initial_tiles@.len() == i,
                forall|j: int|
                    0 <= j < i ==> (#[trigger] initial_tiles@[j]).cells@ == tiles@[j].cells@
                        && initial_tiles@[j].rotation == tiles@[j].rotation
                        && initial_tiles@[j].reversed == tiles@[j].reversed,
            decreases tiles@.len() - i,
        {
            let t = &tiles[i];
            initial_tiles.push(Tile { cells: copy_cells(&t.cells), rotation: t.rotation, reversed: t.reversed });
            i = i + 1;
        }
        MentalRotation {
            level,
            tiles,
            initial_tiles,
            solution_path_tiles,
            grid_size: level,
            start_pos,
            end_pos,
            moves: 0,
            time_remaining: 180,
        }
    }

    /// The grid side of this game.
    pub fn grid_size(&self) -> (r: usize)
        ensures
            r == self.grid_size,
    {
        self.grid_size
    }

    /// Whether turning the given tile would keep it on the grid and
    /// clear of every other tile.
    #[verifier::rlimit(100)]
    pub fn is_valid_rotation(&self, tile_idx: usize) -> (r: bool)
        requires
            self.wf(),
        ensures
            r == self.valid_rotation_spec(tile_idx as int),
    {
        if tile_idx >= self.tiles.len() {
            return false;
        }
        let rc = rotate_coordinates(&self.tiles[tile_idx].cells, 90);
        let n = rc.len();
        let mut c: usize = 0;
        while c < n
            invariant
                self.wf(),
                (tile_idx as int) < self.tiles@.len(),
                c <= n,
                n == rc@.len(),
                n == self.tiles@[tile_idx as int].cells@.len(),
                forall|i: int|
                    0 <= i < n ==> ((#[trigger] rc@[i]).0 as int, rc@[i].1 as int)
                        == self.turned_cell(tile_idx as int, i),
                forall|i: int|
                    0 <= i < c ==> (#[trigger] self.turned_cell(tile_idx as int, i)).0
                        < self.grid_size && self.turned_cell(tile_idx as int, i).1
                        < self.grid_size,
            decreases n - c,
        {
            let cell = rc[c];
            if cell.0 >= self.grid_size || cell.1 >= self.grid_size {
                proof {
                    assert(!(self.turned_cell(tile_idx as int, c as int).0 < self.grid_size
                        && self.turned_cell(tile_idx as int, c as int).1 < self.grid_size));
                }
                return false;
            }
            c = c + 1;
        }
        let mut o: usize = 0;
        while o < self.tiles.len()
            invariant
                self.wf(),
                (tile_idx as int) < self.tiles@.len(),
                o <= self.tiles@.len(),
                n == rc@.len(),
                n == self.tiles@[tile_idx as int].cells@.len(),
                forall|i: int|
                    0 <= i < n ==> ((#[trigger] rc@[i]).0 as int, rc@[i].1 as int)
                        == self.turned_cell(tile_idx as int, i),
                forall|i: int|
                    0 <= i < n ==> (#[trigger] self.turned_cell(tile_idx as int, i)).0
                        < self.grid_size && self.turned_cell(tile_idx as int, i).1
                        < self.grid_size,
                forall|o2: int, i: int|
                    0 <= o2 < o && o2 != tile_idx as int && 0 <= i < n ==> !cell_listed(
                        (#[trigger] self.tiles@[o2]).cells@,
                        (#[trigger] self.turned_cell(tile_idx as int, i)).0,
                        self.turned_cell(tile_idx as int, i).1,
                    ),
            decreases self.tiles@.len() - o,
        {
            if o != tile_idx {
                let mut i: usize = 0;
                while i < n
                    invariant
                        self.wf(),
                        (tile_idx as int) < self.tiles@.len(),
                        (o as int) < self.tiles@.len(),
                        o != tile_idx,
                        i <= n,
                        n == rc@.len(),
                        n == self.tiles@[tile_idx as int].cells@.len(),
                        forall|k: int|
                            0 <= k < n ==> ((#[trigger] rc@[k]).0 as int, rc@[k].1 as int)
                                == self.turned_cell(tile_idx as int, k),
                        forall|k: int|
                            0 <= k < i ==> !cell_listed(
                                self.tiles@[o as int].cells@,
                                (#[trigger] self.turned_cell(tile_idx as int, k)).0,
                                self.turned_cell(tile_idx as int, k).1,
                            ),
                    decreases n - i,
                {
                    let cell = rc[i];
                    if tile_holds_cell(&self.tiles[o], cell.0, cell.1) {
                        proof {
                            assert(cell_listed(
                                self.tiles@[o as int].cells@,
                                self.turned_cell(tile_idx as int, i as int).0,
                                self.turned_cell(tile_idx as int, i as int).1,
                            ));
                        }
                        return false;
                    }
                    i = i + 1;
                }
            }
            o = o + 1;
        }
        true
    }

    /// Turns the tile a quarter clockwise when that is valid; an
    /// invalid turn changes nothing.
    pub fn rotate_tile(&mut self, tile_idx: usize)
        requires
            old(self).wf(),
        ensures
            final(self).wf(),
            final(self).level == old(self).level,
            final(self).grid_size == old(self).grid_size,
            final(self).start_pos == old(self).start_pos,
            final(self).end_pos == old(self).end_pos,
            final(self).moves == old(self).moves,
            final(self).time_remaining == old(self).time_remaining,
            final(self).solution_path_tiles@ == old(self).solution_path_tiles@,
            final(self).initial_tiles@ == old(self).initial_tiles@,
            old(self).valid_rotation_spec(tile_idx as int) ==> {
                &&& final(self).tiles@.len() == old(self).tiles@.len()
                &&& final(self).tiles@[tile_idx as int].cells@ == old(self).tiles@[tile_idx as int].cells@
                &&& final(self).tiles@[tile_idx as int].rotation == (old(
                    self,
                ).tiles@[tile_idx as int].rotation + 90) % 360
                &&& final(self).tiles@[tile_idx as int].reversed == old(
                    self,
                ).tiles@[tile_idx as int].reversed
                &&& forall|j: int|
                    0 <= j < final(self).tiles@.len() && j != tile_idx as int
                        ==> final(self).tiles@[j] == old(self).tiles@[j]
            },
            !old(self).valid_rotation_spec(tile_idx as int) ==> *final(self) == *old(self),
    {
        if self.is_valid_rotation(tile_idx) {
            let mut t = self.tiles.remove(tile_idx);
            t.rotate();
            self.tiles.insert(tile_idx, t);
            proof {
                assert(self.tiles@[tile_idx as int].cells@ == old(
                    self,
                ).tiles@[tile_idx as int].cells@);
                assert forall|j: int|
                    0 <= j < self.tiles@.len() && j != tile_idx as int implies self.tiles@[j]
                    == old(self).tiles@[j] by {};
                assert forall|j: int|
                    0 <= j < self.tiles@.len() implies tile_in_grid(
                    #[trigger] self.tiles@[j],
                    self.grid_size as int,
                ) by {
                    if j != tile_idx as int {
                        assert(self.tiles@[j] == old(self).tiles@[j]);
                    }
                };
            }
        }
    }

    /// Flips the tile's arrow; out-of-range indices change nothing.
    pub fn reverse_tile(&mut self, tile_idx: usize)
        requires
            old(self).wf(),
        ensures
            final(self).wf(),
            final(self).level == old(self).level,
            final(self).grid_size == old(self).grid_size,
            final(self).start_pos == old(self).start_pos,
            final(self).end_pos == old(self).end_pos,
            final(self).moves == old(self).moves,
            final(self).time_remaining == old(self).time_remaining,
            final(self).solution_path_tiles@ == old(self).solution_path_tiles@,
            final(self).initial_tiles@ == old(self).initial_tiles@,
            (tile_idx as int) < old(self).tiles@.len() ==> {
                &&& final(self).tiles@.len() == old(self).tiles@.len()
                &&& final(self).tiles@[tile_idx as int].cells@ == old(self).tiles@[tile_idx as int].cells@
                &&& final(self).tiles@[tile_idx as int].rotation == old(
                    self,
                ).tiles@[tile_idx as int].rotation
                &&& final(self).tiles@[tile_idx as int].reversed == !old(
                    self,
                ).tiles@[tile_idx as int].reversed
                &&& forall|j: int|
                    0 <= j < final(self).tiles@.len() && j != tile_idx as int
                        ==> final(self).tiles@[j] == old(self).tiles@[j]
            },
            (tile_idx as int) >= old(self).tiles@.len() ==> *final(self) == *old(self),
    {
        if tile_idx < self.tiles.len() {
            let mut t = self.tiles.remove(tile_idx);
            t.reverse();
            self.tiles.insert(tile_idx, t);
            proof {
                assert forall|j: int|
                    0 <= j < self.tiles@.len() implies tile_in_grid(
                    #[trigger] self.tiles@[j],
                    self.grid_size as int,
                ) by {
                    if j != tile_idx as int {
                        assert(self.tiles@[j] == old(self).tiles@[j]);
                    }
                };
            }
        }
    }

    /// Whether every solution-path tile effectively points east.
    pub fn check_win(&self) -> (r: bool)
        ensures
            r == self.win_spec(),
    {
        let mut j: usize = 0;
        while j < self.solution_path_tiles.len()
            invariant
                j <= self.solution_path_tiles@.len(),
                forall|k: int|
                    0 <= k < j ==> {
                        let t = (#[trigger] self.solution_path_tiles@[k]) as int;
                        &&& t < self.tiles@.len()
                        &&& effective_direction_spec(
                            self.tiles@[t].rotation as int,
                            self.tiles@[t].reversed,
                        ) == Direction::East
                    },
            decreases self.solution_path_tiles@.len() - j,
        {
            let t = self.solution_path_tiles[j];
            if t >= self.tiles.len() {
                return false;
            }
            if !matches!(self.tiles[t].get_effective_direction(), Direction::East) {
                return false;
            }
            j = j + 1;
        }
        true
    }

    /// Handles one click on a tile: the primary button (zero) turns
    /// it (when the turn is valid), the secondary button (two) flips
    /// it, any other button leaves the tiles alone; every click counts
    /// as a move.  Returns whether the puzzle is solved afterward.
    pub fn handle_click(&mut self, button: i16, tile_idx: usize) -> (r: bool)
        requires
            old(self).wf(),
        ensures
            final(self).wf(),
            final(self).moves == crate::session::bump(old(self).moves),
            r == final(self).win_spec(),
            final(self).level == old(self).level,
            final(self).grid_size == old(self).grid_size,
            final(self).start_pos == old(self).start_pos,
            final(self).end_pos == old(self).end_pos,
            final(self).time_remaining == old(self).time_remaining,
            final(self).solution_path_tiles@ == old(self).solution_path_tiles@,
            final(self).initial_tiles@ == old(self).initial_tiles@,
            button == 0 && old(self).valid_rotation_spec(tile_idx as int) ==> {
                &&& final(self).tiles@.len() == old(self).tiles@.len()
                &&& final(self).tiles@[tile_idx as int].cells@ == old(self).tiles@[tile_idx as int].cells@
                &&& final(self).tiles@[tile_idx as int].rotation == (old(
                    self,
                ).tiles@[tile_idx as int].rotation + 90) % 360
                &&& final(self).tiles@[tile_idx as int].reversed == old(
                    self,
                ).tiles@[tile_idx as int].reversed
                &&& forall|j: int|
                    0 <= j < final(self).tiles@.len() && j != tile_idx as int
                        ==> final(self).tiles@[j] == old(self).tiles@[j]
            },
            button == 0 && !old(self).valid_rotation_spec(tile_idx as int) ==> final(self).tiles@
                == old(self).tiles@,
            button == 2 && (tile_idx as int) < old(self).tiles@.len() ==> {
                &&& final(self).tiles@.len() == old(self).tiles@.len()
                &&& final(self).tiles@[tile_idx as int].cells@ == old(self).tiles@[tile_idx as int].cells@
                &&& final(self).tiles@[tile_idx as int].rotation == old(
                    self,
                ).tiles@[tile_idx as int].rotation
                &&& final(self).tiles@[tile_idx as int].reversed == !old(
                    self,
                ).tiles@[tile_idx as int].reversed
                &&& forall|j: int|
                    0 <= j < final(self).tiles@.len() && j != tile_idx as int
                        ==> final(self).tiles@[j] == old(self).tiles@[j]
            },
            button == 2 && (tile_idx as int) >= old(self).tiles@.len() ==> final(self).tiles@
                == old(self).tiles@,
            button != 0 && button != 2 ==> final(self).tiles@ == old(self).tiles@,
    {
        if button == 0 {
            self.rotate_tile(tile_idx);
        } else if button == 2 {
            self.reverse_tile(tile_idx);
        }
        if self.moves < u64::MAX {
            self.moves = self.moves + 1;
        }
        self.check_win()
    }
}

/// Whether the tile covers the given cell.
fn tile_holds_cell(t: &Tile, x: usize, y: usize) -> (r: bool)
    ensures
        r == cell_listed(t.cells@, x as int, y as int),
{
    let mut k: usize = 0;
    while k < t.cells.len()
        invariant
            k <= t.cells@.len(),
            forall|i: int|
                0 <= i < k ==> !(((#[trigger] t.cells@[i]).0 as int) == x as int && (
                t.cells@[i].1 as int) == y as int),
        decreases t.cells@.len() - k,
    {
        let c = t.cells[k];
        if c.0 == x && c.1 == y {
            proof {
                assert(((t.cells@[k as int]).0 as int) == x as int && (t.cells@[k as int].1 as int)
                    == y as int);
            }
            return true;
        }
        k = k + 1;
    }
    false
}

/// A copy of a cell list.
fn copy_cells(v: &Vec<(usize, usize)>) -> (r: Vec<(usize, usize)>)
    ensures
        r@ == v@,
{
    let mut r: Vec<(usize, usize)> = Vec::new();
    let mut i: usize = 0;
    while i < v.len()
        invariant
            i <= v@.len(),
            r@ == v@.subrange(0, i as int),
        decreases v@.len() - i,
    {
        r.push(v[i]);
        proof {
            assert(r@ =~= v@.subrange(0, i as int + 1));
        }
        i = i + 1;
    }
    proof {
        assert(v@.subrange(0, v@.len() as int) =~= v@);
    }
    r
}

} // verus!
