//! Rotating sets of grid cells by quarter turns.
//!
//! A tile's cells rotate clockwise around the top-left corner of their
//! bounding box.  Coordinates are unsigned, so a rotation that would
//! leave the nonnegative quadrant yields a sentinel far outside any
//! grid, which bounds checks then refuse.

use vstd::prelude::*;
use crate::tile::Tile;

verus! {

/// The largest coordinate the rotation helpers accept; keeps every
/// intermediate sum within `usize` on all machines.
pub const COORD_CAP: usize = 0x4000_0000;

/// The number of clockwise quarter turns of a rotation in degrees.
pub open spec fn quarter_turns(rotation: int) -> int {
    (rotation / 90) % 4
}

/// The least x coordinate among the cells, zero when there are none.
pub open spec fn min_x_of(s: Seq<(usize, usize)>) -> int
    decreases s.len(),
{
    if s.len() == 0 {
        0
    } else if s.len() == 1 {
        s[0].0 as int
    } else {
        let m = min_x_of(s.drop_last());
        if (s.last().0 as int) < m {
            s.last().0 as int
        } else {
            m
        }
    }
}

/// The least y coordinate among the cells, zero when there are none.
pub open spec fn min_y_of(s: Seq<(usize, usize)>) -> int
    decreases s.len(),
{
    if s.len() == 0 {
        0
    } else if s.len() == 1 {
        s[0].1 as int
    } else {
        let m = min_y_of(s.drop_last());
        if (s.last().1 as int) < m {
            s.last().1 as int
        } else {
            m
        }
    }
}

/// A cell rotated clockwise by `steps` quarter turns around the anchor
/// `(mx, my)`, in unbounded integers.
pub open spec fn rot_cell(steps: int, mx: int, my: int, x: int, y: int) -> (int, int) {
    let dx = x - mx;
    let dy = y - my;
    if steps == 1 {
        (mx + dy, my - dx)
    } else if steps == 2 {
        (mx - dx, my - dy)
    } else if steps == 3 {
        (mx - dy, my + dx)
    } else {
        (x, y)
    }
}

/// Encodes a rotated cell as unsigned coordinates: a cell that left the
/// nonnegative quadrant becomes the sentinel that no grid bound admits.
pub open spec fn clamp_cell(p: (int, int)) -> (int, int) {
    if p.0 < 0 || p.1 < 0 {
        (usize::MAX as int, usize::MAX as int)
    } else {
        p
    }
}

/// The minima really are lower bounds of every cell.
proof fn lemma_min_bounds(s: Seq<(usize, usize)>, i: int)
    requires
        0 <= i < s.len(),
    ensures
        min_x_of(s) <= s[i].0 as int,
        min_y_of(s) <= s[i].1 as int,
    decreases s.len(),
{
    if s.len() > 1 {
        if i < s.len() - 1 {
            lemma_min_bounds(s.drop_last(), i);
        }
    }
}

/// Rotates cell coordinates clockwise by a whole number of quarter
/// turns around the top-left corner of their bounding box.
#[verifier::loop_isolation(false)]
#[verifier::rlimit(60)]
pub fn rotate_coordinates(cells: &Vec<(usize, usize)>, rotation: i32) -> (r: Vec<(usize, usize)>)
    requires
        rotation >= 0,
        rotation % 90 == 0,
        forall|i: int|
            0 <= i < cells@.len() ==> (#[trigger] cells@[i]).0 < COORD_CAP && cells@[i].1
                < COORD_CAP,
    ensures
        r@.len() == cells@.len(),
        forall|i: int|
            0 <= i < cells@.len() ==> ((#[trigger] r@[i]).0 as int, r@[i].1 as int) == clamp_cell(
                rot_cell(
                    quarter_turns(rotation as int),
                    min_x_of(cells@),
                    min_y_of(cells@),
                    cells@[i].0 as int,
                    cells@[i].1 as int,
                ),
            ),
{
    let n = cells.len();
    if n == 0 {
        let r: Vec<(usize, usize)> = Vec::new();
        return r;
    }
    let mut mx: usize = cells[0].0;
    let mut my: usize = cells[0].1;
    let mut i: usize = 1;
    while i < n
        invariant
            1 <= i <= n,
            mx == min_x_of(cells@.subrange(0, i as int)),
            my == min_y_of(cells@.subrange(0, i as int)),
        decreases n - i,
    {
        proof {
            assert(cells@.subrange(0, i as int + 1).drop_last() =~= cells@.subrange(0, i as int));
        }
        let c = cells[i];
        if c.0 < mx {
            mx = c.0;
        }
        if c.1 < my {
            my = c.1;
        }
        i = i + 1;
    }
    proof {
        assert(cells@.subrange(0, n as int) =~= cells@);
    }
    let steps = ((rotation / 90) % 4) as u32;
    let mut r: Vec<(usize, usize)> = Vec::new();
    let mut k: usize = 0;
    while k < n
        invariant
            k <= n,
            r@.len() == k,
            mx == min_x_of(cells@),
            my == min_y_of(cells@),
            steps == quarter_turns(rotation as int),
            forall|j: int|
                0 <= j < k ==> ((#[trigger] r@[j]).0 as int, r@[j].1 as int) == clamp_cell(
                    rot_cell(
                        quarter_turns(rotation as int),
                        min_x_of(cells@),
                        min_y_of(cells@),
                        cells@[j].0 as int,
                        cells@[j].1 as int,
                    ),
                ),
        decreases n - k,
    {
        let c = cells[k];
        proof {
            lemma_min_bounds(cells@, k as int);
        }
        let dx = c.0 - mx;
        let dy = c.1 - my;
        let cell = if steps == 1 {
            let nx = mx + dy;
            if dx <= my {
                (nx, my - dx)
            } else {
                (usize::MAX, usize::MAX)
            }
        } else if steps == 2 {
            if dx <= mx && dy <= my {
                (mx - dx, my - dy)
            } else {
                (usize::MAX, usize::MAX)
            }
        } else if steps == 3 {
            let ny = my + dx;
            if dy <= mx {
                (mx - dy, ny)
            } else {
                (usize::MAX, usize::MAX)
            }
        } else {
            (c.0, c.1)
        };
        r.push(cell);
        k = k + 1;
    }
    r
}

/// The next quarter turn of a tile's cells, or nothing for a tile with
/// no cells.
pub fn rotate_coordinates_for_tile(tile: &Tile) -> (r: Option<Vec<(usize, usize)>>)
    requires
        forall|i: int|
            0 <= i < tile.cells@.len() ==> (#[trigger] tile.cells@[i]).0 < COORD_CAP
                && tile.cells@[i].1 < COORD_CAP,
    ensures
        tile.cells@.len() == 0 <==> r is None,
        r is Some ==> {
            let q = r->Some_0;
            &&& q@.len() == tile.cells@.len()
            &&& forall|i: int|
                0 <= i < tile.cells@.len() ==> ((#[trigger] q@[i]).0 as int, q@[i].1 as int)
                    == clamp_cell(
                    rot_cell(
                        1,
                        min_x_of(tile.cells@),
                        min_y_of(tile.cells@),
                        tile.cells@[i].0 as int,
                        tile.cells@[i].1 as int,
                    ),
                )
        },
{
    if tile.cells.len() == 0 {
        return Option::None;
    }
    Option::Some(rotate_coordinates(&tile.cells, 90))
}

} // verus!
