//! Fixed starter layouts of the rotation puzzle's first levels.

use vstd::prelude::*;
use crate::tile::Tile;

verus! {

/// The hand-laid tiles of the small starter grids: a single east arrow
/// on the one-cell grid, and short two-tile paths on the two- and
/// three-cell grids.  Larger grids start with no fixed layout.
pub fn generate_initial_tiles(grid_size: usize) -> (r: Vec<Tile>)
    ensures
        grid_size == 1 ==> {
            &&& r@.len() == 1
            &&& r@[0].cells@ == seq![(0usize, 0usize)]
        },
        grid_size == 2 ==> {
            &&& r@.len() == 2
            &&& r@[0].cells@ == seq![(0usize, 0usize), (0usize, 1usize)]
            &&& r@[1].cells@ == seq![(1usize, 1usize)]
        },
        grid_size == 3 ==> {
            &&& r@.len() == 2
            &&& r@[0].cells@ == seq![(0usize, 1usize), (1usize, 1usize)]
            &&& r@[1].cells@ == seq![(2usize, 1usize)]
        },
        grid_size == 0 || grid_size > 3 ==> r@.len() == 0,
        forall|i: int| 0 <= i < r@.len() ==> (#[trigger] r@[i]).rotation == 0 && !r@[i].reversed,
{
    let mut tiles: Vec<Tile> = Vec::new();
    if grid_size == 1 {
        let mut c1: Vec<(usize, usize)> = Vec::new();
        c1.push((0, 0));
        proof {
            assert(c1@ =~= seq![(0usize, 0usize)]);
        }
        tiles.push(Tile { cells: c1, rotation: 0, reversed: false });
    } else if grid_size == 2 {
        let mut c1: Vec<(usize, usize)> = Vec::new();
        c1.push((0, 0));
        c1.push((0, 1));
        proof {
            assert(c1@ =~= seq![(0usize, 0usize), (0usize, 1usize)]);
        }
        tiles.push(Tile { cells: c1, rotation: 0, reversed: false });
        let mut c2: Vec<(usize, usize)> = Vec::new();
        c2.push((1, 1));
        proof {
            assert(c2@ =~= seq![(1usize, 1usize)]);
        }
        tiles.push(Tile { cells: c2, rotation: 0, reversed: false });
    } else if grid_size == 3 {
        let mut c1: Vec<(usize, usize)> = Vec::new();
        c1.push((0, 1));
        c1.push((1, 1));
        proof {
            assert(c1@ =~= seq![(0usize, 1usize), (1usize, 1usize)]);
        }
        tiles.push(Tile { cells: c1, rotation: 0, reversed: false });
        let mut c2: Vec<(usize, usize)> = Vec::new();
        c2.push((2, 1));
        proof {
            assert(c2@ =~= seq![(2usize, 1usize)]);
        }
        tiles.push(Tile { cells: c2, rotation: 0, reversed: false });
    }
    tiles
}

} // verus!
