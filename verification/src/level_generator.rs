//! Level generation for the rotation puzzle.
//!
//! A level is a west-to-east path of cells across the grid, cut into
//! small polyomino tiles, plus a few distractor tiles off the path.
//! Tile rotations and reversals are then scrambled so that every tile
//! on the solution path needs at least one manipulation.

use vstd::prelude::*;
use crate::rng::Rng;
use crate::tile::effective_direction_spec;
use crate::tile::Direction;
use crate::tile::Tile;

verus! {

/// The cells of a run of tiles, concatenated in order.
pub open spec fn tiles_cells(ts: Seq<Tile>) -> Seq<(usize, usize)>
    decreases ts.len(),
{
    if ts.len() == 0 {
        Seq::empty()
    } else {
        tiles_cells(ts.drop_last()) + ts.last().cells@
    }
}

/// Runs of tiles with equal cell lists have equal concatenations.
proof fn lemma_tiles_cells_congruent(a: Seq<Tile>, b: Seq<Tile>)
    requires
        a.len() == b.len(),
        forall|j: int| 0 <= j < a.len() ==> (#[trigger] a[j]).cells@ == b[j].cells@,
    ensures
        tiles_cells(a) == tiles_cells(b),
    decreases a.len(),
{
    if a.len() > 0 {
        assert(forall|j: int|
            0 <= j < a.drop_last().len() ==> (#[trigger] a.drop_last()[j]).cells@
                == b.drop_last()[j].cells@);
        lemma_tiles_cells_congruent(a.drop_last(), b.drop_last());
        assert(a.last().cells@ == b.last().cells@);
    } else {
        assert(tiles_cells(a) =~= tiles_cells(b));
    }
}

/// Whether a vector of cells holds the given cell.
fn contains_cell(v: &Vec<(usize, usize)>, x: usize, y: usize) -> (r: bool)
    ensures
        r == v@.contains((x, y)),
{
    let mut i: usize = 0;
    while i < v.len()
        invariant
            i <= v@.len(),
            forall|j: int| 0 <= j < i ==> (#[trigger] v@[j]) != (x, y),
        decreases v@.len() - i,
    {
        let c = v[i];
        if c.0 == x && c.1 == y {
            proof {
                assert(v@[i as int] == (x, y));
            }
            return true;
        }
        i = i + 1;
    }
    proof {
        if v@.contains((x, y)) {
            let j = choose|j: int| 0 <= j < v@.len() && v@[j] == (x, y);
            assert(v@[j] != (x, y));
        }
    }
    false
}

/// Whether a vector of indices holds the given index.
fn contains_index(v: &Vec<usize>, x: usize) -> (r: bool)
    ensures
        r == v@.contains(x),
{
    let mut i: usize = 0;
    while i < v.len()
        invariant
            i <= v@.len(),
            forall|j: int| 0 <= j < i ==> (#[trigger] v@[j]) != x,
        decreases v@.len() - i,
    {
        if v[i] == x {
            proof {
                assert(v@[i as int] == x);
            }
            return true;
        }
        i = i + 1;
    }
    proof {
        if v@.contains(x) {
            let j = choose|j: int| 0 <= j < v@.len() && v@[j] == x;
            assert(v@[j] != x);
        }
    }
    false
}

/// A draw from the quarter stops: 0, 90, 180 or 270 degrees.
pub fn random_rotation(rng: &mut Rng) -> (r: i32)
    ensures
        r == 0 || r == 90 || r == 180 || r == 270,
{
    let d = rng.next_below(4);
    if d == 0 {
        0
    } else if d == 1 {
        90
    } else if d == 2 {
        180
    } else {
        270
    }
}

/// A west-to-east path across the grid from the start column to the end
/// column, drifting toward the end row now and then.
#[verifier::loop_isolation(false)]
pub fn generate_path(
    start: (usize, usize),
    end: (usize, usize),
    grid_size: usize,
    rng: &mut Rng,
) -> (p: Vec<(usize, usize)>)
    requires
        1 <= grid_size <= 1000,
        start.0 == 0,
        start.1 < grid_size,
        end.0 == grid_size - 1,
        end.1 < grid_size,
    ensures
        p@.len() == grid_size,
        p@[0] == start,
        forall|i: int|
            0 <= i < p@.len() ==> (#[trigger] p@[i]).0 == i && p@[i].1 < grid_size,
        forall|i: int|
            0 <= i < p@.len() - 1 ==> ((#[trigger] p@[i + 1]).1 as int) <= (p@[i].1 as int) + 1
                && ((p@[i]).1 as int) <= ((p@[i + 1]).1 as int) + 1,
{
    let mut path: Vec<(usize, usize)> = Vec::new();
    path.push(start);
    let mut cur_x = start.0;
    let mut cur_y = start.1;
    while cur_x < end.0
        invariant
            cur_x <= end.0,
            cur_y < grid_size,
            path@.len() == cur_x + 1,
            path@[0] == start,
            path@[path@.len() - 1] == (cur_x, cur_y),
            forall|i: int|
                0 <= i < path@.len() ==> (#[trigger] path@[i]).0 == i && path@[i].1 < grid_size,
            forall|i: int|
                0 <= i < path@.len() - 1 ==> ((#[trigger] path@[i + 1]).1 as int) <= (
                path@[i].1 as int) + 1 && ((path@[i]).1 as int) <= ((path@[i + 1]).1 as int) + 1,
        decreases end.0 - cur_x,
    {
        let next_x = cur_x + 1;
        let mut next_y = cur_y;
        if cur_x > start.0 && cur_x < end.0 - 1 {
            if rng.next_below(10) < 3 {
                if next_y < end.1 {
                    next_y = next_y + 1;
                } else if next_y > end.1 {
                    next_y = next_y - 1;
                }
            }
        }
        if next_y > grid_size - 1 {
            next_y = grid_size - 1;
        }
        path.push((next_x, next_y));
        cur_x = next_x;
        cur_y = next_y;
    }
    path
}

/// Cuts the path into tiles of one to three cells, keeping the cells in
/// path order, and appends a few distractor tiles off the path.
/// Returns the tiles and the indices of the solution-path tiles, which
/// are exactly the leading tiles.
#[verifier::loop_isolation(false)]
#[verifier::rlimit(100)]
pub fn generate_tiles_from_path(
    path: Vec<(usize, usize)>,
    grid_size: usize,
    rng: &mut Rng,
) -> (r: (Vec<Tile>, Vec<usize>))
    requires
        1 <= grid_size <= 1000,
        forall|i: int|
            0 <= i < path@.len() ==> (#[trigger] path@[i]).0 < grid_size && path@[i].1 < grid_size,
    ensures
        r.1@.len() <= r.0@.len(),
        forall|j: int, c: int|
            #![trigger r.0@[j].cells@[c]]
            0 <= j < r.0@.len() && 0 <= c < r.0@[j].cells@.len() ==> r.0@[j].cells@[c].0
                < grid_size && r.0@[j].cells@[c].1 < grid_size,
        forall|j: int| 0 <= j < r.1@.len() ==> (#[trigger] r.1@[j]) as int == j,
        tiles_cells(r.0@.subrange(0, r.1@.len() as int)) == path@,
        forall|j: int|
            0 <= j < r.1@.len() ==> 1 <= (#[trigger] r.0@[j]).cells@.len() <= 3 && r.0@[j].rotation
                == 0 && !r.0@[j].reversed,
        forall|j: int|
            r.1@.len() <= j < r.0@.len() ==> {
                &&& 1 <= (#[trigger] r.0@[j]).cells@.len() <= 2
                &&& r.0@[j].rotation == 0
                &&& !r.0@[j].reversed
                &&& forall|c: int|
                    0 <= c < r.0@[j].cells@.len() ==> (#[trigger] r.0@[j].cells@[c]).0 < grid_size
                        && r.0@[j].cells@[c].1 < grid_size && !path@.contains(r.0@[j].cells@[c])
            },
        forall|j1: int, c1: int, j2: int, c2: int|
            #![trigger r.0@[j1].cells@[c1], r.0@[j2].cells@[c2]]
            r.1@.len() <= j1 < r.0@.len() && r.1@.len() <= j2 < r.0@.len() && 0 <= c1
                < r.0@[j1].cells@.len() && 0 <= c2 < r.0@[j2].cells@.len() && (j1 != j2 || c1
                != c2) ==> r.0@[j1].cells@[c1] != r.0@[j2].cells@[c2],
{
    let mut tiles: Vec<Tile> = Vec::new();
    let mut sol: Vec<usize> = Vec::new();
    let mut pos: usize = 0;
    while pos < path.len()
        invariant
            pos <= path@.len(),
            tiles_cells(tiles@) == path@.subrange(0, pos as int),
            sol@.len() == tiles@.len(),
            forall|j: int| 0 <= j < sol@.len() ==> (#[trigger] sol@[j]) as int == j,
            forall|j: int|
                0 <= j < tiles@.len() ==> 1 <= (#[trigger] tiles@[j]).cells@.len() <= 3
                    && tiles@[j].rotation == 0 && !tiles@[j].reversed,
            forall|j: int, c: int|
                #![trigger tiles@[j].cells@[c]]
                0 <= j < tiles@.len() && 0 <= c < tiles@[j].cells@.len() ==> tiles@[j].cells@[c].0
                    < grid_size && tiles@[j].cells@[c].1 < grid_size,
        decreases path@.len() - pos,
    {
        let remaining = path.len() - pos;
        let tile_size: usize = if remaining >= 3 {
            let d = rng.next_below(3);
            if d == 0 {
                1
            } else if d == 1 {
                2
            } else {
                3
            }
        } else if remaining == 2 {
            rng.next_below(2) + 1
        } else {
            1
        };
        let mut tc: Vec<(usize, usize)> = Vec::new();
        let mut t: usize = 0;
        while t < tile_size
            invariant
                t <= tile_size,
                tile_size <= remaining,
                remaining == path@.len() - pos,
                tc@ == path@.subrange(pos as int, pos as int + t),
            decreases tile_size - t,
        {
            tc.push(path[pos + t]);
            proof {
                assert(tc@ =~= path@.subrange(pos as int, pos as int + t + 1));
            }
            t = t + 1;
        }
        let ghost tiles0 = tiles@;
        sol.push(tiles.len());
        tiles.push(Tile { cells: tc, rotation: 0, reversed: false });
        pos = pos + tile_size;
        proof {
            assert(tiles@.drop_last() =~= tiles0);
            assert(tiles_cells(tiles@) == tiles_cells(tiles0) + tiles@.last().cells@);
            assert(tiles_cells(tiles@) =~= path@.subrange(0, pos as int));
        }
    }
    proof {
        assert(path@.subrange(0, path@.len() as int) =~= path@);
        assert(tiles@.subrange(0, tiles@.len() as int) =~= tiles@);
    }
    let ghost k = sol@.len();
    let ghost before = tiles@;
    add_distractor_tiles(&mut tiles, &path, grid_size, rng);
    proof {
        assert(tiles@.subrange(0, k as int) =~= before);
    }
    (tiles, sol)
}

/// Grown cell lists keep what they held.
proof fn lemma_contains_grow(pre: Seq<(usize, usize)>, post: Seq<(usize, usize)>)
    requires
        pre.len() <= post.len(),
        forall|k: int| 0 <= k < pre.len() ==> post[k] == pre[k],
    ensures
        forall|c: (usize, usize)| #[trigger] pre.contains(c) ==> post.contains(c),
{
    assert forall|c: (usize, usize)| #[trigger] pre.contains(c) implies post.contains(c) by {
        let k = choose|k: int| 0 <= k < pre.len() && pre[k] == c;
        assert(post[k] == c);
    };
}

/// Appends up to `grid_size / 2` (at least one) small distractor tiles
/// on cells that lie neither on the path nor on any cell already taken
/// by another distractor; the appended tiles are pairwise disjoint.
#[verifier::loop_isolation(false)]
#[verifier::rlimit(100)]
pub fn add_distractor_tiles(
    tiles: &mut Vec<Tile>,
    path: &Vec<(usize, usize)>,
    grid_size: usize,
    rng: &mut Rng,
)
    requires
        1 <= grid_size <= 1000,
    ensures
        final(tiles)@.len() >= old(tiles)@.len(),
        forall|j: int| 0 <= j < old(tiles)@.len() ==> final(tiles)@[j] == old(tiles)@[j],
        forall|j: int|
            old(tiles)@.len() <= j < final(tiles)@.len() ==> {
                &&& 1 <= (#[trigger] final(tiles)@[j]).cells@.len() <= 2
                &&& final(tiles)@[j].rotation == 0
                &&& !final(tiles)@[j].reversed
                &&& forall|c: int|
                    0 <= c < final(tiles)@[j].cells@.len()
                        ==> (#[trigger] final(tiles)@[j].cells@[c]).0 < grid_size
                        && final(tiles)@[j].cells@[c].1 < grid_size
                        && !path@.contains(final(tiles)@[j].cells@[c])
            },
        forall|j1: int, c1: int, j2: int, c2: int|
            #![trigger final(tiles)@[j1].cells@[c1], final(tiles)@[j2].cells@[c2]]
            old(tiles)@.len() <= j1 < final(tiles)@.len()
                && old(tiles)@.len() <= j2 < final(tiles)@.len()
                && 0 <= c1 < final(tiles)@[j1].cells@.len()
                && 0 <= c2 < final(tiles)@[j2].cells@.len()
                && (j1 != j2 || c1 != c2)
                ==> final(tiles)@[j1].cells@[c1] != final(tiles)@[j2].cells@[c2],
{
    let num_distractors = if grid_size / 2 >= 1 {
        grid_size / 2
    } else {
        1
    };
    let mut occupied: Vec<(usize, usize)> = Vec::new();
    let mut i: usize = 0;
    while i < path.len()
        invariant
            i <= path@.len(),
            occupied@ == path@.subrange(0, i as int),
        decreases path@.len() - i,
    {
        occupied.push(path[i]);
        proof {
            assert(occupied@ =~= path@.subrange(0, i as int + 1));
        }
        i = i + 1;
    }
    proof {
        assert(occupied@ =~= path@);
    }
    let ghost base = tiles@.len();
    let mut d: usize = 0;
    while d < num_distractors
        invariant
            tiles@.len() >= base,
            forall|j: int| 0 <= j < base ==> tiles@[j] == old(tiles)@[j],
            forall|c: int|
                0 <= c < path@.len() ==> occupied@.contains(#[trigger] path@[c]),
            forall|j: int|
                base <= j < tiles@.len() ==> {
                    &&& 1 <= (#[trigger] tiles@[j]).cells@.len() <= 2
                    &&& tiles@[j].rotation == 0
                    &&& !tiles@[j].reversed
                    &&& forall|c: int|
                        0 <= c < tiles@[j].cells@.len() ==> (#[trigger] tiles@[j].cells@[c]).0
                            < grid_size && tiles@[j].cells@[c].1 < grid_size && !path@.contains(
                            tiles@[j].cells@[c],
                        )
                },
            forall|j: int, c: int|
                #![trigger tiles@[j].cells@[c]]
                base <= j < tiles@.len() && 0 <= c < tiles@[j].cells@.len()
                    ==> occupied@.contains(tiles@[j].cells@[c]),
            forall|j1: int, c1: int, j2: int, c2: int|
                #![trigger tiles@[j1].cells@[c1], tiles@[j2].cells@[c2]]
                base <= j1 < tiles@.len() && base <= j2 < tiles@.len() && 0 <= c1
                    < tiles@[j1].cells@.len() && 0 <= c2 < tiles@[j2].cells@.len() && (j1 != j2
                    || c1 != c2) ==> tiles@[j1].cells@[c1] != tiles@[j2].cells@[c2],
        decreases num_distractors - d,
    {
        let mut attempt: usize = 0;
        let mut placed = false;
        while attempt < 10 && !placed
            invariant
                tiles@.len() >= base,
                forall|j: int| 0 <= j < base ==> tiles@[j] == old(tiles)@[j],
                forall|c: int|
                    0 <= c < path@.len() ==> occupied@.contains(#[trigger] path@[c]),
                forall|j: int|
                    base <= j < tiles@.len() ==> {
                        &&& 1 <= (#[trigger] tiles@[j]).cells@.len() <= 2
                        &&& tiles@[j].rotation == 0
                        &&& !tiles@[j].reversed
                        &&& forall|c: int|
                            0 <= c < tiles@[j].cells@.len() ==> (#[trigger] tiles@[j].cells@[c]).0
                                < grid_size && tiles@[j].cells@[c].1 < grid_size && !path@.contains(
                                tiles@[j].cells@[c],
                            )
                    },
                forall|j: int, c: int|
                    #![trigger tiles@[j].cells@[c]]
                    base <= j < tiles@.len() && 0 <= c < tiles@[j].cells@.len()
                        ==> occupied@.contains(tiles@[j].cells@[c]),
                forall|j1: int, c1: int, j2: int, c2: int|
                    #![trigger tiles@[j1].cells@[c1], tiles@[j2].cells@[c2]]
                    base <= j1 < tiles@.len() && base <= j2 < tiles@.len() && 0 <= c1
                        < tiles@[j1].cells@.len() && 0 <= c2 < tiles@[j2].cells@.len() && (j1 != j2
                        || c1 != c2) ==> tiles@[j1].cells@[c1] != tiles@[j2].cells@[c2],
            decreases 10 - attempt,
        {
            let x = rng.next_below(grid_size);
            let y = rng.next_below(grid_size);
            if !contains_cell(&occupied, x, y) {
                let ghost occ_entry = occupied@;
                proof {
                    if path@.contains((x, y)) {
                        let c = choose|c: int| 0 <= c < path@.len() && path@[c] == (x, y);
                        assert(occupied@.contains(path@[c]));
                    }
                }
                let mut tc: Vec<(usize, usize)> = Vec::new();
                tc.push((x, y));
                occupied.push((x, y));
                proof {
                    lemma_contains_grow(occ_entry, occupied@);
                    assert(occupied@[occupied@.len() - 1] == (x, y));
                }
                let ghost occ_mid = occupied@;
                if rng.next_below(2) == 0 && x + 1 < grid_size {
                    if !contains_cell(&occupied, x + 1, y) {
                        proof {
                            if path@.contains(((x + 1) as usize, y)) {
                                let c = choose|c: int|
                                    0 <= c < path@.len() && path@[c] == ((x + 1) as usize, y);
                                assert(occupied@.contains(path@[c]));
                            }
                        }
                        tc.push((x + 1, y));
                        occupied.push((x + 1, y));
                        proof {
                            lemma_contains_grow(occ_mid, occupied@);
                            assert(occupied@[occupied@.len() - 1] == ((x + 1) as usize, y));
                        }
                    }
                }
                let ghost tcv = tc@;
                let ghost t0 = tiles@;
                tiles.push(Tile { cells: tc, rotation: 0, reversed: false });
                proof {
                    let ni = t0.len() as int;
                    assert(tiles@[ni].cells@ == tcv);
                    assert(tcv[0] == (x, y));
                    // the fresh cells sit in the occupied list, and were
                    // free when they were claimed
                    assert forall|j: int, c: int|
                        #![trigger tiles@[j].cells@[c]]
                        base <= j < tiles@.len() && 0 <= c < tiles@[j].cells@.len()
                        implies occupied@.contains(tiles@[j].cells@[c]) by {
                        if j < ni {
                            assert(tiles@[j] == t0[j]);
                            assert(occ_entry.contains(t0[j].cells@[c]));
                        } else {
                            if c == 0 {
                                assert(occ_mid[occ_mid.len() - 1] == (x, y));
                                assert(occupied@[occ_mid.len() - 1] == (x, y));
                            } else {
                                assert(tcv[1] == ((x + 1) as usize, y));
                                assert(occupied@[occupied@.len() - 1] == ((x + 1) as usize, y));
                            }
                        }
                    };
                    assert forall|j1: int, c1: int, j2: int, c2: int|
                        #![trigger tiles@[j1].cells@[c1], tiles@[j2].cells@[c2]]
                        base <= j1 < tiles@.len() && base <= j2 < tiles@.len() && 0 <= c1
                            < tiles@[j1].cells@.len() && 0 <= c2 < tiles@[j2].cells@.len() && (j1
                            != j2 || c1 != c2) implies tiles@[j1].cells@[c1]
                        != tiles@[j2].cells@[c2] by {
                        if j1 < ni && j2 < ni {
                            assert(tiles@[j1] == t0[j1] && tiles@[j2] == t0[j2]);
                        } else {
                            // one side is the fresh tile; its first cell was
                            // not yet occupied, its second not either
                            if j1 == ni {
                                if c1 == 0 {
                                    assert(!occ_entry.contains((x, y)));
                                } else {
                                    assert(tcv[1] == ((x + 1) as usize, y));
                                    assert(!occ_mid.contains(((x + 1) as usize, y)));
                                }
                            }
                            if j2 == ni {
                                if c2 == 0 {
                                    assert(!occ_entry.contains((x, y)));
                                } else {
                                    assert(tcv[1] == ((x + 1) as usize, y));
                                    assert(!occ_mid.contains(((x + 1) as usize, y)));
                                }
                            }
                            if j1 == ni && j2 < ni {
                                assert(occ_entry.contains(t0[j2].cells@[c2]));
                                assert(occ_mid.contains(t0[j2].cells@[c2]));
                            }
                            if j2 == ni && j1 < ni {
                                assert(occ_entry.contains(t0[j1].cells@[c1]));
                                assert(occ_mid.contains(t0[j1].cells@[c1]));
                            }
                            if j1 == ni && j2 == ni {
                                assert(occ_mid.contains((x, y)));
                            }
                        }
                    };
                }
                placed = true;
            }
            attempt = attempt + 1;
        }
        d = d + 1;
    }
}

/// Scrambles rotations and reversals: every solution-path tile is left
/// needing at least one manipulation, the rest are fully random.  The
/// covered cells never change.
#[verifier::loop_isolation(false)]
#[verifier::rlimit(100)]
pub fn randomize_tiles(tiles: Vec<Tile>, solution_path_tiles: &Vec<usize>, rng: &mut Rng) -> (r:
    Vec<Tile>)
    requires
        forall|j: int|
            0 <= j < tiles@.len() ==> (#[trigger] tiles@[j]).rotation == 0 && !tiles@[j].reversed,
    ensures
        r@.len() == tiles@.len(),
        forall|j: int| 0 <= j < r@.len() ==> (#[trigger] r@[j]).cells@ == tiles@[j].cells@,
        forall|j: int|
            0 <= j < r@.len() ==> ((#[trigger] r@[j]).rotation == 0 || r@[j].rotation == 90
                || r@[j].rotation == 180 || r@[j].rotation == 270),
        forall|j: int|
            0 <= j < r@.len() && solution_path_tiles@.contains(j as usize) ==> (((#[trigger] r@[j]).rotation
                == 90 || r@[j].rotation == 180 || r@[j].rotation == 270) && !r@[j].reversed) || (
            r@[j].rotation == 0 && r@[j].reversed),
        forall|j: int|
            0 <= j < r@.len() && solution_path_tiles@.contains(j as usize)
                ==> effective_direction_spec((#[trigger] r@[j]).rotation as int, r@[j].reversed)
                != Direction::East,
{
    let ghost orig = tiles@;
    let mut rest = tiles;
    let mut out: Vec<Tile> = Vec::new();
    while rest.len() > 0
        invariant
            out@.len() + rest@.len() == orig.len(),
            rest@ == orig.subrange(out@.len() as int, orig.len() as int),
            forall|j: int| 0 <= j < out@.len() ==> (#[trigger] out@[j]).cells@ == orig[j].cells@,
            forall|j: int|
                0 <= j < out@.len() ==> ((#[trigger] out@[j]).rotation == 0 || out@[j].rotation
                    == 90 || out@[j].rotation == 180 || out@[j].rotation == 270),
            forall|j: int|
                0 <= j < out@.len() && solution_path_tiles@.contains(j as usize) ==> (((
                #[trigger] out@[j]).rotation == 90 || out@[j].rotation == 180 || out@[j].rotation
                    == 270) && !out@[j].reversed) || (out@[j].rotation == 0 && out@[j].reversed),
        decreases rest@.len(),
    {
        let i = out.len();
        let t = rest.remove(0);
        proof {
            assert(t == orig[i as int]);
            assert(rest@ =~= orig.subrange(i as int + 1, orig.len() as int));
        }
        let in_solution = contains_index(&solution_path_tiles, i);
        let nt = if in_solution {
            if rng.next_bool() {
                let d = rng.next_below(3);
                let rot: i32 = if d == 0 {
                    90
                } else if d == 1 {
                    180
                } else {
                    270
                };
                Tile { cells: t.cells, rotation: rot, reversed: t.reversed }
            } else {
                Tile { cells: t.cells, rotation: t.rotation, reversed: true }
            }
        } else {
            let rot = random_rotation(rng);
            let rev = rng.next_bool();
            Tile { cells: t.cells, rotation: rot, reversed: rev }
        };
        out.push(nt);
    }
    out
}

/// Everything a generated level guarantees about its tiles, solution
/// indices and edge markers, bundled so that holders of a level can
/// restate it: the start sits on the west edge and the end on the east
/// edge; the solution indices are exactly the leading tiles; their
/// concatenated cells sweep the columns west to east, drifting at most
/// one row per column; rotations sit on the quarter stops; every
/// solution tile was scrambled one way (turned with its reversal kept,
/// or reversed with its rotation kept) and so does not already point
/// east; distractor tiles hold one or two in-grid cells off the
/// solution path, pairwise disjoint.
pub open spec fn level_layout(
    tiles: Seq<Tile>,
    sol: Seq<usize>,
    start: (usize, usize),
    end: (usize, usize),
    level: int,
) -> bool {
    let p = tiles_cells(tiles.subrange(0, sol.len() as int));
    &&& start.0 == 0
    &&& (start.1 as int) < level
    &&& (end.0 as int) == level - 1
    &&& (end.1 as int) < level
    &&& (level < 3 ==> start.1 == 0 && end.1 == 0)
    &&& sol.len() <= tiles.len()
    &&& forall|j: int| 0 <= j < sol.len() ==> (#[trigger] sol[j]) as int == j
    &&& p.len() == level
    &&& p[0] == start
    &&& forall|i: int|
        0 <= i < p.len() ==> ((#[trigger] p[i]).0 as int) == i && ((p[i]).1 as int) < level
    &&& forall|i: int|
        0 <= i < p.len() - 1 ==> ((#[trigger] p[i + 1]).1 as int) <= (p[i].1 as int) + 1 && ((
        p[i]).1 as int) <= ((p[i + 1]).1 as int) + 1
    &&& forall|j: int|
        0 <= j < tiles.len() ==> ((#[trigger] tiles[j]).rotation == 0 || tiles[j].rotation == 90
            || tiles[j].rotation == 180 || tiles[j].rotation == 270)
    &&& forall|j: int, c: int|
        #![trigger tiles[j].cells@[c]]
        0 <= j < tiles.len() && 0 <= c < tiles[j].cells@.len() ==> ((tiles[j].cells@[c]).0 as int)
            < level && ((tiles[j].cells@[c]).1 as int) < level
    &&& forall|j: int| 0 <= j < sol.len() ==> 1 <= (#[trigger] tiles[j]).cells@.len() <= 3
    &&& forall|j: int|
        0 <= j < sol.len() ==> ((((#[trigger] tiles[j]).rotation == 90 || tiles[j].rotation == 180
            || tiles[j].rotation == 270) && !tiles[j].reversed) || (tiles[j].rotation == 0
            && tiles[j].reversed))
    &&& forall|j: int|
        0 <= j < sol.len() ==> effective_direction_spec(
            (#[trigger] tiles[j]).rotation as int,
            tiles[j].reversed,
        ) != Direction::East
    &&& forall|j: int|
        sol.len() <= j < tiles.len() ==> 1 <= (#[trigger] tiles[j]).cells@.len() <= 2 && (forall|
            c: int,
        |
            0 <= c < tiles[j].cells@.len() ==> !p.contains(#[trigger] tiles[j].cells@[c]))
    &&& forall|j1: int, c1: int, j2: int, c2: int|
        #![trigger tiles[j1].cells@[c1], tiles[j2].cells@[c2]]
        sol.len() <= j1 < tiles.len() && sol.len() <= j2 < tiles.len() && 0 <= c1
            < tiles[j1].cells@.len() && 0 <= c2 < tiles[j2].cells@.len() && (j1 != j2 || c1 != c2)
            ==> tiles[j1].cells@[c1] != tiles[j2].cells@[c2]
}

/// Generates one rotation-puzzle level: the grid side equals the level
/// number, the start sits on the west edge and the end on the east
/// edge, the leading tiles cut the solution path west to east into
/// pieces of at most three cells, distractors sit off the path, and
/// every solution tile needs a manipulation.
#[verifier::rlimit(100)]
pub fn generate_level(level: usize, rng: &mut Rng) -> (r: (
    Vec<Tile>,
    Vec<usize>,
    (usize, usize),
    (usize, usize),
))
    requires
        1 <= level <= 1000,
    ensures
        level_layout(r.0@, r.1@, r.2, r.3, level as int),
{
    let grid_size = level;
    let start_y: usize;
    let end_y: usize;
    if grid_size < 3 {
        start_y = 0;
        end_y = 0;
    } else {
        start_y = rng.next_below(grid_size);
        end_y = rng.next_below(grid_size);
    }
    let start_pos = (0usize, start_y);
    let end_pos = (grid_size - 1, end_y);
    let path = generate_path(start_pos, end_pos, grid_size, rng);
    let pieces = generate_tiles_from_path(path, grid_size, rng);
    let tiles0 = pieces.0;
    let sol = pieces.1;
    let ghost k = sol@.len() as int;
    let ghost tiles0_view = tiles0@;
    let ghost path_view = path@;
    let tiles = randomize_tiles(tiles0, &sol, rng);
    proof {
        assert(tiles@.subrange(0, k).len() == tiles0_view.subrange(0, k).len());
        assert(forall|j: int|
            0 <= j < k ==> (#[trigger] tiles@.subrange(0, k)[j]).cells@ == tiles0_view.subrange(
                0,
                k,
            )[j].cells@);
        lemma_tiles_cells_congruent(tiles@.subrange(0, k), tiles0_view.subrange(0, k));
        let p = tiles_cells(tiles@.subrange(0, k));
        assert(p == path_view);
        assert forall|j: int|
            0 <= j < k implies ((((#[trigger] tiles@[j]).rotation == 90 || tiles@[j].rotation
                == 180 || tiles@[j].rotation == 270) && !tiles@[j].reversed) || (tiles@[j].rotation
                == 0 && tiles@[j].reversed)) && effective_direction_spec(
            tiles@[j].rotation as int,
            tiles@[j].reversed,
        ) != Direction::East && 1 <= tiles@[j].cells@.len() <= 3 by {
            assert(sol@[j] == j as usize);
            assert(sol@.contains(j as usize));
            assert(tiles@[j].cells@ == tiles0_view[j].cells@);
        };
        assert forall|j: int|
            k <= j < tiles@.len() implies 1 <= (#[trigger] tiles@[j]).cells@.len() <= 2 && (forall|
            c: int,
        | 0 <= c < tiles@[j].cells@.len() ==> !p.contains(#[trigger] tiles@[j].cells@[c])) by {
            assert(tiles@[j].cells@ == tiles0_view[j].cells@);
            assert forall|c: int|
                0 <= c < tiles@[j].cells@.len() implies !p.contains(
                #[trigger] tiles@[j].cells@[c],
            ) by {
                assert(tiles0_view[j].cells@[c] == tiles@[j].cells@[c]);
                assert(!path_view.contains(tiles0_view[j].cells@[c]));
            };
        };
        assert forall|j1: int, c1: int, j2: int, c2: int|
            #![trigger tiles@[j1].cells@[c1], tiles@[j2].cells@[c2]]
            k <= j1 < tiles@.len() && k <= j2 < tiles@.len() && 0 <= c1 < tiles@[j1].cells@.len()
                && 0 <= c2 < tiles@[j2].cells@.len() && (j1 != j2 || c1 != c2) implies tiles@[j1].cells@[c1]
            != tiles@[j2].cells@[c2] by {
            assert(tiles@[j1].cells@ == tiles0_view[j1].cells@);
            assert(tiles@[j2].cells@ == tiles0_view[j2].cells@);
            assert(tiles0_view[j1].cells@[c1] != tiles0_view[j2].cells@[c2]);
        };
        assert(level_layout(tiles@, sol@, start_pos, end_pos, level as int));
    }
    (tiles, sol, start_pos, end_pos)
}

} // verus!
