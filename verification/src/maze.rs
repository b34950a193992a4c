//! The maze walls and the randomized spanning-tree carver.
//!
//! Generation carves passages with an iterative randomized depth-first
//! search: walls start fully closed, and whenever the search steps to an
//! unvisited neighbor the facing pair of flags is opened together.  The
//! result is a perfect maze: every cell is connected to every other, the
//! open passages number exactly `n * n - 1` (two flags each), and the
//! pairing (no one-way walls) and border invariants hold.

use vstd::prelude::*;
use crate::counting::lemma_marked_count_full;
use crate::counting::lemma_marked_count_le_len;
use crate::counting::lemma_marked_count_none;
use crate::counting::lemma_marked_count_set;
use crate::counting::lemma_open_flag_count_all_set;
use crate::counting::lemma_open_flag_count_clear;
use crate::counting::marked_count;
use crate::counting::open_flag_count;
use crate::distance::bfs_post;
use crate::distance::has_exact_path;
use crate::wall_model::index_x;
use crate::wall_model::index_y;
use crate::reach::cells_view;
use crate::reach::is_path;
use crate::reach::lemma_connected_all_pairs;
use crate::reach::manhattan;
use crate::wall_model::lemma_cell_index_coords;
use crate::wall_model::lemma_index_coords;
use crate::reach::connected;
use crate::reach::lemma_adjacent_closure_covers;
use crate::reach::lemma_connected_monotone;
use crate::reach::lemma_connected_refl;
use crate::reach::lemma_connected_step;
use crate::reach::opens_superset;
use crate::rng::Rng;
use crate::wall_model::adjacent;
use crate::wall_model::cell_index;
use crate::wall_model::cell_index_of;
use crate::wall_model::flag_of;
use crate::wall_model::in_grid;
use crate::wall_model::lemma_cell_index_bounds;
use crate::wall_model::lemma_cell_index_distinct;
use crate::wall_model::lemma_cell_index_injective;
use crate::wall_model::lemma_flag_bounds;
use crate::wall_model::lemma_flag_injective;
use crate::wall_model::lemma_side_toward_neighbor;
use crate::wall_model::lemma_wall_flag_pair_injective;
use crate::wall_model::neighbor_x;
use crate::wall_model::neighbor_y;
use crate::wall_model::passage_open;
use crate::wall_model::side_toward;
use crate::wall_model::wall_flag;
use crate::wall_model::wall_index;
use crate::wall_model::walls_len_ok;
use crate::wall_model::walls_symmetric;
use crate::wall_model::border_walls_closed;

verus! {

/// Whether every wall flag touching an unvisited cell is still up.
spec fn unvisited_walls_closed(w: Seq<bool>, vis: Seq<bool>, size: int) -> bool {
    forall|x1: int, y1: int, x2: int, y2: int|
        in_grid(size, x1, y1) && in_grid(size, x2, y2) && adjacent(x1, y1, x2, y2) && (!vis[
            cell_index(size, x1, y1)
        ] || !vis[cell_index(size, x2, y2)]) ==> w[#[trigger] wall_flag(size, x1, y1, x2, y2)]
}

/// Whether the cell `(x, y)` occurs on the search stack.
spec fn on_stack(st: Seq<(usize, usize)>, x: int, y: int) -> bool {
    exists|j: int| 0 <= j < st.len() && (#[trigger] st[j]).0 == x && st[j].1 == y
}

/// Whether every grid neighbor of `(x, y)` is visited.
spec fn all_adj_visited(vis: Seq<bool>, size: int, x: int, y: int) -> bool {
    forall|x2: int, y2: int|
        in_grid(size, x2, y2) && adjacent(x, y, x2, y2) ==> vis[#[trigger] cell_index(
            size,
            x2,
            y2,
        )]
}

/// The structural part of the carver's loop invariant on the wall set.
spec fn carve_walls_inv(w: Seq<bool>, vis: Seq<bool>, size: int) -> bool {
    &&& walls_len_ok(w, size)
    &&& walls_symmetric(w, size)
    &&& border_walls_closed(w, size)
    &&& unvisited_walls_closed(w, vis, size)
}

/// Every visited cell is connected to the search origin.
spec fn carve_conn_inv(w: Seq<bool>, vis: Seq<bool>, size: int, sx: int, sy: int) -> bool {
    forall|x: int, y: int|
        in_grid(size, x, y) && vis[#[trigger] cell_index(size, x, y)] ==> connected(
            w,
            size,
            sx,
            sy,
            x,
            y,
        )
}

/// Every visited cell is on the stack or has all its neighbors visited.
spec fn carve_cover_inv(st: Seq<(usize, usize)>, vis: Seq<bool>, size: int) -> bool {
    forall|x: int, y: int|
        in_grid(size, x, y) && vis[#[trigger] cell_index(size, x, y)] ==> (on_stack(st, x, y)
            || all_adj_visited(vis, size, x, y))
}

/// The whole loop invariant of the carver.
spec fn carve_inv(
    size: int,
    w: Seq<bool>,
    vis: Seq<bool>,
    st: Seq<(usize, usize)>,
    sx: int,
    sy: int,
) -> bool {
    &&& size >= 1
    &&& 4 * size * size <= usize::MAX
    &&& in_grid(size, sx, sy)
    &&& vis.len() == size * size
    &&& vis[cell_index(size, sx, sy)]
    &&& forall|j: int|
        0 <= j < st.len() ==> in_grid(size, (#[trigger] st[j]).0 as int, st[j].1 as int) && vis[
            cell_index(size, st[j].0 as int, st[j].1 as int)
        ]
    &&& 1 <= marked_count(vis) <= size * size
    &&& open_flag_count(w) == 2 * (marked_count(vis) - 1)
    &&& carve_walls_inv(w, vis, size)
    &&& carve_conn_inv(w, vis, size, sx, sy)
    &&& carve_cover_inv(st, vis, size)
}

/// The carver's termination measure.
spec fn carve_measure(size: int, vis: Seq<bool>, st: Seq<(usize, usize)>) -> int {
    2 * (size * size - marked_count(vis)) + st.len()
}

/// On a fully closed wall set all structural invariants hold.
proof fn lemma_carve_init(w: Seq<bool>, vis: Seq<bool>, size: int)
    requires
        size >= 1,
        walls_len_ok(w, size),
        forall|i: int| 0 <= i < w.len() ==> w[i],
    ensures
        carve_walls_inv(w, vis, size),
{
    assert forall|x1: int, y1: int, x2: int, y2: int|
        in_grid(size, x1, y1) && in_grid(size, x2, y2) && adjacent(x1, y1, x2, y2) implies w[
        #[trigger] wall_flag(size, x1, y1, x2, y2)
    ] == w[wall_flag(size, x2, y2, x1, y1)] && w[wall_flag(size, x1, y1, x2, y2)] by {
        lemma_side_toward_neighbor(x1, y1, x2, y2);
        lemma_side_toward_neighbor(x2, y2, x1, y1);
        lemma_flag_bounds(size, x1, y1, side_toward(x1, y1, x2, y2));
        lemma_flag_bounds(size, x2, y2, side_toward(x2, y2, x1, y1));
    };
    assert forall|x: int, y: int, s: int|
        in_grid(size, x, y) && 0 <= s < 4 && !in_grid(size, neighbor_x(x, s), neighbor_y(y, s))
        implies w[#[trigger] flag_of(size, x, y, s)] by {
        lemma_flag_bounds(size, x, y, s);
    };
}

/// The two facing flags of an adjacent pair are distinct and in range.
pub proof fn lemma_pair_flags(size: int, cx: int, cy: int, nx: int, ny: int)
    requires
        size >= 1,
        in_grid(size, cx, cy),
        in_grid(size, nx, ny),
        adjacent(cx, cy, nx, ny),
    ensures
        0 <= wall_flag(size, cx, cy, nx, ny) < 4 * size * size,
        0 <= wall_flag(size, nx, ny, cx, cy) < 4 * size * size,
        wall_flag(size, cx, cy, nx, ny) != wall_flag(size, nx, ny, cx, cy),
        cell_index(size, cx, cy) != cell_index(size, nx, ny),
{
    lemma_side_toward_neighbor(cx, cy, nx, ny);
    lemma_side_toward_neighbor(nx, ny, cx, cy);
    lemma_flag_bounds(size, cx, cy, side_toward(cx, cy, nx, ny));
    lemma_flag_bounds(size, nx, ny, side_toward(nx, ny, cx, cy));
    lemma_cell_index_distinct(size, cx, cy, nx, ny);
    if wall_flag(size, cx, cy, nx, ny) == wall_flag(size, nx, ny, cx, cy) {
        lemma_flag_injective(
            size,
            cx,
            cy,
            side_toward(cx, cy, nx, ny),
            nx,
            ny,
            side_toward(nx, ny, cx, cy),
        );
    }
}

/// Opening the facing pair of flags between a visited cell and its fresh
/// neighbor preserves the structural invariants.
proof fn lemma_open_pair_preserves(
    w0: Seq<bool>,
    w1: Seq<bool>,
    vis0: Seq<bool>,
    vis1: Seq<bool>,
    size: int,
    cx: int,
    cy: int,
    nx: int,
    ny: int,
)
    requires
        size >= 1,
        in_grid(size, cx, cy),
        in_grid(size, nx, ny),
        adjacent(cx, cy, nx, ny),
        vis0.len() == size * size,
        vis0[cell_index(size, cx, cy)],
        !vis0[cell_index(size, nx, ny)],
        vis1 == vis0.update(cell_index(size, nx, ny), true),
        carve_walls_inv(w0, vis0, size),
        w1 == w0.update(wall_flag(size, cx, cy, nx, ny), false).update(
            wall_flag(size, nx, ny, cx, cy),
            false,
        ),
    ensures
        carve_walls_inv(w1, vis1, size),
        opens_superset(w0, w1),
        passage_open(w1, size, cx, cy, nx, ny),
{
    let f1 = wall_flag(size, cx, cy, nx, ny);
    let f2 = wall_flag(size, nx, ny, cx, cy);
    lemma_pair_flags(size, cx, cy, nx, ny);
    lemma_cell_index_bounds(size, cx, cy);
    lemma_cell_index_bounds(size, nx, ny);
    assert forall|x1: int, y1: int, x2: int, y2: int|
        in_grid(size, x1, y1) && in_grid(size, x2, y2) && adjacent(x1, y1, x2, y2) implies w1[
        #[trigger] wall_flag(size, x1, y1, x2, y2)
    ] == w1[wall_flag(size, x2, y2, x1, y1)] by {
        let fab = wall_flag(size, x1, y1, x2, y2);
        let fba = wall_flag(size, x2, y2, x1, y1);
        lemma_side_toward_neighbor(x1, y1, x2, y2);
        lemma_side_toward_neighbor(x2, y2, x1, y1);
        lemma_flag_bounds(size, x1, y1, side_toward(x1, y1, x2, y2));
        lemma_flag_bounds(size, x2, y2, side_toward(x2, y2, x1, y1));
        if fab == f1 || fab == f2 || fba == f1 || fba == f2 {
            if fab == f1 {
                lemma_wall_flag_pair_injective(size, x1, y1, x2, y2, cx, cy, nx, ny);
            } else if fab == f2 {
                lemma_wall_flag_pair_injective(size, x1, y1, x2, y2, nx, ny, cx, cy);
            } else if fba == f1 {
                lemma_wall_flag_pair_injective(size, x2, y2, x1, y1, cx, cy, nx, ny);
            } else {
                lemma_wall_flag_pair_injective(size, x2, y2, x1, y1, nx, ny, cx, cy);
            }
        }
    };
    assert forall|x: int, y: int, s: int|
        in_grid(size, x, y) && 0 <= s < 4 && !in_grid(size, neighbor_x(x, s), neighbor_y(y, s))
        implies w1[#[trigger] flag_of(size, x, y, s)] by {
        lemma_flag_bounds(size, x, y, s);
        if flag_of(size, x, y, s) == f1 {
            lemma_flag_injective(size, x, y, s, cx, cy, side_toward(cx, cy, nx, ny));
            lemma_side_toward_neighbor(cx, cy, nx, ny);
        } else if flag_of(size, x, y, s) == f2 {
            lemma_flag_injective(size, x, y, s, nx, ny, side_toward(nx, ny, cx, cy));
            lemma_side_toward_neighbor(nx, ny, cx, cy);
        }
    };
    assert forall|x1: int, y1: int, x2: int, y2: int|
        in_grid(size, x1, y1) && in_grid(size, x2, y2) && adjacent(x1, y1, x2, y2) && (!vis1[
        cell_index(size, x1, y1)
    ] || !vis1[cell_index(size, x2, y2)]) implies w1[#[trigger] wall_flag(size, x1, y1, x2, y2)] by {
        lemma_side_toward_neighbor(x1, y1, x2, y2);
        lemma_flag_bounds(size, x1, y1, side_toward(x1, y1, x2, y2));
        lemma_cell_index_bounds(size, x1, y1);
        lemma_cell_index_bounds(size, x2, y2);
        if wall_flag(size, x1, y1, x2, y2) == f1 {
            lemma_wall_flag_pair_injective(size, x1, y1, x2, y2, cx, cy, nx, ny);
            assert(vis1[cell_index(size, cx, cy)] && vis1[cell_index(size, nx, ny)]);
        } else if wall_flag(size, x1, y1, x2, y2) == f2 {
            lemma_wall_flag_pair_injective(size, x1, y1, x2, y2, nx, ny, cx, cy);
            assert(vis1[cell_index(size, cx, cy)] && vis1[cell_index(size, nx, ny)]);
        } else {
            assert(w1[wall_flag(size, x1, y1, x2, y2)] == w0[wall_flag(size, x1, y1, x2, y2)]);
            assert(!vis0[cell_index(size, x1, y1)] || !vis0[cell_index(size, x2, y2)]);
        }
    };
    assert(!w1[f1]);
}

/// Marking the fresh neighbor keeps every visited cell connected to the
/// origin of the search.
proof fn lemma_conn_extends(
    w0: Seq<bool>,
    w1: Seq<bool>,
    vis0: Seq<bool>,
    vis1: Seq<bool>,
    size: int,
    sx: int,
    sy: int,
    cx: int,
    cy: int,
    nx: int,
    ny: int,
)
    requires
        size >= 1,
        walls_len_ok(w0, size),
        opens_superset(w0, w1),
        in_grid(size, cx, cy),
        in_grid(size, nx, ny),
        vis0.len() == size * size,
        vis0[cell_index(size, cx, cy)],
        vis1 == vis0.update(cell_index(size, nx, ny), true),
        passage_open(w1, size, cx, cy, nx, ny),
        carve_conn_inv(w0, vis0, size, sx, sy),
    ensures
        carve_conn_inv(w1, vis1, size, sx, sy),
{
    lemma_cell_index_bounds(size, nx, ny);
    assert forall|x: int, y: int|
        in_grid(size, x, y) && vis1[#[trigger] cell_index(size, x, y)] implies connected(
        w1,
        size,
        sx,
        sy,
        x,
        y,
    ) by {
        lemma_cell_index_bounds(size, x, y);
        if vis0[cell_index(size, x, y)] {
            lemma_connected_monotone(w0, w1, size, sx, sy, x, y);
        } else {
            assert(cell_index(size, x, y) == cell_index(size, nx, ny));
            lemma_cell_index_injective(size, x, y, nx, ny);
            lemma_connected_monotone(w0, w1, size, sx, sy, cx, cy);
            lemma_connected_step(w1, size, sx, sy, cx, cy, nx, ny);
        }
    };
}

/// Pushing the fresh neighbor keeps the stack cover.
proof fn lemma_cover_push(
    st0: Seq<(usize, usize)>,
    st1: Seq<(usize, usize)>,
    vis0: Seq<bool>,
    vis1: Seq<bool>,
    size: int,
    nx: usize,
    ny: usize,
)
    requires
        size >= 1,
        vis0.len() == size * size,
        in_grid(size, nx as int, ny as int),
        vis1 == vis0.update(cell_index(size, nx as int, ny as int), true),
        st1 == st0.push((nx, ny)),
        carve_cover_inv(st0, vis0, size),
    ensures
        carve_cover_inv(st1, vis1, size),
{
    lemma_cell_index_bounds(size, nx as int, ny as int);
    assert forall|x: int, y: int|
        in_grid(size, x, y) && vis1[#[trigger] cell_index(size, x, y)] implies (on_stack(
        st1,
        x,
        y,
    ) || all_adj_visited(vis1, size, x, y)) by {
        lemma_cell_index_bounds(size, x, y);
        if vis0[cell_index(size, x, y)] {
            if on_stack(st0, x, y) {
                let j = choose|j: int|
                    0 <= j < st0.len() && (#[trigger] st0[j]).0 == x && st0[j].1 == y;
                assert(st1[j] == st0[j]);
                assert(on_stack(st1, x, y));
            } else {
                assert(all_adj_visited(vis0, size, x, y));
                assert forall|x2: int, y2: int|
                    in_grid(size, x2, y2) && adjacent(x, y, x2, y2) implies vis1[#[trigger] cell_index(
                    size,
                    x2,
                    y2,
                )] by {
                    lemma_cell_index_bounds(size, x2, y2);
                    assert(vis0[cell_index(size, x2, y2)]);
                };
            }
        } else {
            assert(cell_index(size, x, y) == cell_index(size, nx as int, ny as int));
            lemma_cell_index_injective(size, x, y, nx as int, ny as int);
            assert(st1[st1.len() - 1] == (nx, ny));
            assert(on_stack(st1, x, y));
        }
    };
}

/// Popping a cell whose neighbors are all visited keeps the stack cover.
proof fn lemma_cover_pop(
    st0: Seq<(usize, usize)>,
    st1: Seq<(usize, usize)>,
    vis: Seq<bool>,
    size: int,
    cx: usize,
    cy: usize,
)
    requires
        size >= 1,
        vis.len() == size * size,
        st0.len() >= 1,
        st0[st0.len() - 1] == (cx, cy),
        st1 == st0.drop_last(),
        all_adj_visited(vis, size, cx as int, cy as int),
        carve_cover_inv(st0, vis, size),
    ensures
        carve_cover_inv(st1, vis, size),
{
    assert forall|x: int, y: int|
        in_grid(size, x, y) && vis[#[trigger] cell_index(size, x, y)] implies (on_stack(st1, x, y)
            || all_adj_visited(vis, size, x, y)) by {
        if on_stack(st0, x, y) && !all_adj_visited(vis, size, x, y) {
            let j = choose|j: int| 0 <= j < st0.len() && (#[trigger] st0[j]).0 == x && st0[j].1 == y;
            if j < st0.len() - 1 {
                assert(st1[j] == st0[j]);
                assert(on_stack(st1, x, y));
            } else {
                assert(st0[j] == (cx, cy));
            }
        }
    };
}

/// With an empty stack the cover makes the visited set closed under grid
/// adjacency, so it holds every cell.
proof fn lemma_carve_done(vis: Seq<bool>, size: int, sx: int, sy: int)
    requires
        size >= 1,
        vis.len() == size * size,
        in_grid(size, sx, sy),
        vis[cell_index(size, sx, sy)],
        carve_cover_inv(Seq::<(usize, usize)>::empty(), vis, size),
    ensures
        forall|i: int| 0 <= i < vis.len() ==> vis[i],
{
    assert forall|x1: int, y1: int, x2: int, y2: int|
        #![trigger cell_index(size, x1, y1), cell_index(size, x2, y2)]
        in_grid(size, x1, y1) && in_grid(size, x2, y2) && adjacent(x1, y1, x2, y2) && vis[
        cell_index(size, x1, y1)
    ] implies vis[cell_index(size, x2, y2)] by {
        lemma_cell_index_bounds(size, x1, y1);
        assert(on_stack(Seq::<(usize, usize)>::empty(), x1, y1) || all_adj_visited(
            vis,
            size,
            x1,
            y1,
        ));
    };
    assert forall|i: int| 0 <= i < vis.len() implies vis[i] by {
        let y = i / size;
        let x = i % size;
        assert(in_grid(size, x, y) && cell_index(size, x, y) == i) by (nonlinear_arith)
            requires
                size >= 1,
                0 <= i < size * size,
                y == i / size,
                x == i % size,
        ;
        lemma_adjacent_closure_covers(size, vis, sx, sy, x, y);
    };
}

/// One step of the carving search: look at the top of the stack, either
/// step to a random unvisited neighbor (opening the wall pair) or pop.
#[verifier::rlimit(100)]
fn carve_step(
    size: usize,
    walls: &mut Vec<bool>,
    visited: &mut Vec<bool>,
    stack: &mut Vec<(usize, usize)>,
    rng: &mut Rng,
    sx: usize,
    sy: usize,
)
    requires
        carve_inv(size as int, old(walls)@, old(visited)@, old(stack)@, sx as int, sy as int),
        old(stack)@.len() > 0,
    ensures
        carve_inv(size as int, final(walls)@, final(visited)@, final(stack)@, sx as int, sy as int),
        carve_measure(size as int, final(visited)@, final(stack)@) < carve_measure(
            size as int,
            old(visited)@,
            old(stack)@,
        ),
{
    let ghost sz = size as int;
    proof {
        assert(size * size <= 4 * size * size && 4 * (size * size) == 4 * size * size)
            by (nonlinear_arith)
            requires
                size >= 1,
        ;
    }
    let top = stack[stack.len() - 1];
    let cx = top.0;
    let cy = top.1;
    let mut cands: Vec<(usize, usize)> = Vec::new();
    if cy >= 1 {
        if !visited[cell_index_of(size, cx, cy - 1)] {
            cands.push((cx, cy - 1));
        }
    }
    if cx + 1 < size {
        if !visited[cell_index_of(size, cx + 1, cy)] {
            cands.push((cx + 1, cy));
        }
    }
    if cy + 1 < size {
        if !visited[cell_index_of(size, cx, cy + 1)] {
            cands.push((cx, cy + 1));
        }
    }
    if cx >= 1 {
        if !visited[cell_index_of(size, cx - 1, cy)] {
            cands.push((cx - 1, cy));
        }
    }
    if cands.len() == 0 {
        proof {
            assert forall|x2: int, y2: int|
                in_grid(sz, x2, y2) && adjacent(cx as int, cy as int, x2, y2) implies visited@[
                #[trigger] cell_index(sz, x2, y2)
            ] by {
                if y2 == cy as int - 1 {
                    assert(visited@[cell_index(sz, cx as int, cy as int - 1)]);
                } else if x2 == cx as int + 1 {
                    assert(visited@[cell_index(sz, cx as int + 1, cy as int)]);
                } else if y2 == cy as int + 1 {
                    assert(visited@[cell_index(sz, cx as int, cy as int + 1)]);
                } else {
                    assert(x2 == cx as int - 1 && y2 == cy as int);
                    assert(visited@[cell_index(sz, cx as int - 1, cy as int)]);
                }
            };
        }
        let ghost st0 = stack@;
        stack.pop();
        proof {
            lemma_cover_pop(st0, stack@, visited@, sz, cx, cy);
        }
    } else {
        let k = rng.next_below(cands.len());
        let nb = cands[k];
        let nx = nb.0;
        let ny = nb.1;
        proof {
            lemma_pair_flags(sz, cx as int, cy as int, nx as int, ny as int);
        }
        let f1 = wall_index(size, cx, cy, nx, ny);
        let f2 = wall_index(size, nx, ny, cx, cy);
        proof {
            assert(walls@[f1 as int]);
            assert(walls@[f2 as int]);
            lemma_open_flag_count_clear(walls@, f1 as int);
            lemma_open_flag_count_clear(walls@.update(f1 as int, false), f2 as int);
        }
        let ghost w0 = walls@;
        let ghost vis0 = visited@;
        let ghost st0 = stack@;
        walls.set(f1, false);
        walls.set(f2, false);
        let ni = cell_index_of(size, nx, ny);
        proof {
            lemma_marked_count_set(visited@, ni as int);
        }
        visited.set(ni, true);
        stack.push((nx, ny));
        proof {
            lemma_marked_count_le_len(visited@);
            lemma_open_pair_preserves(
                w0,
                walls@,
                vis0,
                visited@,
                sz,
                cx as int,
                cy as int,
                nx as int,
                ny as int,
            );
            lemma_conn_extends(
                w0,
                walls@,
                vis0,
                visited@,
                sz,
                sx as int,
                sy as int,
                cx as int,
                cy as int,
                nx as int,
                ny as int,
            );
            lemma_cover_push(st0, stack@, vis0, visited@, sz, nx, ny);
            assert forall|j: int|
                0 <= j < stack@.len() implies in_grid(
                sz,
                (#[trigger] stack@[j]).0 as int,
                stack@[j].1 as int,
            ) && visited@[cell_index(sz, stack@[j].0 as int, stack@[j].1 as int)] by {
                if j < st0.len() {
                    assert(stack@[j] == st0[j]);
                    lemma_cell_index_bounds(sz, st0[j].0 as int, st0[j].1 as int);
                } else {
                    assert(stack@[j] == (nx, ny));
                }
            };
        }
    }
}

/// Carves a perfect maze over the grid by randomized depth-first search,
/// starting the search at `(sx, sy)`.
///
/// The walls come back symmetric, closed along the border, with exactly
/// `2 * (size * size - 1)` open flags (two per carved passage), and with
/// every cell connected to `(sx, sy)` through open passages.
pub fn carve(size: usize, rng: &mut Rng, sx: usize, sy: usize) -> (w: Vec<bool>)
    requires
        1 <= size,
        4 * size * size <= usize::MAX,
        in_grid(size as int, sx as int, sy as int),
    ensures
        walls_len_ok(w@, size as int),
        walls_symmetric(w@, size as int),
        border_walls_closed(w@, size as int),
        open_flag_count(w@) == 2 * (size * size - 1),
        forall|x: int, y: int|
            in_grid(size as int, x, y) ==> connected(w@, size as int, sx as int, sy as int, x, y),
{
    let ghost sz = size as int;
    proof {
        assert(size * size <= 4 * size * size && 4 * (size * size) == 4 * size * size)
            by (nonlinear_arith)
            requires
                size >= 1,
        ;
    }
    let total = size * size;
    let mut walls = fill_bools(4 * total, true);
    let mut visited = fill_bools(total, false);
    proof {
        lemma_open_flag_count_all_set(walls@);
        lemma_marked_count_none(visited@);
        lemma_carve_init(walls@, visited@.update(cell_index(sz, sx as int, sy as int), true), sz);
    }
    let si = cell_index_of(size, sx, sy);
    proof {
        lemma_marked_count_set(visited@, si as int);
    }
    visited.set(si, true);
    let mut stack: Vec<(usize, usize)> = Vec::new();
    stack.push((sx, sy));
    proof {
        lemma_connected_refl(walls@, sz, sx as int, sy as int);
        lemma_marked_count_le_len(visited@);
        assert(stack@[0] == (sx, sy));
        assert forall|x: int, y: int|
            in_grid(sz, x, y) && visited@[#[trigger] cell_index(sz, x, y)] implies connected(
            walls@,
            sz,
            sx as int,
            sy as int,
            x,
            y,
        ) && on_stack(stack@, x, y) by {
            lemma_cell_index_bounds(sz, x, y);
            lemma_cell_index_injective(sz, x, y, sx as int, sy as int);
        };
        assert(carve_inv(sz, walls@, visited@, stack@, sx as int, sy as int));
    }
    while stack.len() > 0
        invariant
            sz == size as int,
            carve_inv(sz, walls@, visited@, stack@, sx as int, sy as int),
        decreases carve_measure(sz, visited@, stack@),
    {
        carve_step(size, &mut walls, &mut visited, &mut stack, rng, sx, sy);
    }
    proof {
        assert(stack@ =~= Seq::<(usize, usize)>::empty());
        lemma_carve_done(visited@, sz, sx as int, sy as int);
        lemma_marked_count_full(visited@);
        assert(size * size == total);
        assert forall|x: int, y: int| in_grid(sz, x, y) implies connected(
            walls@,
            sz,
            sx as int,
            sy as int,
            x,
            y,
        ) by {
            lemma_cell_index_bounds(sz, x, y);
            assert(visited@[cell_index(sz, x, y)]);
        };
    }
    walls
}

/// A vector of `n` copies of `v`.
pub fn fill_bools(n: usize, v: bool) -> (r: Vec<bool>)
    ensures
        r@.len() == n,
        forall|i: int| 0 <= i < n ==> r@[i] == v,
{
    let mut r: Vec<bool> = Vec::new();
    let mut i: usize = 0;
    while i < n
        invariant
            i <= n,
            r@.len() == i,
            forall|k: int| 0 <= k < i ==> r@[k] == v,
        decreases n - i,
    {
        r.push(v);
        i = i + 1;
    }
    r
}

/// Whether flag `i` is one of the up-to-eight flags around the door
/// cell: the door's own four sides and each valid neighbor's facing
/// side.
pub open spec fn door_zone_flag(size: int, dx: int, dy: int, i: int) -> bool {
    ||| i == flag_of(size, dx, dy, 0)
    ||| i == flag_of(size, dx, dy, 1)
    ||| i == flag_of(size, dx, dy, 2)
    ||| i == flag_of(size, dx, dy, 3)
    ||| (dy - 1 >= 0 && i == flag_of(size, dx, dy - 1, 2))
    ||| (dx + 1 < size && i == flag_of(size, dx + 1, dy, 3))
    ||| (dy + 1 < size && i == flag_of(size, dx, dy + 1, 0))
    ||| (dx - 1 >= 0 && i == flag_of(size, dx - 1, dy, 1))
}

/// How unlocking rewrites the wall set: exactly the door-zone flags go
/// down, everything else is untouched.
pub open spec fn unlocked_from(w0: Seq<bool>, w1: Seq<bool>, size: int, dx: int, dy: int) -> bool {
    &&& w1.len() == w0.len()
    &&& forall|i: int|
        0 <= i < w0.len() ==> (#[trigger] w1[i]) == (w0[i] && !door_zone_flag(size, dx, dy, i))
}

/// Whether every wall around the door is open.
pub open spec fn door_unlocked(w: Seq<bool>, size: int, dx: int, dy: int) -> bool {
    forall|i: int| 0 <= i < w.len() && door_zone_flag(size, dx, dy, i) ==> !(#[trigger] w[i])
}

/// The maze: grid size, wall set and the three markers.
///
/// `wf` is the data invariant: the wall set has the right length and is
/// symmetric, the markers are grid cells, every cell is connected to the
/// start, and on grids of two or more the markers are pairwise distinct.
pub struct Maze {
    pub size: usize,
    pub walls: Vec<bool>,
    pub start: (usize, usize),
    pub key: (usize, usize),
    pub door: (usize, usize),
}

impl Maze {
    /// Well-formedness of the maze.
    pub open spec fn wf(self) -> bool {
        &&& 1 <= self.size
        &&& 4 * self.size * self.size <= usize::MAX
        &&& walls_len_ok(self.walls@, self.size as int)
        &&& walls_symmetric(self.walls@, self.size as int)
        &&& in_grid(self.size as int, self.start.0 as int, self.start.1 as int)
        &&& in_grid(self.size as int, self.key.0 as int, self.key.1 as int)
        &&& in_grid(self.size as int, self.door.0 as int, self.door.1 as int)
        &&& forall|x: int, y: int|
            in_grid(self.size as int, x, y) ==> connected(
                self.walls@,
                self.size as int,
                self.start.0 as int,
                self.start.1 as int,
                x,
                y,
            )
        &&& (self.size >= 2 ==> self.start != self.key && self.key != self.door && self.start
            != self.door)
    }

    /// Whether the passage from one cell to an adjacent cell is open.
    pub fn is_open(&self, from_x: usize, from_y: usize, to_x: usize, to_y: usize) -> (r: bool)
        requires
            self.wf(),
            in_grid(self.size as int, from_x as int, from_y as int),
            in_grid(self.size as int, to_x as int, to_y as int),
            adjacent(from_x as int, from_y as int, to_x as int, to_y as int),
        ensures
            r == passage_open(
                self.walls@,
                self.size as int,
                from_x as int,
                from_y as int,
                to_x as int,
                to_y as int,
            ),
    {
        let f = wall_index(self.size, from_x, from_y, to_x, to_y);
        !self.walls[f]
    }

    /// Flood fill over open passages from any cell of a well-formed
    /// maze visits exactly `size * size` cells.
    #[verifier::loop_isolation(false)]
    pub fn flood_fill_count(&self, from_x: usize, from_y: usize) -> (n: usize)
        requires
            self.wf(),
            in_grid(self.size as int, from_x as int, from_y as int),
        ensures
            n == self.size * self.size,
    {
        proof {
            lemma_connected_all_pairs(
                self.walls@,
                self.size as int,
                self.start.0 as int,
                self.start.1 as int,
            );
        }
        let (dist, _parent) = crate::distance::bfs(self.size, &self.walls, from_x, from_y);
        let total = self.size * self.size;
        let mut n: usize = 0;
        let mut i: usize = 0;
        while i < total
            invariant
                i <= total,
                n == i,
            decreases total - i,
        {
            if dist[i] < total {
                n = n + 1;
            } else {
                proof {
                    assert((dist@[i as int] as int) < total);
                }
            }
            i = i + 1;
        }
        n
    }

    /// Opens all walls around the door, both the door's own flags and
    /// each neighbor's facing flag, keeping the pairing invariant.
    #[verifier::rlimit(100)]
    pub fn unlock_door(&mut self)
        requires
            old(self).wf(),
        ensures
            final(self).wf(),
            final(self).size == old(self).size,
            final(self).start == old(self).start,
            final(self).key == old(self).key,
            final(self).door == old(self).door,
            unlocked_from(
                old(self).walls@,
                final(self).walls@,
                old(self).size as int,
                old(self).door.0 as int,
                old(self).door.1 as int,
            ),
            door_unlocked(
                final(self).walls@,
                final(self).size as int,
                final(self).door.0 as int,
                final(self).door.1 as int,
            ),
    {
        let ghost sz = self.size as int;
        let ghost w0 = self.walls@;
        let size = self.size;
        let dx = self.door.0;
        let dy = self.door.1;
        proof {
            assert(size * size <= 4 * size * size && 4 * (size * size) == 4 * size * size)
                by (nonlinear_arith)
                requires
                    size >= 1,
            ;
            lemma_cell_index_bounds(sz, dx as int, dy as int);
            lemma_flag_bounds(sz, dx as int, dy as int, 0);
            lemma_flag_bounds(sz, dx as int, dy as int, 1);
            lemma_flag_bounds(sz, dx as int, dy as int, 2);
            lemma_flag_bounds(sz, dx as int, dy as int, 3);
        }
        let base = cell_index_of(size, dx, dy) * 4;
        self.walls.set(base, false);
        self.walls.set(base + 1, false);
        self.walls.set(base + 2, false);
        self.walls.set(base + 3, false);
        if dy >= 1 {
            let f = wall_index(size, dx, dy - 1, dx, dy);
            self.walls.set(f, false);
        }
        if dx + 1 < size {
            let f = wall_index(size, dx + 1, dy, dx, dy);
            self.walls.set(f, false);
        }
        if dy + 1 < size {
            let f = wall_index(size, dx, dy + 1, dx, dy);
            self.walls.set(f, false);
        }
        if dx >= 1 {
            let f = wall_index(size, dx - 1, dy, dx, dy);
            self.walls.set(f, false);
        }
        proof {
            assert(self.walls@ =~= unlock_writes(w0, sz, dx as int, dy as int));
            lemma_unlock_shape(w0, self.walls@, sz, dx as int, dy as int);
            lemma_unlock_preserves_wf(*old(self), *self);
        }
    }
}

/// The rewritten wall set after the eight (or fewer) unlock updates is
/// exactly `unlocked_from` the original, and the door stands unlocked.
#[verifier::rlimit(100)]
proof fn lemma_unlock_shape(w0: Seq<bool>, w1: Seq<bool>, size: int, dx: int, dy: int)
    requires
        size >= 1,
        in_grid(size, dx, dy),
        w0.len() == 4 * size * size,
        w1 == unlock_writes(w0, size, dx, dy),
    ensures
        unlocked_from(w0, w1, size, dx, dy),
        door_unlocked(w1, size, dx, dy),
{
    lemma_cell_index_bounds(size, dx, dy);
    assert forall|s: int| 0 <= s < 4 implies 0 <= #[trigger] flag_of(size, dx, dy, s) < 4 * size
        * size by {
        lemma_flag_bounds(size, dx, dy, s);
    };
    if dy - 1 >= 0 {
        lemma_flag_bounds(size, dx, dy - 1, 2);
        lemma_cell_index_distinct(size, dx, dy - 1, dx, dy);
    }
    if dx + 1 < size {
        lemma_flag_bounds(size, dx + 1, dy, 3);
        lemma_cell_index_distinct(size, dx + 1, dy, dx, dy);
    }
    if dy + 1 < size {
        lemma_flag_bounds(size, dx, dy + 1, 0);
        lemma_cell_index_distinct(size, dx, dy + 1, dx, dy);
    }
    if dx - 1 >= 0 {
        lemma_flag_bounds(size, dx - 1, dy, 1);
        lemma_cell_index_distinct(size, dx - 1, dy, dx, dy);
    }
    assert forall|i: int| 0 <= i < w0.len() implies (#[trigger] w1[i]) == (w0[i]
        && !door_zone_flag(size, dx, dy, i)) by {
        if door_zone_flag(size, dx, dy, i) {
            assert(!w1[i]);
        } else {
            assert(w1[i] == w0[i]) by {
                lemma_zone_flag_forms(size, dx, dy, i);
            };
        }
    };
}

/// Every index written by the unlock is a door-zone flag, and distinct
/// indices of distinct cells or sides never collide.
proof fn lemma_zone_flag_forms(size: int, dx: int, dy: int, i: int)
    requires
        size >= 1,
        in_grid(size, dx, dy),
        !door_zone_flag(size, dx, dy, i),
    ensures
        i != flag_of(size, dx, dy, 0),
        i != flag_of(size, dx, dy, 1),
        i != flag_of(size, dx, dy, 2),
        i != flag_of(size, dx, dy, 3),
        dy - 1 >= 0 ==> i != wall_flag(size, dx, dy - 1, dx, dy),
        dx + 1 < size ==> i != wall_flag(size, dx + 1, dy, dx, dy),
        dy + 1 < size ==> i != wall_flag(size, dx, dy + 1, dx, dy),
        dx - 1 >= 0 ==> i != wall_flag(size, dx - 1, dy, dx, dy),
{
}

/// The wall set produced by the unlock's sequence of updates.
pub open spec fn unlock_writes(w0: Seq<bool>, size: int, dx: int, dy: int) -> Seq<bool> {
    let a = w0.update(flag_of(size, dx, dy, 0), false).update(flag_of(size, dx, dy, 1), false)
        .update(flag_of(size, dx, dy, 2), false).update(flag_of(size, dx, dy, 3), false);
    let b = if dy - 1 >= 0 {
        a.update(flag_of(size, dx, dy - 1, 2), false)
    } else {
        a
    };
    let c = if dx + 1 < size {
        b.update(flag_of(size, dx + 1, dy, 3), false)
    } else {
        b
    };
    let d = if dy + 1 < size {
        c.update(flag_of(size, dx, dy + 1, 0), false)
    } else {
        c
    };
    if dx - 1 >= 0 {
        d.update(flag_of(size, dx - 1, dy, 1), false)
    } else {
        d
    }
}

/// Unlocking the door keeps the maze well formed: walls only open, the
/// pairing invariant survives, and connectivity can only improve.
#[verifier::rlimit(100)]
proof fn lemma_unlock_preserves_wf(m0: Maze, m1: Maze)
    requires
        m0.wf(),
        m1.size == m0.size,
        m1.start == m0.start,
        m1.key == m0.key,
        m1.door == m0.door,
        unlocked_from(m0.walls@, m1.walls@, m0.size as int, m0.door.0 as int, m0.door.1 as int),
    ensures
        m1.wf(),
{
    let size = m0.size as int;
    let dx = m0.door.0 as int;
    let dy = m0.door.1 as int;
    let w0 = m0.walls@;
    let w1 = m1.walls@;
    assert(opens_superset(w0, w1));
    assert forall|x1: int, y1: int, x2: int, y2: int|
        in_grid(size, x1, y1) && in_grid(size, x2, y2) && adjacent(x1, y1, x2, y2) implies w1[
        #[trigger] wall_flag(size, x1, y1, x2, y2)
    ] == w1[wall_flag(size, x2, y2, x1, y1)] by {
        lemma_side_toward_neighbor(x1, y1, x2, y2);
        lemma_side_toward_neighbor(x2, y2, x1, y1);
        lemma_flag_bounds(size, x1, y1, side_toward(x1, y1, x2, y2));
        lemma_flag_bounds(size, x2, y2, side_toward(x2, y2, x1, y1));
        let fab = wall_flag(size, x1, y1, x2, y2);
        let fba = wall_flag(size, x2, y2, x1, y1);
        assert(w1[fab] == (w0[fab] && !door_zone_flag(size, dx, dy, fab)));
        assert(w1[fba] == (w0[fba] && !door_zone_flag(size, dx, dy, fba)));
        lemma_zone_pairing(size, dx, dy, x1, y1, x2, y2);
    };
    assert forall|x: int, y: int|
        in_grid(size, x, y) implies connected(
        w1,
        size,
        m1.start.0 as int,
        m1.start.1 as int,
        x,
        y,
    ) by {
        lemma_connected_monotone(w0, w1, size, m0.start.0 as int, m0.start.1 as int, x, y);
    };
}

/// Facing flags of an adjacent pair are in the door zone together or
/// not at all.
proof fn lemma_zone_pairing(size: int, dx: int, dy: int, x1: int, y1: int, x2: int, y2: int)
    requires
        size >= 1,
        in_grid(size, dx, dy),
        in_grid(size, x1, y1),
        in_grid(size, x2, y2),
        adjacent(x1, y1, x2, y2),
    ensures
        door_zone_flag(size, dx, dy, wall_flag(size, x1, y1, x2, y2)) == door_zone_flag(
            size,
            dx,
            dy,
            wall_flag(size, x2, y2, x1, y1),
        ),
{
    lemma_side_toward_neighbor(x1, y1, x2, y2);
    lemma_side_toward_neighbor(x2, y2, x1, y1);
    let fab = wall_flag(size, x1, y1, x2, y2);
    let fba = wall_flag(size, x2, y2, x1, y1);
    if door_zone_flag(size, dx, dy, fab) {
        lemma_zone_member(size, dx, dy, x1, y1, x2, y2);
    }
    if door_zone_flag(size, dx, dy, fba) {
        lemma_zone_member(size, dx, dy, x2, y2, x1, y1);
    }
}

/// If the flag of `(x1, y1)` toward `(x2, y2)` is in the door zone, one
/// of the two cells is the door, and then the reverse flag is in the
/// zone too.
#[verifier::rlimit(100)]
proof fn lemma_zone_member(size: int, dx: int, dy: int, x1: int, y1: int, x2: int, y2: int)
    requires
        size >= 1,
        in_grid(size, dx, dy),
        in_grid(size, x1, y1),
        in_grid(size, x2, y2),
        adjacent(x1, y1, x2, y2),
        door_zone_flag(size, dx, dy, wall_flag(size, x1, y1, x2, y2)),
    ensures
        door_zone_flag(size, dx, dy, wall_flag(size, x2, y2, x1, y1)),
{
    let s1 = side_toward(x1, y1, x2, y2);
    lemma_side_toward_neighbor(x1, y1, x2, y2);
    lemma_side_toward_neighbor(x2, y2, x1, y1);
    let f = wall_flag(size, x1, y1, x2, y2);
    if f == flag_of(size, dx, dy, 0) {
        lemma_flag_injective(size, x1, y1, s1, dx, dy, 0);
    } else if f == flag_of(size, dx, dy, 1) {
        lemma_flag_injective(size, x1, y1, s1, dx, dy, 1);
    } else if f == flag_of(size, dx, dy, 2) {
        lemma_flag_injective(size, x1, y1, s1, dx, dy, 2);
    } else if f == flag_of(size, dx, dy, 3) {
        lemma_flag_injective(size, x1, y1, s1, dx, dy, 3);
    } else if dy - 1 >= 0 && f == flag_of(size, dx, dy - 1, 2) {
        lemma_flag_injective(size, x1, y1, s1, dx, dy - 1, 2);
    } else if dx + 1 < size && f == flag_of(size, dx + 1, dy, 3) {
        lemma_flag_injective(size, x1, y1, s1, dx + 1, dy, 3);
    } else if dy + 1 < size && f == flag_of(size, dx, dy + 1, 0) {
        lemma_flag_injective(size, x1, y1, s1, dx, dy + 1, 0);
    } else {
        lemma_flag_injective(size, x1, y1, s1, dx - 1, dy, 1);
    }
}

/// Unlocking an already unlocked door changes nothing: the one
/// sanctioned in-place wall mutation is idempotent.
pub proof fn lemma_unlock_idempotent(w0: Seq<bool>, w1: Seq<bool>, size: int, dx: int, dy: int)
    requires
        door_unlocked(w0, size, dx, dy),
        unlocked_from(w0, w1, size, dx, dy),
    ensures
        w1 == w0,
{
    assert forall|i: int| 0 <= i < w0.len() implies w1[i] == w0[i] by {
        if door_zone_flag(size, dx, dy, i) {
            assert(!w0[i]);
        }
    };
    assert(w1 =~= w0);
}

/// There is always a cell at Manhattan distance two from any cell of a
/// grid with side two or more: step away once in each axis.
proof fn lemma_far_cell(size: int, ax: int, ay: int) -> (r: (int, int))
    requires
        size >= 2,
        in_grid(size, ax, ay),
    ensures
        in_grid(size, r.0, r.1),
        manhattan(ax, ay, r.0, r.1) == 2,
{
    let fx = if ax == 0 {
        ax + 1
    } else {
        ax - 1
    };
    let fy = if ay == 0 {
        ay + 1
    } else {
        ay - 1
    };
    (fx, fy)
}


/// The marker layout every generated maze has: on grids of side two or
/// more, an open start-to-door path of length at least three holds the
/// key strictly inside it; on the one-cell grid the three markers
/// coincide.
pub open spec fn generated_layout(m: Maze) -> bool {
    &&& (m.size >= 2 ==> exists|p: Seq<(int, int)>|
        is_path(
            m.walls@,
            m.size as int,
            p,
            m.start.0 as int,
            m.start.1 as int,
            m.door.0 as int,
            m.door.1 as int,
        ) && p.len() >= 3 && (exists|k: int|
            0 < k < p.len() - 1 && p[k] == (m.key.0 as int, m.key.1 as int)))
    &&& (m.size == 1 ==> m.start == m.key && m.key == m.door)
}

/// Whether some open path of at most `d` steps joins the two cells.
pub open spec fn path_within(
    w: Seq<bool>,
    size: int,
    ax: int,
    ay: int,
    bx: int,
    by: int,
    d: int,
) -> bool {
    exists|p: Seq<(int, int)>| is_path(w, size, p, ax, ay, bx, by) && p.len() - 1 <= d
}

/// The door sits at the maximal shortest-path distance from the start:
/// some step count is exactly the start-to-door shortest distance, and
/// every cell of the grid lies within that many steps of the start.
/// This is what the breadth-first double sweep buys.
pub open spec fn door_farthest(m: Maze) -> bool {
    exists|dd: int|
        {
            &&& 0 <= dd
            &&& #[trigger] path_within(
                m.walls@,
                m.size as int,
                m.start.0 as int,
                m.start.1 as int,
                m.door.0 as int,
                m.door.1 as int,
                dd,
            )
            &&& !path_within(
                m.walls@,
                m.size as int,
                m.start.0 as int,
                m.start.1 as int,
                m.door.0 as int,
                m.door.1 as int,
                dd - 1,
            )
            &&& forall|x: int, y: int|
                in_grid(m.size as int, x, y) ==> #[trigger] path_within(
                    m.walls@,
                    m.size as int,
                    m.start.0 as int,
                    m.start.1 as int,
                    x,
                    y,
                    dd,
                )
        }
}

/// What holds of every maze the generators hand out, and what a fresh
/// maze must be replaced with: well-formed, closed along the border,
/// exactly `2 * (n * n - 1)` open flags (a spanning tree's passages,
/// two flags each), the marker layout above, and the door at maximal
/// distance from the start.
pub open spec fn fresh_maze(m: Maze) -> bool {
    &&& m.wf()
    &&& border_walls_closed(m.walls@, m.size as int)
    &&& open_flag_count(m.walls@) == 2 * (m.size * m.size - 1)
    &&& generated_layout(m)
    &&& door_farthest(m)
}

/// Generates a maze for the given grid size: a carved spanning tree plus
/// the start, key and door markers.
///
/// The start and door are placed by a breadth-first double sweep: the
/// start is a cell of maximal distance from a random cell, the door a
/// cell of maximal distance from the start.  The key is a strictly
/// interior cell of the rebuilt start-to-door path on grids of two or
/// more, so the three markers are pairwise distinct; on the one-cell
/// grid all three coincide.
#[verifier::rlimit(100)]
pub fn generate(size: usize, rng: &mut Rng) -> (m: Maze)
    requires
        1 <= size,
        4 * size * size <= usize::MAX,
    ensures
        m.size == size,
        fresh_maze(m),
{
    let ghost sz = size as int;
    proof {
        assert(size * size <= 4 * size * size && 4 * (size * size) == 4 * size * size)
            by (nonlinear_arith)
            requires
                size >= 1,
        ;
    }
    let r0x = rng.next_below(size);
    let r0y = rng.next_below(size);
    let walls = carve(size, rng, r0x, r0y);
    proof {
        lemma_connected_all_pairs(walls@, sz, r0x as int, r0y as int);
    }
    let sweep1 = crate::distance::bfs(size, &walls, r0x, r0y);
    let dist1 = sweep1.0;
    let ai = crate::distance::furthest_cell(size, &dist1);
    let ax = ai % size;
    let ay = ai / size;
    proof {
        lemma_index_coords(sz, ai as int);
    }
    let sweep2 = crate::distance::bfs(size, &walls, ax, ay);
    let dist2 = sweep2.0;
    let par2 = sweep2.1;
    let bi = crate::distance::furthest_cell(size, &dist2);
    let bx = bi % size;
    let by = bi / size;
    proof {
        lemma_index_coords(sz, bi as int);
    }
    let path = crate::distance::trace_path(size, &walls, &dist2, &par2, ax, ay, bx, by);
    proof {
        if size >= 2 {
            let far = lemma_far_cell(sz, ax as int, ay as int);
            lemma_cell_index_bounds(sz, far.0, far.1);
            let fi = cell_index(sz, far.0, far.1);
            lemma_cell_index_coords(sz, far.0, far.1);
            assert((dist2@[fi] as int) >= manhattan(ax as int, ay as int, far.0, far.1));
            assert((dist2@[fi] as int) <= (dist2@[bi as int] as int));
            assert((dist2@[bi as int] as int) >= 2);
        }
    }
    let picked: ((usize, usize), Ghost<int>) = if path.len() >= 3 {
        let k = 1 + rng.next_below(path.len() - 2);
        (path[k], Ghost(k as int))
    } else {
        (path[0], Ghost(0int))
    };
    let key_cell = picked.0;
    let ghost gk = picked.1@;
    let m = Maze {
        size,
        walls,
        start: (ax, ay),
        key: key_cell,
        door: (bx, by),
    };
    proof {
        lemma_generate_post(m, path@, dist2@, par2@, gk);
        lemma_index_coords(sz, bi as int);
        assert(cell_index(sz, bx as int, by as int) == bi as int);
        lemma_generate_farthest(m, path@, dist2@, par2@, bi as int);
    }
    m
}

/// The door of a generated maze lies at the maximal shortest-path
/// distance from the start: the second sweep's distance map is exact
/// and the door maximizes it.
#[verifier::rlimit(100)]
proof fn lemma_generate_farthest(
    m: Maze,
    p: Seq<(usize, usize)>,
    dist2: Seq<usize>,
    parent2: Seq<usize>,
    bi: int,
)
    requires
        1 <= m.size,
        in_grid(m.size as int, m.start.0 as int, m.start.1 as int),
        in_grid(m.size as int, m.door.0 as int, m.door.1 as int),
        bfs_post(m.walls@, m.size as int, m.start.0 as int, m.start.1 as int, dist2, parent2),
        0 <= bi < m.size * m.size,
        bi == cell_index(m.size as int, m.door.0 as int, m.door.1 as int),
        forall|i: int|
            0 <= i < m.size * m.size ==> ((#[trigger] dist2[i]) as int) <= dist2[bi] as int,
        is_path(
            m.walls@,
            m.size as int,
            cells_view(p),
            m.start.0 as int,
            m.start.1 as int,
            m.door.0 as int,
            m.door.1 as int,
        ),
        p.len() == (dist2[bi] as int) + 1,
    ensures
        door_farthest(m),
{
    let size = m.size as int;
    let w = m.walls@;
    let sx = m.start.0 as int;
    let sy = m.start.1 as int;
    let bx = m.door.0 as int;
    let by = m.door.1 as int;
    let dd = dist2[bi] as int;
    assert(cells_view(p).len() == p.len());
    assert(path_within(w, size, sx, sy, bx, by, dd)) by {
        assert(is_path(w, size, cells_view(p), sx, sy, bx, by) && cells_view(p).len() - 1 <= dd);
    };
    assert(!path_within(w, size, sx, sy, bx, by, dd - 1)) by {
        if path_within(w, size, sx, sy, bx, by, dd - 1) {
            let p2 = choose|p2: Seq<(int, int)>|
                is_path(w, size, p2, sx, sy, bx, by) && p2.len() - 1 <= dd - 1;
            assert(is_path(w, size, p2, sx, sy, bx, by));
            assert((dist2[cell_index(size, bx, by)] as int) <= p2.len() - 1);
        }
    };
    assert forall|x: int, y: int| in_grid(size, x, y) implies #[trigger] path_within(
        w,
        size,
        sx,
        sy,
        x,
        y,
        dd,
    ) by {
        lemma_cell_index_bounds(size, x, y);
        let ii = cell_index(size, x, y);
        assert(has_exact_path(w, size, sx, sy, ii, dist2[ii] as int));
        assert((dist2[ii] as int) <= dd);
        lemma_cell_index_coords(size, x, y);
        let p3 = choose|p3: Seq<(int, int)>|
            is_path(w, size, p3, sx, sy, index_x(size, ii), index_y(size, ii)) && p3.len() == (
            dist2[ii] as int) + 1;
        assert(is_path(w, size, p3, sx, sy, x, y) && p3.len() - 1 <= dd);
    };
    assert(door_farthest(m)) by {
        assert(0 <= dd && path_within(w, size, sx, sy, bx, by, dd) && !path_within(
            w,
            size,
            sx,
            sy,
            bx,
            by,
            dd - 1,
        ) && (forall|x: int, y: int|
            in_grid(size, x, y) ==> #[trigger] path_within(w, size, sx, sy, x, y, dd)));
    };
}

/// Collects the generator's postconditions: well-formedness, distinct
/// markers on grids of two or more, and the start-to-door path with the
/// key strictly inside it.
#[verifier::rlimit(100)]
proof fn lemma_generate_post(
    m: Maze,
    p: Seq<(usize, usize)>,
    dist2: Seq<usize>,
    parent2: Seq<usize>,
    k: int,
)
    requires
        1 <= m.size,
        4 * m.size * m.size <= usize::MAX,
        walls_len_ok(m.walls@, m.size as int),
        walls_symmetric(m.walls@, m.size as int),
        in_grid(m.size as int, m.start.0 as int, m.start.1 as int),
        in_grid(m.size as int, m.door.0 as int, m.door.1 as int),
        forall|x: int, y: int|
            in_grid(m.size as int, x, y) ==> connected(
                m.walls@,
                m.size as int,
                m.start.0 as int,
                m.start.1 as int,
                x,
                y,
            ),
        bfs_post(m.walls@, m.size as int, m.start.0 as int, m.start.1 as int, dist2, parent2),
        is_path(
            m.walls@,
            m.size as int,
            cells_view(p),
            m.start.0 as int,
            m.start.1 as int,
            m.door.0 as int,
            m.door.1 as int,
        ),
        p.len() == (dist2[cell_index(m.size as int, m.door.0 as int, m.door.1 as int)] as int) + 1,
        forall|j: int|
            0 <= j < p.len() ==> in_grid(m.size as int, (#[trigger] p[j]).0 as int, p[j].1 as int)
                && (dist2[cell_index(m.size as int, p[j].0 as int, p[j].1 as int)] as int) == j,
        m.size >= 2 ==> p.len() >= 3 && 0 < k < p.len() - 1 && m.key == p[k],
        m.size == 1 ==> m.key == p[0],
    ensures
        m.wf(),
        m.size >= 2 ==> exists|q: Seq<(int, int)>|
            is_path(
                m.walls@,
                m.size as int,
                q,
                m.start.0 as int,
                m.start.1 as int,
                m.door.0 as int,
                m.door.1 as int,
            ) && q.len() >= 3 && (exists|j: int|
                0 < j < q.len() - 1 && q[j] == (m.key.0 as int, m.key.1 as int)),
        m.size == 1 ==> m.start == m.key && m.key == m.door,
{
    let size = m.size as int;
    let si = cell_index(size, m.start.0 as int, m.start.1 as int);
    lemma_cell_index_bounds(size, m.start.0 as int, m.start.1 as int);
    lemma_cell_index_bounds(size, m.door.0 as int, m.door.1 as int);
    assert(in_grid(size, m.key.0 as int, m.key.1 as int)) by {
        if m.size >= 2 {
            assert(p[k] == m.key);
        } else {
            assert(p[0] == m.key);
        }
    };
    if m.size >= 2 {
        // the markers sit at pairwise different distances from the start
        assert(p[0] == m.start) by {
            assert(cells_view(p)[0] == (m.start.0 as int, m.start.1 as int));
        };
        assert((dist2[cell_index(size, m.start.0 as int, m.start.1 as int)] as int) == 0);
        assert((dist2[cell_index(size, m.key.0 as int, m.key.1 as int)] as int) == k);
        assert((dist2[cell_index(size, m.door.0 as int, m.door.1 as int)] as int) == p.len() - 1);
        assert(m.start != m.key);
        assert(m.key != m.door);
        assert(m.start != m.door);
        let q = cells_view(p);
        assert(q.len() == p.len());
        assert(q[k] == (m.key.0 as int, m.key.1 as int));
        assert(is_path(
            m.walls@,
            size,
            q,
            m.start.0 as int,
            m.start.1 as int,
            m.door.0 as int,
            m.door.1 as int,
        ) && q.len() >= 3 && (exists|j: int|
            0 < j < q.len() - 1 && q[j] == (m.key.0 as int, m.key.1 as int)));
    } else {
        assert(m.start.0 as int == 0 && m.start.1 as int == 0);
        assert(m.door.0 as int == 0 && m.door.1 as int == 0);
        assert(p[0] == m.start) by {
            assert(cells_view(p)[0] == (m.start.0 as int, m.start.1 as int));
        };
        assert(m.start == m.key && m.key == m.door);
    }
}

/// Wall symmetry: in every well-formed maze, the passage between two
/// adjacent cells reads the same from either side; there are no one-way
/// walls.
pub proof fn lemma_wall_symmetry(m: Maze, x1: int, y1: int, x2: int, y2: int)
    requires
        m.wf(),
        in_grid(m.size as int, x1, y1),
        in_grid(m.size as int, x2, y2),
        adjacent(x1, y1, x2, y2),
    ensures
        passage_open(m.walls@, m.size as int, x1, y1, x2, y2) == passage_open(
            m.walls@,
            m.size as int,
            x2,
            y2,
            x1,
            y1,
        ),
{
    let size = m.size as int;
    lemma_side_toward_neighbor(x1, y1, x2, y2);
    lemma_side_toward_neighbor(x2, y2, x1, y1);
    lemma_flag_bounds(size, x1, y1, side_toward(x1, y1, x2, y2));
    lemma_flag_bounds(size, x2, y2, side_toward(x2, y2, x1, y1));
    assert(m.walls@[wall_flag(size, x1, y1, x2, y2)] == m.walls@[wall_flag(size, x2, y2, x1, y1)]);
}

/// Connectivity: in every well-formed maze any two cells are joined by a
/// path of open passages.
pub proof fn lemma_maze_connected(m: Maze, x1: int, y1: int, x2: int, y2: int)
    requires
        m.wf(),
        in_grid(m.size as int, x1, y1),
        in_grid(m.size as int, x2, y2),
    ensures
        connected(m.walls@, m.size as int, x1, y1, x2, y2),
{
    lemma_connected_all_pairs(m.walls@, m.size as int, m.start.0 as int, m.start.1 as int);
}

} // verus!
