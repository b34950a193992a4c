//! The alternative spanning-tree carver: randomized Kruskal.
//!
//! Every grid edge is enumerated, shuffled, and offered to a disjoint-set
//! structure; exactly the edges whose `union` merges two sets have their
//! wall pair opened.  The result is in the same class as the
//! depth-first carver: a perfect maze, symmetric, closed at the border,
//! with `n * n - 1` open passages and every cell connected to every
//! other.

use vstd::prelude::*;
use crate::counting::lemma_open_flag_count_all_set;
use crate::counting::lemma_open_flag_count_clear;
use crate::counting::open_flag_count;
use crate::maze::fill_bools;
use crate::reach::connected;
use crate::reach::lemma_adjacent_closure_covers;
use crate::reach::lemma_connected_monotone;
use crate::reach::lemma_connected_refl;
use crate::reach::lemma_connected_step;
use crate::reach::lemma_connected_trans;
use crate::reach::opens_superset;
use crate::rng::Rng;
use crate::union_find::lemma_single_class;
use crate::union_find::UnionFind;
use crate::wall_model::adjacent;
use crate::wall_model::cell_index;
use crate::wall_model::cell_index_of;
use crate::wall_model::flag_of;
use crate::wall_model::in_grid;
use crate::wall_model::index_x;
use crate::wall_model::index_y;
use crate::wall_model::lemma_cell_index_bounds;
use crate::wall_model::lemma_cell_index_coords;
use crate::wall_model::lemma_flag_bounds;
use crate::wall_model::lemma_flag_injective;
use crate::wall_model::lemma_index_coords;
use crate::wall_model::lemma_side_toward_neighbor;
use crate::wall_model::lemma_wall_flag_pair_injective;
use crate::wall_model::neighbor_x;
use crate::wall_model::neighbor_y;
use crate::wall_model::passage_open;
use crate::wall_model::side_toward;
use crate::wall_model::wall_flag;
use crate::wall_model::wall_index;
use crate::wall_model::walls_len_ok;
use crate::wall_model::walls_symmetric;
use crate::wall_model::border_walls_closed;

verus! {

/// Whether an edge entry joins two adjacent grid cells.
spec fn edge_ok(e: (usize, usize, usize, usize), size: int) -> bool {
    &&& in_grid(size, e.0 as int, e.1 as int)
    &&& in_grid(size, e.2 as int, e.3 as int)
    &&& adjacent(e.0 as int, e.1 as int, e.2 as int, e.3 as int)
}

/// Whether the pair of adjacent cells occurs in the edge list, in
/// either orientation.
spec fn pair_listed(
    es: Seq<(usize, usize, usize, usize)>,
    x1: int,
    y1: int,
    x2: int,
    y2: int,
) -> bool {
    exists|k: int|
        0 <= k < es.len() && {
            let e = #[trigger] es[k];
            ((e.0 as int) == x1 && (e.1 as int) == y1 && (e.2 as int) == x2 && (e.3 as int) == y2)
                || ((e.0 as int) == x2 && (e.1 as int) == y2 && (e.2 as int) == x1 && (
            e.3 as int) == y1)
        }
}

/// All grid edges are listed.
spec fn all_pairs_listed(es: Seq<(usize, usize, usize, usize)>, size: int) -> bool {
    forall|x1: int, y1: int, x2: int, y2: int|
        in_grid(size, x1, y1) && in_grid(size, x2, y2) && adjacent(x1, y1, x2, y2)
            ==> #[trigger] pair_listed(es, x1, y1, x2, y2)
}

/// Listed pairs stay listed when the list only grows at the end.
proof fn lemma_listed_grow(
    pre: Seq<(usize, usize, usize, usize)>,
    post: Seq<(usize, usize, usize, usize)>,
)
    requires
        pre.len() <= post.len(),
        forall|k: int| 0 <= k < pre.len() ==> post[k] == pre[k],
    ensures
        forall|x1: int, y1: int, x2: int, y2: int|
            pair_listed(pre, x1, y1, x2, y2) ==> #[trigger] pair_listed(post, x1, y1, x2, y2),
{
    assert forall|x1: int, y1: int, x2: int, y2: int|
        pair_listed(pre, x1, y1, x2, y2) implies #[trigger] pair_listed(post, x1, y1, x2, y2) by {
        let k = choose|k: int|
            0 <= k < pre.len() && {
                let e = #[trigger] pre[k];
                ((e.0 as int) == x1 && (e.1 as int) == y1 && (e.2 as int) == x2 && (e.3 as int)
                    == y2) || ((e.0 as int) == x2 && (e.1 as int) == y2 && (e.2 as int) == x1 && (
                e.3 as int) == y1)
            };
        assert(post[k] == pre[k]);
    };
}

/// On a fully closed wall set of the right length, symmetry and the
/// border invariant hold.
proof fn lemma_closed_walls_shape(w: Seq<bool>, size: int)
    requires
        size >= 1,
        walls_len_ok(w, size),
        forall|i: int| 0 <= i < w.len() ==> w[i],
    ensures
        walls_symmetric(w, size),
        border_walls_closed(w, size),
{
    assert forall|x1: int, y1: int, x2: int, y2: int|
        in_grid(size, x1, y1) && in_grid(size, x2, y2) && adjacent(x1, y1, x2, y2) implies w[
        #[trigger] wall_flag(size, x1, y1, x2, y2)
    ] == w[wall_flag(size, x2, y2, x1, y1)] by {
        lemma_side_toward_neighbor(x1, y1, x2, y2);
        lemma_side_toward_neighbor(x2, y2, x1, y1);
        lemma_flag_bounds(size, x1, y1, side_toward(x1, y1, x2, y2));
        lemma_flag_bounds(size, x2, y2, side_toward(x2, y2, x1, y1));
    };
    assert forall|x: int, y: int, t: int|
        in_grid(size, x, y) && 0 <= t < 4 && !in_grid(size, neighbor_x(x, t), neighbor_y(y, t))
        implies w[#[trigger] flag_of(size, x, y, t)] by {
        lemma_flag_bounds(size, x, y, t);
    };
}

/// Every horizontal and vertical neighbor pair of the grid, in
/// row-major order of the north-western cell.
#[verifier::loop_isolation(false)]
#[verifier::rlimit(100)]
fn grid_edges(size: usize) -> (es: Vec<(usize, usize, usize, usize)>)
    requires
        1 <= size,
        4 * size * size <= usize::MAX,
    ensures
        forall|k: int| 0 <= k < es@.len() ==> edge_ok(#[trigger] es@[k], size as int),
        all_pairs_listed(es@, size as int),
{
    let mut es: Vec<(usize, usize, usize, usize)> = Vec::new();
    let mut y: usize = 0;
    while y < size
        invariant
            y <= size,
            forall|k: int| 0 <= k < es@.len() ==> edge_ok(#[trigger] es@[k], size as int),
            forall|cx: int, cy: int|
                0 <= cy < y && 0 <= cx < size - 1 ==> #[trigger] pair_listed(
                    es@,
                    cx,
                    cy,
                    cx + 1,
                    cy,
                ),
            forall|cx: int, cy: int|
                0 <= cy < y && 0 <= cx < size && cy < size - 1 ==> #[trigger] pair_listed(
                    es@,
                    cx,
                    cy,
                    cx,
                    cy + 1,
                ),
        decreases size - y,
    {
        let mut x: usize = 0;
        while x < size
            invariant
                x <= size,
                y < size,
                forall|k: int| 0 <= k < es@.len() ==> edge_ok(#[trigger] es@[k], size as int),
                forall|cx: int, cy: int|
                    0 <= cy < y && 0 <= cx < size - 1 ==> #[trigger] pair_listed(
                        es@,
                        cx,
                        cy,
                        cx + 1,
                        cy,
                    ),
                forall|cx: int, cy: int|
                    0 <= cy < y && 0 <= cx < size && cy < size - 1 ==> #[trigger] pair_listed(
                        es@,
                        cx,
                        cy,
                        cx,
                        cy + 1,
                    ),
                forall|cx: int|
                    0 <= cx < x && cx < size - 1 ==> #[trigger] pair_listed(
                        es@,
                        cx,
                        y as int,
                        cx + 1,
                        y as int,
                    ),
                forall|cx: int|
                    0 <= cx < x && (y as int) < size - 1 ==> #[trigger] pair_listed(
                        es@,
                        cx,
                        y as int,
                        cx,
                        y as int + 1,
                    ),
            decreases size - x,
        {
            let ghost pre = es@;
            if x + 1 < size {
                es.push((x, y, x + 1, y));
            }
            if y + 1 < size {
                es.push((x, y, x, y + 1));
            }
            proof {
                lemma_listed_grow(pre, es@);
                if x + 1 < size {
                    assert(es@[pre.len() as int] == (x, y, (x + 1) as usize, y));
                    assert(pair_listed(es@, x as int, y as int, x as int + 1, y as int));
                }
                if y + 1 < size {
                    let at = if x + 1 < size {
                        pre.len() as int + 1
                    } else {
                        pre.len() as int
                    };
                    assert(es@[at] == (x, y, x, (y + 1) as usize));
                    assert(pair_listed(es@, x as int, y as int, x as int, y as int + 1));
                }
            }
            x = x + 1;
        }
        y = y + 1;
    }
    proof {
        assert forall|x1: int, y1: int, x2: int, y2: int|
            in_grid(size as int, x1, y1) && in_grid(size as int, x2, y2) && adjacent(
                x1,
                y1,
                x2,
                y2,
            ) implies #[trigger] pair_listed(es@, x1, y1, x2, y2) by {
            if x2 == x1 + 1 {
                assert(pair_listed(es@, x1, y1, x1 + 1, y1));
            } else if x1 == x2 + 1 {
                assert(pair_listed(es@, x2, y2, x2 + 1, y2));
                let k = choose|k: int|
                    0 <= k < es@.len() && {
                        let e = #[trigger] es@[k];
                        ((e.0 as int) == x2 && (e.1 as int) == y2 && (e.2 as int) == x2 + 1 && (
                        e.3 as int) == y2) || ((e.0 as int) == x2 + 1 && (e.1 as int) == y2 && (
                        e.2 as int) == x2 && (e.3 as int) == y2)
                    };
                assert(pair_listed(es@, x1, y1, x2, y2));
            } else if y2 == y1 + 1 {
                assert(pair_listed(es@, x1, y1, x1, y1 + 1));
            } else {
                assert(pair_listed(es@, x2, y2, x2, y2 + 1));
                let k = choose|k: int|
                    0 <= k < es@.len() && {
                        let e = #[trigger] es@[k];
                        ((e.0 as int) == x2 && (e.1 as int) == y2 && (e.2 as int) == x2 && (
                        e.3 as int) == y2 + 1) || ((e.0 as int) == x2 && (e.1 as int) == y2 + 1 && (
                        e.2 as int) == x2 && (e.3 as int) == y2)
                    };
                assert(pair_listed(es@, x1, y1, x2, y2));
            }
        };
    }
    es
}

/// A Fisher-Yates shuffle of the edge list; which edges are listed does
/// not change.
#[verifier::loop_isolation(false)]
#[verifier::rlimit(100)]
fn shuffle_edges(es: &mut Vec<(usize, usize, usize, usize)>, rng: &mut Rng, Ghost(size): Ghost<int>)
    requires
        forall|k: int| 0 <= k < old(es)@.len() ==> edge_ok(#[trigger] old(es)@[k], size),
        all_pairs_listed(old(es)@, size),
    ensures
        final(es)@.len() == old(es)@.len(),
        forall|k: int| 0 <= k < final(es)@.len() ==> edge_ok(#[trigger] final(es)@[k], size),
        all_pairs_listed(final(es)@, size),
{
    let n = es.len();
    if n <= 1 {
        return ;
    }
    let mut i: usize = n - 1;
    while i >= 1
        invariant
            i <= n - 1,
            es@.len() == n,
            forall|k: int| 0 <= k < es@.len() ==> edge_ok(#[trigger] es@[k], size),
            all_pairs_listed(es@, size),
        decreases i,
    {
        let j = rng.next_below(i + 1);
        let a = es[i];
        let b = es[j];
        let ghost pre = es@;
        es.set(i, b);
        es.set(j, a);
        proof {
            assert forall|x1: int, y1: int, x2: int, y2: int|
                in_grid(size, x1, y1) && in_grid(size, x2, y2) && adjacent(x1, y1, x2, y2)
                implies #[trigger] pair_listed(es@, x1, y1, x2, y2) by {
                assert(pair_listed(pre, x1, y1, x2, y2));
                let k = choose|k: int|
                    0 <= k < pre.len() && {
                        let e = #[trigger] pre[k];
                        ((e.0 as int) == x1 && (e.1 as int) == y1 && (e.2 as int) == x2 && (
                        e.3 as int) == y2) || ((e.0 as int) == x2 && (e.1 as int) == y2 && (
                        e.2 as int) == x1 && (e.3 as int) == y1)
                    };
                if k == i as int {
                    assert(es@[j as int] == pre[i as int]);
                } else if k == j as int {
                    assert(es@[i as int] == pre[j as int]);
                } else {
                    assert(es@[k] == pre[k]);
                }
            };
        }
        i = i - 1;
    }
}

/// Opening a facing pair of flags keeps the wall set symmetric and the
/// border closed.
#[verifier::rlimit(100)]
proof fn lemma_open_pair_shape(
    w0: Seq<bool>,
    w1: Seq<bool>,
    size: int,
    cx: int,
    cy: int,
    nx: int,
    ny: int,
)
    requires
        size >= 1,
        in_grid(size, cx, cy),
        in_grid(size, nx, ny),
        adjacent(cx, cy, nx, ny),
        walls_len_ok(w0, size),
        walls_symmetric(w0, size),
        border_walls_closed(w0, size),
        w1 == w0.update(wall_flag(size, cx, cy, nx, ny), false).update(
            wall_flag(size, nx, ny, cx, cy),
            false,
        ),
    ensures
        walls_len_ok(w1, size),
        walls_symmetric(w1, size),
        border_walls_closed(w1, size),
        opens_superset(w0, w1),
        passage_open(w1, size, cx, cy, nx, ny),
        passage_open(w1, size, nx, ny, cx, cy),
{
    let f1 = wall_flag(size, cx, cy, nx, ny);
    let f2 = wall_flag(size, nx, ny, cx, cy);
    lemma_side_toward_neighbor(cx, cy, nx, ny);
    lemma_side_toward_neighbor(nx, ny, cx, cy);
    lemma_flag_bounds(size, cx, cy, side_toward(cx, cy, nx, ny));
    lemma_flag_bounds(size, nx, ny, side_toward(nx, ny, cx, cy));
    assert forall|x1: int, y1: int, x2: int, y2: int|
        in_grid(size, x1, y1) && in_grid(size, x2, y2) && adjacent(x1, y1, x2, y2) implies w1[
        #[trigger] wall_flag(size, x1, y1, x2, y2)
    ] == w1[wall_flag(size, x2, y2, x1, y1)] by {
        let fab = wall_flag(size, x1, y1, x2, y2);
        let fba = wall_flag(size, x2, y2, x1, y1);
        lemma_side_toward_neighbor(x1, y1, x2, y2);
        lemma_side_toward_neighbor(x2, y2, x1, y1);
        lemma_flag_bounds(size, x1, y1, side_toward(x1, y1, x2, y2));
        lemma_flag_bounds(size, x2, y2, side_toward(x2, y2, x1, y1));
        if fab == f1 || fab == f2 || fba == f1 || fba == f2 {
            if fab == f1 {
                lemma_wall_flag_pair_injective(size, x1, y1, x2, y2, cx, cy, nx, ny);
            } else if fab == f2 {
                lemma_wall_flag_pair_injective(size, x1, y1, x2, y2, nx, ny, cx, cy);
            } else if fba == f1 {
                lemma_wall_flag_pair_injective(size, x2, y2, x1, y1, cx, cy, nx, ny);
            } else {
                lemma_wall_flag_pair_injective(size, x2, y2, x1, y1, nx, ny, cx, cy);
            }
        }
    };
    assert forall|x: int, y: int, s: int|
        in_grid(size, x, y) && 0 <= s < 4 && !in_grid(size, neighbor_x(x, s), neighbor_y(y, s))
        implies w1[#[trigger] flag_of(size, x, y, s)] by {
        lemma_flag_bounds(size, x, y, s);
        if flag_of(size, x, y, s) == f1 {
            lemma_flag_injective(size, x, y, s, cx, cy, side_toward(cx, cy, nx, ny));
        } else if flag_of(size, x, y, s) == f2 {
            lemma_flag_injective(size, x, y, s, nx, ny, side_toward(nx, ny, cx, cy));
        }
    };
    assert(!w1[f1] && !w1[f2]);
}

/// Every pair of cells in one disjoint set is joined by open passages.
spec fn kruskal_conn_inv(w: Seq<bool>, uf: UnionFind, size: int) -> bool {
    forall|i: int, j: int|
        0 <= i < size * size && 0 <= j < size * size && #[trigger] uf.same_set_spec(i, j)
            ==> connected(
            w,
            size,
            index_x(size, i),
            index_y(size, i),
            index_x(size, j),
            index_y(size, j),
        )
}

/// Every open passage joins cells of one disjoint set.
spec fn kruskal_open_inv(w: Seq<bool>, uf: UnionFind, size: int) -> bool {
    forall|x1: int, y1: int, x2: int, y2: int|
        in_grid(size, x1, y1) && in_grid(size, x2, y2) && adjacent(x1, y1, x2, y2) && !w[
            #[trigger] wall_flag(size, x1, y1, x2, y2)
        ] ==> uf.same_set_spec(cell_index(size, x1, y1), cell_index(size, x2, y2))
}

/// Merging across one open edge keeps both invariants.
#[verifier::rlimit(100)]
proof fn lemma_kruskal_step(
    w0: Seq<bool>,
    w1: Seq<bool>,
    uf0: UnionFind,
    uf1: UnionFind,
    size: int,
    ax: int,
    ay: int,
    bx: int,
    by: int,
)
    requires
        size >= 1,
        in_grid(size, ax, ay),
        in_grid(size, bx, by),
        adjacent(ax, ay, bx, by),
        walls_len_ok(w0, size),
        opens_superset(w0, w1),
        w1.len() == w0.len(),
        passage_open(w1, size, ax, ay, bx, by),
        passage_open(w1, size, bx, by, ax, ay),
        uf0.spec_len() == size * size,
        uf1.spec_len() == size * size,
        forall|i: int, j: int|
            0 <= i < size * size && 0 <= j < size * size ==> (#[trigger] uf1.same_set_spec(i, j)
                <==> (uf0.same_set_spec(i, j) || (uf0.same_set_spec(i, cell_index(size, ax, ay))
                && uf0.same_set_spec(j, cell_index(size, bx, by))) || (uf0.same_set_spec(
                i,
                cell_index(size, bx, by),
            ) && uf0.same_set_spec(j, cell_index(size, ax, ay))))),
        kruskal_conn_inv(w0, uf0, size),
    ensures
        kruskal_conn_inv(w1, uf1, size),
{
    let ia = cell_index(size, ax, ay);
    let ib = cell_index(size, bx, by);
    lemma_cell_index_bounds(size, ax, ay);
    lemma_cell_index_bounds(size, bx, by);
    lemma_cell_index_coords(size, ax, ay);
    lemma_cell_index_coords(size, bx, by);
    assert forall|i: int, j: int|
        0 <= i < size * size && 0 <= j < size * size && #[trigger] uf1.same_set_spec(i, j) implies connected(
        w1,
        size,
        index_x(size, i),
        index_y(size, i),
        index_x(size, j),
        index_y(size, j),
    ) by {
        lemma_index_coords(size, i);
        lemma_index_coords(size, j);
        let xi = index_x(size, i);
        let yi = index_y(size, i);
        let xj = index_x(size, j);
        let yj = index_y(size, j);
        if uf0.same_set_spec(i, j) {
            lemma_connected_monotone(w0, w1, size, xi, yi, xj, yj);
        } else if uf0.same_set_spec(i, ia) && uf0.same_set_spec(j, ib) {
            lemma_connected_monotone(w0, w1, size, xi, yi, ax, ay);
            lemma_connected_step(w1, size, xi, yi, ax, ay, bx, by);
            assert(uf0.same_set_spec(ib, j));
            lemma_connected_monotone(w0, w1, size, bx, by, xj, yj);
            lemma_connected_trans(w1, size, xi, yi, bx, by, xj, yj);
        } else {
            assert(uf0.same_set_spec(i, ib) && uf0.same_set_spec(j, ia));
            lemma_connected_monotone(w0, w1, size, xi, yi, bx, by);
            lemma_connected_step(w1, size, xi, yi, bx, by, ax, ay);
            assert(uf0.same_set_spec(ia, j));
            lemma_connected_monotone(w0, w1, size, ax, ay, xj, yj);
            lemma_connected_trans(w1, size, xi, yi, ax, ay, xj, yj);
        }
    };
}

/// Carves a perfect maze by randomized Kruskal: the spanning-tree edges
/// are exactly those whose union call merges two components.
#[verifier::loop_isolation(false)]
#[verifier::rlimit(100)]
pub fn carve_kruskal(size: usize, rng: &mut Rng) -> (w: Vec<bool>)
    requires
        1 <= size,
        4 * size * size <= usize::MAX,
    ensures
        walls_len_ok(w@, size as int),
        walls_symmetric(w@, size as int),
        border_walls_closed(w@, size as int),
        open_flag_count(w@) == 2 * (size * size - 1),
        forall|x: int, y: int|
            in_grid(size as int, x, y) ==> connected(w@, size as int, 0, 0, x, y),
{
    let ghost sz = size as int;
    proof {
        assert(size * size <= 4 * size * size && 4 * (size * size) == 4 * size * size)
            by (nonlinear_arith)
            requires
                size >= 1,
        ;
    }
    let total = size * size;
    let mut edges = grid_edges(size);
    shuffle_edges(&mut edges, rng, Ghost(sz));
    let mut walls = fill_bools(4 * total, true);
    let mut uf = UnionFind::new(total);
    let mut merges: usize = 0;
    proof {
        lemma_open_flag_count_all_set(walls@);
        lemma_closed_walls_shape(walls@, sz);
        assert(kruskal_open_inv(walls@, uf, sz)) by {
            assert forall|x1: int, y1: int, x2: int, y2: int|
                in_grid(sz, x1, y1) && in_grid(sz, x2, y2) && adjacent(x1, y1, x2, y2) && !walls@[
                #[trigger] wall_flag(sz, x1, y1, x2, y2)
            ] implies uf.same_set_spec(cell_index(sz, x1, y1), cell_index(sz, x2, y2)) by {
                lemma_side_toward_neighbor(x1, y1, x2, y2);
                lemma_flag_bounds(sz, x1, y1, side_toward(x1, y1, x2, y2));
            };
        };
        assert(kruskal_conn_inv(walls@, uf, sz)) by {
            assert forall|i: int, j: int|
                0 <= i < sz * sz && 0 <= j < sz * sz && #[trigger] uf.same_set_spec(i, j) implies connected(
                walls@,
                sz,
                index_x(sz, i),
                index_y(sz, i),
                index_x(sz, j),
                index_y(sz, j),
            ) by {
                assert(i == j);
                lemma_index_coords(sz, i);
                lemma_connected_refl(walls@, sz, index_x(sz, i), index_y(sz, i));
            };
        };
    }
    let mut e: usize = 0;
    while e < edges.len()
        invariant
            sz == size as int,
            total == size * size,
            walls@.len() == 4 * total,
            walls_symmetric(walls@, sz),
            border_walls_closed(walls@, sz),
            uf.wf(),
            uf.spec_len() == total,
            merges + uf.class_count() == total,
            open_flag_count(walls@) == 2 * merges,
            kruskal_conn_inv(walls@, uf, sz),
            kruskal_open_inv(walls@, uf, sz),
            forall|k: int| 0 <= k < edges@.len() ==> edge_ok(#[trigger] edges@[k], sz),
            all_pairs_listed(edges@, sz),
            forall|k: int|
                0 <= k < e ==> {
                    let ed = #[trigger] edges@[k];
                    uf.same_set_spec(
                        cell_index(sz, ed.0 as int, ed.1 as int),
                        cell_index(sz, ed.2 as int, ed.3 as int),
                    )
                },
        decreases edges@.len() - e,
    {
        let ed = edges[e];
        let ia = cell_index_of(size, ed.0, ed.1);
        let ib = cell_index_of(size, ed.2, ed.3);
        let ghost uf0 = uf;
        let merged = uf.union(ia, ib);
        if merged {
            let f1 = wall_index(size, ed.0, ed.1, ed.2, ed.3);
            let f2 = wall_index(size, ed.2, ed.3, ed.0, ed.1);
            proof {
                crate::maze::lemma_pair_flags(sz, ed.0 as int, ed.1 as int, ed.2 as int, ed.3 as int);
                // the pair was still closed: an open flag would mean the
                // two cells already shared a set
                assert(walls@[f1 as int]);
                assert(walls@[f2 as int] == walls@[f1 as int]);
                lemma_open_flag_count_clear(walls@, f1 as int);
                lemma_open_flag_count_clear(walls@.update(f1 as int, false), f2 as int);
            }
            let ghost w0 = walls@;
            walls.set(f1, false);
            walls.set(f2, false);
            merges = merges + 1;
            proof {
                lemma_open_pair_shape(
                    w0,
                    walls@,
                    sz,
                    ed.0 as int,
                    ed.1 as int,
                    ed.2 as int,
                    ed.3 as int,
                );
                lemma_kruskal_step(
                    w0,
                    walls@,
                    uf0,
                    uf,
                    sz,
                    ed.0 as int,
                    ed.1 as int,
                    ed.2 as int,
                    ed.3 as int,
                );
                // open flags still join same-set cells
                assert forall|x1: int, y1: int, x2: int, y2: int|
                    in_grid(sz, x1, y1) && in_grid(sz, x2, y2) && adjacent(x1, y1, x2, y2)
                        && !walls@[#[trigger] wall_flag(sz, x1, y1, x2, y2)] implies uf.same_set_spec(
                    cell_index(sz, x1, y1),
                    cell_index(sz, x2, y2),
                ) by {
                    lemma_side_toward_neighbor(x1, y1, x2, y2);
                    lemma_flag_bounds(sz, x1, y1, side_toward(x1, y1, x2, y2));
                    lemma_cell_index_bounds(sz, x1, y1);
                    lemma_cell_index_bounds(sz, x2, y2);
                    let f = wall_flag(sz, x1, y1, x2, y2);
                    if f == f1 as int {
                        lemma_wall_flag_pair_injective(
                            sz, x1, y1, x2, y2,
                            ed.0 as int, ed.1 as int, ed.2 as int, ed.3 as int,
                        );
                    } else if f == f2 as int {
                        lemma_wall_flag_pair_injective(
                            sz, x1, y1, x2, y2,
                            ed.2 as int, ed.3 as int, ed.0 as int, ed.1 as int,
                        );
                    } else {
                        assert(!w0[f]);
                        assert(uf0.same_set_spec(cell_index(sz, x1, y1), cell_index(sz, x2, y2)));
                    }
                };
            }
        } else {
            proof {
                assert forall|i: int, j: int|
                    0 <= i < total && 0 <= j < total && #[trigger] uf.same_set_spec(i, j) implies uf0.same_set_spec(
                    i,
                    j,
                ) by {};
                assert forall|x1: int, y1: int, x2: int, y2: int|
                    in_grid(sz, x1, y1) && in_grid(sz, x2, y2) && adjacent(x1, y1, x2, y2)
                        && !walls@[#[trigger] wall_flag(sz, x1, y1, x2, y2)] implies uf.same_set_spec(
                    cell_index(sz, x1, y1),
                    cell_index(sz, x2, y2),
                ) by {
                    lemma_side_toward_neighbor(x1, y1, x2, y2);
                    lemma_flag_bounds(sz, x1, y1, side_toward(x1, y1, x2, y2));
                    lemma_cell_index_bounds(sz, x1, y1);
                    lemma_cell_index_bounds(sz, x2, y2);
                    assert(uf0.same_set_spec(cell_index(sz, x1, y1), cell_index(sz, x2, y2)));
                };
                assert forall|i: int, j: int|
                    0 <= i < total && 0 <= j < total && #[trigger] uf.same_set_spec(i, j) implies connected(
                    walls@,
                    sz,
                    index_x(sz, i),
                    index_y(sz, i),
                    index_x(sz, j),
                    index_y(sz, j),
                ) by {
                    assert(uf0.same_set_spec(i, j));
                };
            }
        }
        proof {
            // earlier edges stay merged, the current one is now merged
            assert forall|k: int|
                0 <= k < e + 1 implies {
                let ed2 = #[trigger] edges@[k];
                uf.same_set_spec(
                    cell_index(sz, ed2.0 as int, ed2.1 as int),
                    cell_index(sz, ed2.2 as int, ed2.3 as int),
                )
            } by {
                let ed2 = edges@[k];
                lemma_cell_index_bounds(sz, ed2.0 as int, ed2.1 as int);
                lemma_cell_index_bounds(sz, ed2.2 as int, ed2.3 as int);
                if k < e {
                    assert(uf0.same_set_spec(
                        cell_index(sz, ed2.0 as int, ed2.1 as int),
                        cell_index(sz, ed2.2 as int, ed2.3 as int),
                    ));
                }
            };
        }
        e = e + 1;
    }
    proof {
        // every adjacent pair shares a set, so the whole grid is one set
        let ghost uff = uf;
        let marks = Seq::new(total as nat, |i: int| uff.same_set_spec(i, 0));
        assert forall|x1: int, y1: int, x2: int, y2: int|
            #![trigger cell_index(sz, x1, y1), cell_index(sz, x2, y2)]
            in_grid(sz, x1, y1) && in_grid(sz, x2, y2) && adjacent(x1, y1, x2, y2) && marks[
            cell_index(sz, x1, y1)
        ] implies marks[cell_index(sz, x2, y2)] by {
            lemma_cell_index_bounds(sz, x1, y1);
            lemma_cell_index_bounds(sz, x2, y2);
            assert(pair_listed(edges@, x1, y1, x2, y2));
            let k = choose|k: int|
                0 <= k < edges@.len() && {
                    let ed2 = #[trigger] edges@[k];
                    ((ed2.0 as int) == x1 && (ed2.1 as int) == y1 && (ed2.2 as int) == x2 && (
                    ed2.3 as int) == y2) || ((ed2.0 as int) == x2 && (ed2.1 as int) == y2 && (
                    ed2.2 as int) == x1 && (ed2.3 as int) == y1)
                };
            assert(uf.same_set_spec(
                cell_index(sz, edges@[k].0 as int, edges@[k].1 as int),
                cell_index(sz, edges@[k].2 as int, edges@[k].3 as int),
            ));
        };
        lemma_cell_index_bounds(sz, 0, 0);
        assert(marks[cell_index(sz, 0, 0)]);
        assert forall|x: int, y: int| in_grid(sz, x, y) implies marks[cell_index(sz, x, y)] by {
            lemma_adjacent_closure_covers(sz, marks, 0, 0, x, y);
        };
        assert forall|i: int| 0 <= i < total implies #[trigger] uf.same_set_spec(i, 0) by {
            lemma_index_coords(sz, i);
            assert(marks[cell_index(sz, index_x(sz, i), index_y(sz, i))]);
        };
        lemma_single_class(uf);
        assert(merges == total - 1);
        assert forall|x: int, y: int| in_grid(sz, x, y) implies connected(
            walls@,
            sz,
            0,
            0,
            x,
            y,
        ) by {
            lemma_cell_index_bounds(sz, x, y);
            lemma_cell_index_coords(sz, x, y);
            lemma_cell_index_coords(sz, 0, 0);
            assert(uf.same_set_spec(cell_index(sz, x, y), 0));
            assert(uf.same_set_spec(0, cell_index(sz, x, y)));
            assert(connected(walls@, sz, 0, 0, x, y));
        };
    }
    walls
}

} // verus!
