//! The graph distance analyzer: breadth-first traversal over open
//! passages.
//!
//! `bfs` explores the whole maze from a start cell, recording for every
//! cell a distance and the predecessor through which it was first
//! reached.  On a fully connected maze it reaches every cell; recorded
//! distances are consistent along predecessor edges (`dist[parent] + 1 ==
//! dist[cell]`) and never fall below the Manhattan distance from the
//! start.  `furthest_cell` picks the first cell of maximal distance and
//! `trace_path` rebuilds the predecessor path, which is an open path of
//! the maze.  Two sweeps of `bfs` are how the generator places the start
//! and door far apart.

use vstd::prelude::*;
use crate::counting::lemma_marked_count_le_len;
use crate::counting::lemma_marked_count_none;
use crate::counting::lemma_marked_count_set;
use crate::counting::marked_count;
use crate::reach::cells_view;
use crate::reach::connected;
use crate::reach::is_path;
use crate::reach::lemma_open_closure_covers;
use crate::reach::manhattan;
use crate::wall_model::adjacent;
use crate::wall_model::cell_index;
use crate::wall_model::cell_index_of;
use crate::wall_model::in_grid;
use crate::wall_model::index_x;
use crate::wall_model::index_y;
use crate::wall_model::lemma_cell_index_bounds;
use crate::wall_model::lemma_cell_index_coords;
use crate::wall_model::lemma_cell_index_injective;
use crate::wall_model::lemma_index_coords;
use crate::wall_model::passage_open;
use crate::wall_model::wall_index;
use crate::wall_model::walls_len_ok;

verus! {

/// A vector of `n` copies of `v`.
fn fill_usize(n: usize, v: usize) -> (r: Vec<usize>)
    ensures
        r@.len() == n,
        forall|i: int| 0 <= i < n ==> r@[i] == v,
{
    let mut r: Vec<usize> = Vec::new();
    let mut i: usize = 0;
    while i < n
        invariant
            i <= n,
            r@.len() == i,
            forall|k: int| 0 <= k < i ==> r@[k] == v,
        decreases n - i,
    {
        r.push(v);
        i = i + 1;
    }
    r
}

/// Which cells have been reached: distance strictly below `total`.
spec fn reached_marks(dist: Seq<usize>, total: int) -> Seq<bool> {
    Seq::new(dist.len(), |i: int| (dist[i] as int) < total)
}

/// Whether index `i` occurs in the queue.
spec fn in_queue(q: Seq<usize>, i: int) -> bool {
    exists|j: int| 0 <= j < q.len() && (#[trigger] q[j]) as int == i
}

/// Queue entries carry nondecreasing distances.
spec fn q_sorted(dist: Seq<usize>, q: Seq<usize>) -> bool {
    forall|j1: int, j2: int|
        #![trigger q[j1], q[j2]]
        0 <= j1 <= j2 < q.len() ==> (dist[q[j1] as int] as int) <= (dist[q[j2] as int] as int)
}

/// The last queued distance is within one of the active head's.
spec fn q_window(dist: Seq<usize>, q: Seq<usize>, head: int) -> bool {
    0 <= head < q.len() ==> (dist[q[q.len() - 1] as int] as int) <= (dist[q[head] as int] as int)
        + 1
}

/// The traversal invariant over distances, predecessors and the queue.
/// Kept opaque so that passing it along stays cheap; the lemmas that
/// maintain it reveal it.
#[verifier::opaque]
spec fn bfs_inv(
    w: Seq<bool>,
    size: int,
    sx: int,
    sy: int,
    dist: Seq<usize>,
    parent: Seq<usize>,
    q: Seq<usize>,
) -> bool {
    let total = size * size;
    let si = cell_index(size, sx, sy);
    &&& size >= 1
    &&& 4 * size * size <= usize::MAX
    &&& walls_len_ok(w, size)
    &&& in_grid(size, sx, sy)
    &&& dist.len() == total
    &&& parent.len() == total
    &&& (dist[si] as int) == 0
    &&& (parent[si] as int) == si
    &&& forall|i: int| 0 <= i < total ==> (#[trigger] dist[i] as int) <= total
    &&& forall|j: int|
        0 <= j < q.len() ==> ((#[trigger] q[j]) as int) < total && (dist[q[j] as int] as int)
            < total
    &&& forall|i: int| 0 <= i < total && (#[trigger] dist[i] as int) < total ==> in_queue(q, i)
    &&& marked_count(reached_marks(dist, total)) == q.len()
    &&& forall|i: int|
        0 <= i < total && (#[trigger] dist[i] as int) < total ==> (dist[i] as int) < q.len()
    &&& forall|i: int|
        0 <= i < total && (#[trigger] dist[i] as int) < total && i != si ==> {
            &&& 0 <= (parent[i] as int) < total
            &&& (dist[parent[i] as int] as int) < total
            &&& (dist[parent[i] as int] as int) + 1 == dist[i] as int
            &&& passage_open(
                w,
                size,
                index_x(size, parent[i] as int),
                index_y(size, parent[i] as int),
                index_x(size, i),
                index_y(size, i),
            )
        }
    &&& forall|i: int|
        0 <= i < total && (#[trigger] dist[i] as int) < total ==> (dist[i] as int) >= manhattan(
            sx,
            sy,
            index_x(size, i),
            index_y(size, i),
        )
}

/// Every open neighbor of a processed queue entry has been reached,
/// and within one step of the entry's own distance.
#[verifier::opaque]
spec fn bfs_processed(w: Seq<bool>, size: int, dist: Seq<usize>, q: Seq<usize>, head: int) -> bool {
    forall|j: int, x2: int, y2: int|
        #![trigger q[j], cell_index(size, x2, y2)]
        0 <= j < head && in_grid(size, x2, y2) && passage_open(
            w,
            size,
            index_x(size, q[j] as int),
            index_y(size, q[j] as int),
            x2,
            y2,
        ) ==> (dist[cell_index(size, x2, y2)] as int) < size * size && (dist[cell_index(
            size,
            x2,
            y2,
        )] as int) <= (dist[q[j] as int] as int) + 1
}

/// Whether an open path of exactly `d + 1` cells joins the start to
/// the cell with flattened index `i`.
pub open spec fn has_exact_path(w: Seq<bool>, size: int, sx: int, sy: int, i: int, d: int) -> bool {
    exists|p: Seq<(int, int)>|
        is_path(w, size, p, sx, sy, index_x(size, i), index_y(size, i)) && p.len() == d + 1
}

/// What `bfs` guarantees of its distance and predecessor maps.
pub open spec fn bfs_post(
    w: Seq<bool>,
    size: int,
    sx: int,
    sy: int,
    dist: Seq<usize>,
    parent: Seq<usize>,
) -> bool {
    let total = size * size;
    let si = cell_index(size, sx, sy);
    &&& dist.len() == total
    &&& parent.len() == total
    &&& (dist[si] as int) == 0
    &&& (parent[si] as int) == si
    &&& forall|i: int| 0 <= i < total ==> ((#[trigger] dist[i]) as int) < total
    &&& forall|i: int|
        0 <= i < total && i != si ==> {
            &&& 0 <= ((#[trigger] parent[i]) as int) < total
            &&& (dist[parent[i] as int] as int) + 1 == dist[i] as int
            &&& passage_open(
                w,
                size,
                index_x(size, parent[i] as int),
                index_y(size, parent[i] as int),
                index_x(size, i),
                index_y(size, i),
            )
        }
    &&& forall|i: int|
        0 <= i < total ==> ((#[trigger] dist[i]) as int) >= manhattan(
            sx,
            sy,
            index_x(size, i),
            index_y(size, i),
        )
    &&& forall|p: Seq<(int, int)>, x: int, y: int|
        in_grid(size, x, y) && #[trigger] is_path(w, size, p, sx, sy, x, y) ==> (dist[cell_index(
            size,
            x,
            y,
        )] as int) <= p.len() - 1
    &&& forall|i: int|
        0 <= i < total ==> has_exact_path(w, size, sx, sy, i, ((#[trigger] dist[i]) as int))
}

/// Enqueueing a freshly reached neighbor preserves the traversal
/// invariant.
#[verifier::rlimit(100)]
proof fn lemma_bfs_enqueue(
    w: Seq<bool>,
    size: int,
    sx: int,
    sy: int,
    dist0: Seq<usize>,
    parent0: Seq<usize>,
    q0: Seq<usize>,
    dist1: Seq<usize>,
    parent1: Seq<usize>,
    q1: Seq<usize>,
    cur: usize,
    ni: usize,
    d: usize,
    cx: int,
    cy: int,
    nx: int,
    ny: int,
)
    requires
        bfs_inv(w, size, sx, sy, dist0, parent0, q0),
        in_grid(size, cx, cy),
        in_grid(size, nx, ny),
        adjacent(cx, cy, nx, ny),
        cur as int == cell_index(size, cx, cy),
        ni as int == cell_index(size, nx, ny),
        (dist0[cur as int] as int) < size * size,
        (dist0[ni as int] as int) == size * size,
        d as int == (dist0[cur as int] as int) + 1,
        passage_open(w, size, cx, cy, nx, ny),
        dist1 == dist0.update(ni as int, d),
        parent1 == parent0.update(ni as int, cur),
        q1 == q0.push(ni),
    ensures
        bfs_inv(w, size, sx, sy, dist1, parent1, q1),
{
    reveal(bfs_inv);
    let total = size * size;
    let si = cell_index(size, sx, sy);
    lemma_cell_index_bounds(size, sx, sy);
    lemma_cell_index_bounds(size, cx, cy);
    lemma_cell_index_bounds(size, nx, ny);
    lemma_cell_index_coords(size, cx, cy);
    lemma_cell_index_coords(size, nx, ny);
    assert(ni as int != si);
    let marks0 = reached_marks(dist0, total);
    assert(!marks0[ni as int]);
    lemma_marked_count_set(marks0, ni as int);
    lemma_marked_count_le_len(marks0.update(ni as int, true));
    // the queue cannot already hold every cell, so the fresh distance
    // stays below the sentinel
    assert(q0.len() + 1 <= total);
    assert((d as int) < total);
    assert(reached_marks(dist1, total) =~= marks0.update(ni as int, true));
    assert((dist1[ni as int] as int) >= manhattan(
        sx,
        sy,
        index_x(size, ni as int),
        index_y(size, ni as int),
    ));
    assert forall|i: int| 0 <= i < total && (#[trigger] dist1[i] as int) < total implies in_queue(
        q1,
        i,
    ) by {
        if i != ni as int {
            assert(dist0[i] == dist1[i]);
            assert(in_queue(q0, i));
            let j = choose|j: int| 0 <= j < q0.len() && (#[trigger] q0[j]) as int == i;
            assert(q1[j] == q0[j]);
        } else {
            assert(q1[q1.len() - 1] == ni);
        }
    };
    assert forall|i: int|
        0 <= i < total && (#[trigger] dist1[i] as int) < total && i != si implies {
            &&& 0 <= (parent1[i] as int) < total
            &&& (dist1[parent1[i] as int] as int) < total
            &&& (dist1[parent1[i] as int] as int) + 1 == dist1[i] as int
            &&& passage_open(
                w,
                size,
                index_x(size, parent1[i] as int),
                index_y(size, parent1[i] as int),
                index_x(size, i),
                index_y(size, i),
            )
        } by {
        if i == ni as int {
            assert(parent1[i] == cur);
            assert(dist1[cur as int] == dist0[cur as int]);
            assert(index_x(size, cur as int) == cx && index_y(size, cur as int) == cy);
            assert(index_x(size, i) == nx && index_y(size, i) == ny);
        } else {
            assert(dist1[i] == dist0[i] && parent1[i] == parent0[i]);
            assert((parent0[i] as int) != ni as int || (dist0[parent0[i] as int] as int) < total);
        }
    };
}

/// Processing the current cell extends the processed-closure by one
/// entry.
proof fn lemma_processed_extend(
    w: Seq<bool>,
    size: int,
    dist_old: Seq<usize>,
    dist_new: Seq<usize>,
    q_old: Seq<usize>,
    q_new: Seq<usize>,
    head_old: int,
    cur: usize,
    cx: int,
    cy: int,
)
    requires
        size >= 1,
        dist_old.len() == size * size,
        dist_new.len() == size * size,
        0 <= head_old < q_old.len(),
        q_new.len() >= q_old.len(),
        forall|j: int| 0 <= j < q_old.len() ==> q_new[j] == q_old[j],
        forall|i: int|
            0 <= i < dist_old.len() && ((dist_old[i]) as int) < size * size ==> dist_new[i]
                == dist_old[i],
        bfs_processed(w, size, dist_old, q_old, head_old),
        q_old[head_old] == cur,
        (cur as int) < size * size,
        (dist_old[cur as int] as int) < size * size,
        forall|j: int|
            0 <= j < q_old.len() ==> ((#[trigger] q_old[j]) as int) < size * size && (dist_old[
                q_old[j] as int
            ] as int) < size * size,
        in_grid(size, cx, cy),
        cur as int == cell_index(size, cx, cy),
        passage_open(w, size, cx, cy, cx, cy - 1) ==> ((dist_new[cell_index(size, cx, cy - 1)] as int)
            < size * size && (dist_new[cell_index(size, cx, cy - 1)] as int) <= (dist_old[
            cur as int
        ] as int) + 1),
        passage_open(w, size, cx, cy, cx + 1, cy) ==> ((dist_new[cell_index(size, cx + 1, cy)] as int)
            < size * size && (dist_new[cell_index(size, cx + 1, cy)] as int) <= (dist_old[
            cur as int
        ] as int) + 1),
        passage_open(w, size, cx, cy, cx, cy + 1) ==> ((dist_new[cell_index(size, cx, cy + 1)] as int)
            < size * size && (dist_new[cell_index(size, cx, cy + 1)] as int) <= (dist_old[
            cur as int
        ] as int) + 1),
        passage_open(w, size, cx, cy, cx - 1, cy) ==> ((dist_new[cell_index(size, cx - 1, cy)] as int)
            < size * size && (dist_new[cell_index(size, cx - 1, cy)] as int) <= (dist_old[
            cur as int
        ] as int) + 1),
    ensures
        bfs_processed(w, size, dist_new, q_new, head_old + 1),
{
    reveal(bfs_processed);
    lemma_cell_index_coords(size, cx, cy);
    assert forall|j: int, x2: int, y2: int|
        #![trigger q_new[j], cell_index(size, x2, y2)]
        0 <= j < head_old + 1 && in_grid(size, x2, y2) && passage_open(
            w,
            size,
            index_x(size, q_new[j] as int),
            index_y(size, q_new[j] as int),
            x2,
            y2,
        ) implies (dist_new[cell_index(size, x2, y2)] as int) < size * size && (dist_new[
        cell_index(size, x2, y2)
    ] as int) <= (dist_new[q_new[j] as int] as int) + 1 by {
        lemma_cell_index_bounds(size, x2, y2);
        if j < head_old {
            assert(q_new[j] == q_old[j]);
            assert((dist_old[cell_index(size, x2, y2)] as int) < size * size);
            assert((dist_old[cell_index(size, x2, y2)] as int) <= (dist_old[q_old[j] as int] as int)
                + 1);
            assert(dist_new[q_new[j] as int] == dist_old[q_old[j] as int]);
        } else {
            assert(q_new[j] == cur);
            assert(dist_new[cur as int] == dist_old[cur as int]);
            assert(index_x(size, cur as int) == cx && index_y(size, cur as int) == cy);
            assert(adjacent(cx, cy, x2, y2));
            if y2 == cy - 1 {
                assert(x2 == cx);
            } else if x2 == cx + 1 {
                assert(y2 == cy);
            } else if y2 == cy + 1 {
                assert(x2 == cx);
            } else {
                assert(x2 == cx - 1 && y2 == cy);
            }
        }
    };
}

/// The facts of the opaque traversal invariant a caller needs in the
/// open, so the main loop can stay light.
proof fn lemma_inv_facts(
    w: Seq<bool>,
    size: int,
    sx: int,
    sy: int,
    dist: Seq<usize>,
    parent: Seq<usize>,
    q: Seq<usize>,
    head: int,
)
    requires
        bfs_inv(w, size, sx, sy, dist, parent, q),
        0 <= head < q.len(),
    ensures
        dist.len() == size * size,
        q.len() <= size * size,
        (q[head] as int) < size * size,
        (dist[q[head] as int] as int) < size * size,
        forall|i: int| 0 <= i < dist.len() ==> ((#[trigger] dist[i]) as int) <= size * size,
        forall|j: int|
            0 <= j < q.len() ==> ((#[trigger] q[j]) as int) < size * size && (dist[
                q[j] as int
            ] as int) < size * size,
        forall|i: int|
            0 <= i < size * size && (#[trigger] dist[i] as int) < size * size ==> in_queue(q, i),
{
    reveal(bfs_inv);
    lemma_marked_count_le_len(reached_marks(dist, size * size));
}

/// Every reached cell's distance is within one of the active head's:
/// the queue is sorted and its tail sits within the window.
proof fn lemma_reached_bound(dist: Seq<usize>, q: Seq<usize>, head: int, total: int)
    requires
        0 <= head < q.len(),
        forall|i: int| 0 <= i < total && (#[trigger] dist[i] as int) < total ==> in_queue(q, i),
        forall|j: int|
            0 <= j < q.len() ==> ((#[trigger] q[j]) as int) < total && (dist[q[j] as int] as int)
                < total,
        q_sorted(dist, q),
        q_window(dist, q, head),
    ensures
        forall|i: int|
            0 <= i < total && (#[trigger] dist[i] as int) < total ==> (dist[i] as int) <= (dist[
                q[head] as int
            ] as int) + 1,
{
    assert forall|i: int|
        0 <= i < total && (#[trigger] dist[i] as int) < total implies (dist[i] as int) <= (dist[
        q[head] as int
    ] as int) + 1 by {
        assert(in_queue(q, i));
        let j = choose|j: int| 0 <= j < q.len() && (#[trigger] q[j]) as int == i;
        if j <= head {
            assert((dist[q[j] as int] as int) <= (dist[q[head] as int] as int));
        } else {
            assert((dist[q[j] as int] as int) <= (dist[q[q.len() - 1] as int] as int));
        }
    };
}

/// Advancing the head past the current cell keeps the queue sorted and
/// inside the distance window: everything enqueued meanwhile carries
/// the current distance plus one.
proof fn lemma_order_advance(
    dist0: Seq<usize>,
    dist1: Seq<usize>,
    q0: Seq<usize>,
    q1: Seq<usize>,
    head: int,
    cur: usize,
)
    requires
        0 <= head < q0.len(),
        q0[head] == cur,
        q1.len() >= q0.len(),
        forall|j: int| 0 <= j < q0.len() ==> q1[j] == q0[j],
        forall|j: int|
            0 <= j < q0.len() ==> (dist1[(#[trigger] q0[j]) as int] as int) == (dist0[
                q0[j] as int
            ] as int),
        forall|j: int|
            q0.len() <= j < q1.len() ==> (dist1[(#[trigger] q1[j]) as int] as int) == (dist0[
                cur as int
            ] as int) + 1,
        q_sorted(dist0, q0),
        q_window(dist0, q0, head),
    ensures
        q_sorted(dist1, q1),
        q_window(dist1, q1, head + 1),
{
    assert forall|j1: int, j2: int|
        #![trigger q1[j1], q1[j2]]
        0 <= j1 <= j2 < q1.len() implies (dist1[q1[j1] as int] as int) <= (dist1[
        q1[j2] as int
    ] as int) by {
        if j1 < q0.len() && j2 < q0.len() {
            assert(q1[j1] == q0[j1] && q1[j2] == q0[j2]);
        } else if j1 < q0.len() {
            assert(q1[j1] == q0[j1]);
            assert((dist0[q0[j1] as int] as int) <= (dist0[q0[q0.len() - 1] as int] as int));
            assert((dist0[q0[q0.len() - 1] as int] as int) <= (dist0[q0[head] as int] as int) + 1);
        }
    };
    if head + 1 < q1.len() {
        assert(q1[head] == q0[head]);
        assert((dist1[q1[head] as int] as int) <= (dist1[q1[head + 1] as int] as int));
        if q1.len() > q0.len() {
            assert((dist1[q1[q1.len() - 1] as int] as int) == (dist0[cur as int] as int) + 1);
        } else {
            assert(q1[q1.len() - 1] == q0[q0.len() - 1]);
            assert((dist0[q0[q0.len() - 1] as int] as int) <= (dist0[q0[head] as int] as int) + 1);
        }
    }
}

/// After full processing the reached set is closed under open passages.
proof fn lemma_bfs_reached_closed(
    w: Seq<bool>,
    size: int,
    sx: int,
    sy: int,
    dist: Seq<usize>,
    parent: Seq<usize>,
    q: Seq<usize>,
)
    requires
        bfs_inv(w, size, sx, sy, dist, parent, q),
        bfs_processed(w, size, dist, q, q.len() as int),
    ensures
        forall|x1: int, y1: int, x2: int, y2: int|
            #![trigger cell_index(size, x1, y1), cell_index(size, x2, y2)]
            passage_open(w, size, x1, y1, x2, y2) && reached_marks(dist, size * size)[cell_index(
                size,
                x1,
                y1,
            )] ==> reached_marks(dist, size * size)[cell_index(size, x2, y2)] && (dist[cell_index(
                size,
                x2,
                y2,
            )] as int) <= (dist[cell_index(size, x1, y1)] as int) + 1,
{
    reveal(bfs_inv);
    reveal(bfs_processed);
    let total = size * size;
    let marks = reached_marks(dist, total);
    assert forall|x1: int, y1: int, x2: int, y2: int|
        #![trigger cell_index(size, x1, y1), cell_index(size, x2, y2)]
        passage_open(w, size, x1, y1, x2, y2) && marks[cell_index(size, x1, y1)] implies marks[
        cell_index(size, x2, y2)
    ] && (dist[cell_index(size, x2, y2)] as int) <= (dist[cell_index(size, x1, y1)] as int)
        + 1 by {
        lemma_cell_index_bounds(size, x1, y1);
        lemma_cell_index_bounds(size, x2, y2);
        let i1 = cell_index(size, x1, y1);
        assert((dist[i1] as int) < total);
        assert(in_queue(q, i1));
        let j = choose|j: int| 0 <= j < q.len() && (#[trigger] q[j]) as int == i1;
        lemma_cell_index_coords(size, x1, y1);
        assert(index_x(size, q[j] as int) == x1 && index_y(size, q[j] as int) == y1);
        assert((dist[cell_index(size, x2, y2)] as int) < total);
    };
}

/// With every open edge relaxed, no open path undercuts the recorded
/// distance of its far end.
proof fn lemma_dist_minimal(
    w: Seq<bool>,
    size: int,
    sx: int,
    sy: int,
    dist: Seq<usize>,
    p: Seq<(int, int)>,
    x: int,
    y: int,
)
    requires
        size >= 1,
        dist.len() == size * size,
        in_grid(size, sx, sy),
        (dist[cell_index(size, sx, sy)] as int) == 0,
        forall|x1: int, y1: int, x2: int, y2: int|
            #![trigger cell_index(size, x1, y1), cell_index(size, x2, y2)]
            passage_open(w, size, x1, y1, x2, y2) ==> (dist[cell_index(size, x2, y2)] as int) <= (
            dist[cell_index(size, x1, y1)] as int) + 1,
        in_grid(size, x, y),
        is_path(w, size, p, sx, sy, x, y),
    ensures
        (dist[cell_index(size, x, y)] as int) <= p.len() - 1,
    decreases p.len(),
{
    if p.len() == 1 {
        assert((x, y) == (sx, sy));
    } else {
        let q2 = p.drop_last();
        let mx = p[p.len() - 2].0;
        let my = p[p.len() - 2].1;
        assert(q2[0] == p[0]);
        assert(q2[q2.len() - 1] == p[p.len() - 2]);
        assert forall|i: int| 0 <= i < q2.len() implies in_grid(size, (#[trigger] q2[i]).0, q2[i].1) by {
            assert(q2[i] == p[i]);
        };
        assert forall|i: int| 0 <= i < q2.len() - 1 implies passage_open(
            w,
            size,
            (#[trigger] q2[i]).0,
            q2[i].1,
            q2[i + 1].0,
            q2[i + 1].1,
        ) by {
            assert(q2[i] == p[i]);
            assert(q2[i + 1] == p[i + 1]);
            assert(passage_open(w, size, (p[i]).0, p[i].1, p[i + 1].0, p[i + 1].1));
        };
        assert(is_path(w, size, q2, sx, sy, mx, my));
        lemma_dist_minimal(w, size, sx, sy, dist, q2, mx, my);
        assert(passage_open(w, size, (p[p.len() - 2]).0, p[p.len() - 2].1, p[p.len() - 1].0, p[p.len() - 1].1));
        assert(passage_open(w, size, mx, my, x, y));
        assert((dist[cell_index(size, x, y)] as int) <= (dist[cell_index(size, mx, my)] as int)
            + 1);
    }
}

/// Following predecessor edges back to the start yields an open path
/// whose length is exactly the recorded distance plus one.
proof fn lemma_parent_path(
    w: Seq<bool>,
    size: int,
    sx: int,
    sy: int,
    dist: Seq<usize>,
    parent: Seq<usize>,
    i: int,
)
    requires
        size >= 1,
        dist.len() == size * size,
        parent.len() == size * size,
        in_grid(size, sx, sy),
        (dist[cell_index(size, sx, sy)] as int) == 0,
        (parent[cell_index(size, sx, sy)] as int) == cell_index(size, sx, sy),
        forall|k: int|
            0 <= k < size * size && k != cell_index(size, sx, sy) ==> {
                &&& 0 <= ((#[trigger] parent[k]) as int) < size * size
                &&& (dist[parent[k] as int] as int) + 1 == dist[k] as int
                &&& passage_open(
                    w,
                    size,
                    index_x(size, parent[k] as int),
                    index_y(size, parent[k] as int),
                    index_x(size, k),
                    index_y(size, k),
                )
            },
        0 <= i < size * size,
    ensures
        has_exact_path(w, size, sx, sy, i, dist[i] as int),
    decreases dist[i],
{
    let si = cell_index(size, sx, sy);
    lemma_cell_index_bounds(size, sx, sy);
    lemma_cell_index_coords(size, sx, sy);
    lemma_index_coords(size, i);
    if i == si {
        let p: Seq<(int, int)> = seq![(sx, sy)];
        assert(is_path(w, size, p, sx, sy, index_x(size, i), index_y(size, i)) && p.len() == (
            dist[i] as int) + 1);
    } else {
        let pi = parent[i] as int;
        assert((dist[pi] as int) + 1 == dist[i] as int);
        assert((dist[i] as int) >= 1);
        lemma_index_coords(size, pi);
        lemma_parent_path(w, size, sx, sy, dist, parent, pi);
        let p0 = choose|p0: Seq<(int, int)>|
            is_path(w, size, p0, sx, sy, index_x(size, pi), index_y(size, pi)) && p0.len() == (
            dist[pi] as int) + 1;
        assert(is_path(w, size, p0, sx, sy, index_x(size, pi), index_y(size, pi)) && p0.len() == (
            dist[pi] as int) + 1);
        let p = p0.push((index_x(size, i), index_y(size, i)));
        assert(p[p.len() - 1] == (index_x(size, i), index_y(size, i)));
        assert forall|k: int| 0 <= k < p.len() implies in_grid(size, (#[trigger] p[k]).0, p[k].1) by {
            if k < p0.len() {
                assert(p[k] == p0[k]);
            }
        };
        assert forall|k: int| 0 <= k < p.len() - 1 implies passage_open(
            w,
            size,
            (#[trigger] p[k]).0,
            p[k].1,
            p[k + 1].0,
            p[k + 1].1,
        ) by {
            if k < p0.len() - 1 {
                assert(p[k] == p0[k]);
                assert(p[k + 1] == p0[k + 1]);
                assert(passage_open(w, size, (p0[k]).0, p0[k].1, p0[k + 1].0, p0[k + 1].1));
            } else {
                assert(p[k] == p0[p0.len() - 1]);
                assert(p[k + 1] == (index_x(size, i), index_y(size, i)));
            }
        };
        assert(is_path(w, size, p, sx, sy, index_x(size, i), index_y(size, i)));
        assert(p.len() == (dist[i] as int) + 1);
    }
}

/// When the queue has been fully processed on a connected maze, every
/// cell was reached; distances relax across every open edge and the
/// predecessor edges carry the start, step and lower-bound facts.
#[verifier::rlimit(100)]
proof fn lemma_bfs_all_reached(
    w: Seq<bool>,
    size: int,
    sx: int,
    sy: int,
    dist: Seq<usize>,
    parent: Seq<usize>,
    q: Seq<usize>,
)
    requires
        bfs_inv(w, size, sx, sy, dist, parent, q),
        bfs_processed(w, size, dist, q, q.len() as int),
        forall|x: int, y: int|
            in_grid(size, x, y) ==> connected(w, size, sx, sy, x, y),
    ensures
        dist.len() == size * size,
        parent.len() == size * size,
        (dist[cell_index(size, sx, sy)] as int) == 0,
        (parent[cell_index(size, sx, sy)] as int) == cell_index(size, sx, sy),
        forall|i: int| 0 <= i < size * size ==> ((#[trigger] dist[i]) as int) < size * size,
        forall|i: int|
            0 <= i < size * size && i != cell_index(size, sx, sy) ==> {
                &&& 0 <= ((#[trigger] parent[i]) as int) < size * size
                &&& (dist[parent[i] as int] as int) + 1 == dist[i] as int
                &&& passage_open(
                    w,
                    size,
                    index_x(size, parent[i] as int),
                    index_y(size, parent[i] as int),
                    index_x(size, i),
                    index_y(size, i),
                )
            },
        forall|i: int|
            0 <= i < size * size ==> ((#[trigger] dist[i]) as int) >= manhattan(
                sx,
                sy,
                index_x(size, i),
                index_y(size, i),
            ),
        forall|x1: int, y1: int, x2: int, y2: int|
            #![trigger cell_index(size, x1, y1), cell_index(size, x2, y2)]
            passage_open(w, size, x1, y1, x2, y2) ==> (dist[cell_index(size, x2, y2)] as int) <= (
            dist[cell_index(size, x1, y1)] as int) + 1,
{
    lemma_bfs_reached_closed(w, size, sx, sy, dist, parent, q);
    reveal(bfs_inv);
    let total = size * size;
    let si = cell_index(size, sx, sy);
    let marks = reached_marks(dist, total);
    lemma_cell_index_bounds(size, sx, sy);
    assert(marks[si]);
    assert forall|i: int| 0 <= i < total implies ((#[trigger] dist[i]) as int) < total by {
        lemma_index_coords(size, i);
        let x = index_x(size, i);
        let y = index_y(size, i);
        assert(connected(w, size, sx, sy, x, y));
        lemma_open_closure_covers(w, size, marks, sx, sy, x, y);
        assert(marks[cell_index(size, x, y)]);
    };
    assert forall|i: int|
        0 <= i < total && i != si implies {
            &&& 0 <= ((#[trigger] parent[i]) as int) < total
            &&& (dist[parent[i] as int] as int) + 1 == dist[i] as int
            &&& passage_open(
                w,
                size,
                index_x(size, parent[i] as int),
                index_y(size, parent[i] as int),
                index_x(size, i),
                index_y(size, i),
            )
        } by {
        assert((dist[i] as int) < total);
    };
    assert forall|x1: int, y1: int, x2: int, y2: int|
        #![trigger cell_index(size, x1, y1), cell_index(size, x2, y2)]
        passage_open(w, size, x1, y1, x2, y2) implies (dist[cell_index(size, x2, y2)] as int) <= (
    dist[cell_index(size, x1, y1)] as int) + 1 by {
        lemma_cell_index_bounds(size, x1, y1);
        assert((dist[cell_index(size, x1, y1)] as int) < total);
        assert(marks[cell_index(size, x1, y1)]);
    };
}

/// When the queue has been fully processed on a connected maze, the
/// traversal maps satisfy `bfs_post`: every cell reached, predecessor
/// edges consistent, and the distances exactly the shortest open-path
/// distances.
#[verifier::rlimit(100)]
proof fn lemma_bfs_complete(
    w: Seq<bool>,
    size: int,
    sx: int,
    sy: int,
    dist: Seq<usize>,
    parent: Seq<usize>,
    q: Seq<usize>,
)
    requires
        size >= 1,
        in_grid(size, sx, sy),
        bfs_inv(w, size, sx, sy, dist, parent, q),
        bfs_processed(w, size, dist, q, q.len() as int),
        forall|x: int, y: int|
            in_grid(size, x, y) ==> connected(w, size, sx, sy, x, y),
    ensures
        bfs_post(w, size, sx, sy, dist, parent),
{
    lemma_bfs_all_reached(w, size, sx, sy, dist, parent, q);
    let total = size * size;
    assert forall|p: Seq<(int, int)>, x: int, y: int|
        in_grid(size, x, y) && #[trigger] is_path(w, size, p, sx, sy, x, y) implies (dist[
    cell_index(size, x, y)
    ] as int) <= p.len() - 1 by {
        lemma_dist_minimal(w, size, sx, sy, dist, p, x, y);
    };
    assert forall|i: int|
        0 <= i < total implies has_exact_path(w, size, sx, sy, i, ((#[trigger] dist[i]) as int)) by {
        lemma_parent_path(w, size, sx, sy, dist, parent, i);
    };
}

/// One neighbor inspection: when the passage from the current cell is/// One neighbor inspection: when the passage from the current cell is
/// open and the neighbor unreached, record distance and predecessor and
/// enqueue it.
#[verifier::rlimit(100)]
fn bfs_visit(
    size: usize,
    walls: &Vec<bool>,
    dist: &mut Vec<usize>,
    parent: &mut Vec<usize>,
    q: &mut Vec<usize>,
    cur: usize,
    cx: usize,
    cy: usize,
    nx: usize,
    ny: usize,
    sx: usize,
    sy: usize,
)
    requires
        bfs_inv(walls@, size as int, sx as int, sy as int, old(dist)@, old(parent)@, old(q)@),
        in_grid(size as int, cx as int, cy as int),
        in_grid(size as int, nx as int, ny as int),
        adjacent(cx as int, cy as int, nx as int, ny as int),
        cur as int == cell_index(size as int, cx as int, cy as int),
        (old(dist)@[cur as int] as int) < size * size,
    ensures
        bfs_inv(walls@, size as int, sx as int, sy as int, final(dist)@, final(parent)@, final(q)@),
        final(q)@.len() >= old(q)@.len(),
        final(q)@.len() <= size * size,
        old(dist)@.len() == size * size,
        final(dist)@.len() == size * size,
        forall|j: int| 0 <= j < old(q)@.len() ==> final(q)@[j] == old(q)@[j],
        forall|i: int|
            0 <= i < old(dist)@.len() && ((old(dist)@[i]) as int) < size * size ==> final(dist)@[i]
                == old(dist)@[i],
        passage_open(walls@, size as int, cx as int, cy as int, nx as int, ny as int)
            ==> (final(dist)@[cell_index(size as int, nx as int, ny as int)] as int) < size * size,
        forall|i: int|
            0 <= i < old(dist)@.len() && ((old(dist)@[i]) as int) == size * size
                && ((final(dist)@[i]) as int) < size * size
                ==> (final(dist)@[i] as int) == (old(dist)@[cur as int] as int) + 1,
        forall|j: int|
            old(q)@.len() <= j < final(q)@.len() ==> (final(dist)@[(#[trigger] final(q)@[j]) as int] as int)
                == (old(dist)@[cur as int] as int) + 1,
        forall|j: int|
            0 <= j < final(q)@.len() ==> ((#[trigger] final(q)@[j]) as int) < size * size
                && (final(dist)@[(final(q)@[j]) as int] as int) < size * size,
        forall|i: int|
            0 <= i < final(dist)@.len() ==> ((#[trigger] final(dist)@[i]) as int) <= size * size,
{
    let ghost sz = size as int;
    proof {
        reveal(bfs_inv);
        assert(size * size <= 4 * size * size && 4 * (size * size) == 4 * size * size)
            by (nonlinear_arith)
            requires
                size >= 1,
        ;
        lemma_cell_index_bounds(sz, nx as int, ny as int);
        lemma_cell_index_bounds(sz, cx as int, cy as int);
        lemma_marked_count_le_len(reached_marks(dist@, (size * size) as int));
    }
    let total = size * size;
    let f = wall_index(size, cx, cy, nx, ny);
    if !walls[f] {
        let ni = cell_index_of(size, nx, ny);
        if dist[ni] == total {
            let d = dist[cur] + 1;
            let ghost dist0 = dist@;
            let ghost parent0 = parent@;
            let ghost q0 = q@;
            dist.set(ni, d);
            parent.set(ni, cur);
            q.push(ni);
            proof {
                lemma_bfs_enqueue(
                    walls@,
                    sz,
                    sx as int,
                    sy as int,
                    dist0,
                    parent0,
                    q0,
                    dist@,
                    parent@,
                    q@,
                    cur,
                    ni,
                    d,
                    cx as int,
                    cy as int,
                    nx as int,
                    ny as int,
                );
                reveal(bfs_inv);
                lemma_marked_count_le_len(reached_marks(dist@, total as int));
            }
        } else {
            proof {
                reveal(bfs_inv);
            }
        }
    } else {
        proof {
            reveal(bfs_inv);
        }
    }
}

/// After processing a cell, each open neighbor is reached within one
/// step of its distance: fresh neighbors were assigned exactly one
/// more, already-reached ones were bounded by the queue window.
#[verifier::rlimit(100)]
proof fn lemma_loop_neighbor_bounds(
    w: Seq<bool>,
    size: int,
    dist0: Seq<usize>,
    dist1: Seq<usize>,
    q0: Seq<usize>,
    head: int,
    cur: usize,
    cx: int,
    cy: int,
)
    requires
        size >= 1,
        dist0.len() == size * size,
        dist1.len() == size * size,
        0 <= head < q0.len(),
        q0[head] == cur,
        (cur as int) < size * size,
        (dist0[cur as int] as int) < size * size,
        in_grid(size, cx, cy),
        cur as int == cell_index(size, cx, cy),
        forall|i: int| 0 <= i < size * size ==> ((#[trigger] dist0[i]) as int) <= size * size,
        forall|i: int|
            0 <= i < size * size && ((dist0[i]) as int) < size * size ==> dist1[i] == dist0[i],
        forall|i: int|
            0 <= i < size * size && ((dist0[i]) as int) == size * size && ((dist1[i]) as int)
                < size * size ==> (dist1[i] as int) == (dist0[cur as int] as int) + 1,
        forall|i: int|
            0 <= i < size * size && (#[trigger] dist0[i] as int) < size * size ==> (
            dist0[i] as int) <= (dist0[q0[head] as int] as int) + 1,
        passage_open(w, size, cx, cy, cx, cy - 1) ==> (dist1[cell_index(size, cx, cy - 1)] as int)
            < size * size,
        passage_open(w, size, cx, cy, cx + 1, cy) ==> (dist1[cell_index(size, cx + 1, cy)] as int)
            < size * size,
        passage_open(w, size, cx, cy, cx, cy + 1) ==> (dist1[cell_index(size, cx, cy + 1)] as int)
            < size * size,
        passage_open(w, size, cx, cy, cx - 1, cy) ==> (dist1[cell_index(size, cx - 1, cy)] as int)
            < size * size,
    ensures
        dist1[cur as int] == dist0[cur as int],
        passage_open(w, size, cx, cy, cx, cy - 1) ==> ((dist1[cell_index(size, cx, cy - 1)] as int)
            < size * size && (dist1[cell_index(size, cx, cy - 1)] as int) <= (dist0[
            cur as int
        ] as int) + 1),
        passage_open(w, size, cx, cy, cx + 1, cy) ==> ((dist1[cell_index(size, cx + 1, cy)] as int)
            < size * size && (dist1[cell_index(size, cx + 1, cy)] as int) <= (dist0[
            cur as int
        ] as int) + 1),
        passage_open(w, size, cx, cy, cx, cy + 1) ==> ((dist1[cell_index(size, cx, cy + 1)] as int)
            < size * size && (dist1[cell_index(size, cx, cy + 1)] as int) <= (dist0[
            cur as int
        ] as int) + 1),
        passage_open(w, size, cx, cy, cx - 1, cy) ==> ((dist1[cell_index(size, cx - 1, cy)] as int)
            < size * size && (dist1[cell_index(size, cx - 1, cy)] as int) <= (dist0[
            cur as int
        ] as int) + 1),
{
    if passage_open(w, size, cx, cy, cx, cy - 1) {
        lemma_cell_index_bounds(size, cx, cy - 1);
        let ii = cell_index(size, cx, cy - 1);
        if (dist0[ii] as int) < size * size {
            assert(dist1[ii] == dist0[ii]);
        } else {
            assert((dist0[ii] as int) == size * size);
            assert((dist1[ii] as int) == (dist0[cur as int] as int) + 1);
        }
    }
    if passage_open(w, size, cx, cy, cx + 1, cy) {
        lemma_cell_index_bounds(size, cx + 1, cy);
        let ii = cell_index(size, cx + 1, cy);
        if (dist0[ii] as int) < size * size {
            assert(dist1[ii] == dist0[ii]);
        } else {
            assert((dist0[ii] as int) == size * size);
            assert((dist1[ii] as int) == (dist0[cur as int] as int) + 1);
        }
    }
    if passage_open(w, size, cx, cy, cx, cy + 1) {
        lemma_cell_index_bounds(size, cx, cy + 1);
        let ii = cell_index(size, cx, cy + 1);
        if (dist0[ii] as int) < size * size {
            assert(dist1[ii] == dist0[ii]);
        } else {
            assert((dist0[ii] as int) == size * size);
            assert((dist1[ii] as int) == (dist0[cur as int] as int) + 1);
        }
    }
    if passage_open(w, size, cx, cy, cx - 1, cy) {
        lemma_cell_index_bounds(size, cx - 1, cy);
        let ii = cell_index(size, cx - 1, cy);
        if (dist0[ii] as int) < size * size {
            assert(dist1[ii] == dist0[ii]);
        } else {
            assert((dist0[ii] as int) == size * size);
            assert((dist1[ii] as int) == (dist0[cur as int] as int) + 1);
        }
    }
}

/// Two rounds of neighbor visits compose: what they say relative to
/// the middle state also holds relative to the first.
proof fn lemma_visit_compose(
    d0: Seq<usize>,
    d1: Seq<usize>,
    d2: Seq<usize>,
    q0: Seq<usize>,
    q1: Seq<usize>,
    q2: Seq<usize>,
    cur: usize,
    total: int,
)
    requires
        d0.len() == total,
        d1.len() == total,
        d2.len() == total,
        0 <= (cur as int) < total,
        (d0[cur as int] as int) < total,
        forall|i: int| 0 <= i < total ==> ((#[trigger] d1[i]) as int) <= total,
        forall|i: int| 0 <= i < total && ((d0[i]) as int) < total ==> d1[i] == d0[i],
        forall|i: int|
            0 <= i < total && ((d0[i]) as int) == total && ((d1[i]) as int) < total ==> (
            d1[i] as int) == (d0[cur as int] as int) + 1,
        q1.len() >= q0.len(),
        forall|j: int| 0 <= j < q0.len() ==> q1[j] == q0[j],
        forall|j: int|
            q0.len() <= j < q1.len() ==> (d1[(#[trigger] q1[j]) as int] as int) == (d0[
                cur as int
            ] as int) + 1,
        forall|j: int|
            0 <= j < q1.len() ==> ((#[trigger] q1[j]) as int) < total && (d1[q1[j] as int] as int)
                < total,
        forall|i: int| 0 <= i < total ==> ((#[trigger] d2[i]) as int) <= total,
        forall|i: int| 0 <= i < total && ((d1[i]) as int) < total ==> d2[i] == d1[i],
        forall|i: int|
            0 <= i < total && ((d1[i]) as int) == total && ((d2[i]) as int) < total ==> (
            d2[i] as int) == (d1[cur as int] as int) + 1,
        q2.len() >= q1.len(),
        forall|j: int| 0 <= j < q1.len() ==> q2[j] == q1[j],
        forall|j: int|
            q1.len() <= j < q2.len() ==> (d2[(#[trigger] q2[j]) as int] as int) == (d1[
                cur as int
            ] as int) + 1,
    ensures
        forall|i: int| 0 <= i < total && ((d0[i]) as int) < total ==> d2[i] == d0[i],
        forall|i: int|
            0 <= i < total && ((d0[i]) as int) == total && ((d2[i]) as int) < total ==> (
            d2[i] as int) == (d0[cur as int] as int) + 1,
        q2.len() >= q0.len(),
        forall|j: int| 0 <= j < q0.len() ==> q2[j] == q0[j],
        forall|j: int|
            q0.len() <= j < q2.len() ==> (d2[(#[trigger] q2[j]) as int] as int) == (d0[
                cur as int
            ] as int) + 1,
{
    assert(d1[cur as int] == d0[cur as int]);
    assert forall|i: int|
        0 <= i < total && ((d0[i]) as int) == total && ((d2[i]) as int) < total implies (
    d2[i] as int) == (d0[cur as int] as int) + 1 by {
        if (d1[i] as int) < total {
            assert((d1[i] as int) == (d0[cur as int] as int) + 1);
            assert(d2[i] == d1[i]);
        } else {
            assert((d1[i] as int) == total);
        }
    };
    assert forall|j: int|
        q0.len() <= j < q2.len() implies (d2[(#[trigger] q2[j]) as int] as int) == (d0[
        cur as int
    ] as int) + 1 by {
        if j < q1.len() {
            assert(q2[j] == q1[j]);
            assert((d1[q1[j] as int] as int) == (d0[cur as int] as int) + 1);
            assert((d1[q1[j] as int] as int) < total);
            assert(d2[q1[j] as int] == d1[q1[j] as int]);
        }
    };
}

/// Inspects all four neighbors of the current cell, enqueueing the
/// unreached ones behind open passages.
#[verifier::rlimit(100)]
fn bfs_expand(
    size: usize,
    walls: &Vec<bool>,
    dist: &mut Vec<usize>,
    parent: &mut Vec<usize>,
    q: &mut Vec<usize>,
    cur: usize,
    cx: usize,
    cy: usize,
    sx: usize,
    sy: usize,
)
    requires
        bfs_inv(walls@, size as int, sx as int, sy as int, old(dist)@, old(parent)@, old(q)@),
        in_grid(size as int, cx as int, cy as int),
        cur as int == cell_index(size as int, cx as int, cy as int),
        (old(dist)@[cur as int] as int) < size * size,
        (cur as int) < size * size,
        old(q)@.len() <= size * size,
        old(dist)@.len() == size * size,
        forall|i: int|
            0 <= i < old(dist)@.len() ==> ((#[trigger] old(dist)@[i]) as int) <= size * size,
        forall|j: int|
            0 <= j < old(q)@.len() ==> ((#[trigger] old(q)@[j]) as int) < size * size
                && (old(dist)@[(old(q)@[j]) as int] as int) < size * size,
    ensures
        bfs_inv(walls@, size as int, sx as int, sy as int, final(dist)@, final(parent)@, final(q)@),
        final(q)@.len() >= old(q)@.len(),
        final(q)@.len() <= size * size,
        final(dist)@.len() == size * size,
        forall|j: int| 0 <= j < old(q)@.len() ==> final(q)@[j] == old(q)@[j],
        forall|i: int|
            0 <= i < old(dist)@.len() && ((old(dist)@[i]) as int) < size * size ==> final(dist)@[i]
                == old(dist)@[i],
        passage_open(walls@, size as int, cx as int, cy as int, cx as int, cy as int - 1)
            ==> (final(dist)@[cell_index(size as int, cx as int, cy as int - 1)] as int) < size
            * size,
        passage_open(walls@, size as int, cx as int, cy as int, cx as int + 1, cy as int)
            ==> (final(dist)@[cell_index(size as int, cx as int + 1, cy as int)] as int) < size
            * size,
        passage_open(walls@, size as int, cx as int, cy as int, cx as int, cy as int + 1)
            ==> (final(dist)@[cell_index(size as int, cx as int, cy as int + 1)] as int) < size
            * size,
        passage_open(walls@, size as int, cx as int, cy as int, cx as int - 1, cy as int)
            ==> (final(dist)@[cell_index(size as int, cx as int - 1, cy as int)] as int) < size
            * size,
        forall|i: int|
            0 <= i < old(dist)@.len() && ((old(dist)@[i]) as int) == size * size
                && ((final(dist)@[i]) as int) < size * size
                ==> (final(dist)@[i] as int) == (old(dist)@[cur as int] as int) + 1,
        forall|j: int|
            old(q)@.len() <= j < final(q)@.len() ==> (final(dist)@[(#[trigger] final(q)@[j]) as int] as int)
                == (old(dist)@[cur as int] as int) + 1,
{
    let ghost sz = size as int;
    let ghost dist_in = dist@;
    let ghost q_in = q@;
    if cy >= 1 {
        bfs_visit(size, walls, dist, parent, q, cur, cx, cy, cx, cy - 1, sx, sy);
        proof {
            assert((dist@[cur as int] as int) < size * size);
        }
    }
    if cx + 1 < size {
        let ghost dp_right = dist@;
        let ghost qp_right = q@;
        bfs_visit(size, walls, dist, parent, q, cur, cx, cy, cx + 1, cy, sx, sy);
        proof {
            assert((dist@[cur as int] as int) < size * size);
            lemma_visit_compose(
                dist_in,
                dp_right,
                dist@,
                q_in,
                qp_right,
                q@,
                cur,
                (size * size) as int,
            );
            assert(passage_open(walls@, sz, cx as int, cy as int, cx as int, cy as int - 1)
                ==> (dist@[cell_index(sz, cx as int, cy as int - 1)] as int) < size * size) by {
                if passage_open(walls@, sz, cx as int, cy as int, cx as int, cy as int - 1) {
                    lemma_cell_index_bounds(sz, cx as int, cy as int - 1);
                }
            };
        }
    }
    if cy + 1 < size {
        let ghost dp_down = dist@;
        let ghost qp_down = q@;
        bfs_visit(size, walls, dist, parent, q, cur, cx, cy, cx, cy + 1, sx, sy);
        proof {
            assert((dist@[cur as int] as int) < size * size);
            lemma_visit_compose(
                dist_in,
                dp_down,
                dist@,
                q_in,
                qp_down,
                q@,
                cur,
                (size * size) as int,
            );
            assert(passage_open(walls@, sz, cx as int, cy as int, cx as int, cy as int - 1)
                ==> (dist@[cell_index(sz, cx as int, cy as int - 1)] as int) < size * size) by {
                if passage_open(walls@, sz, cx as int, cy as int, cx as int, cy as int - 1) {
                    lemma_cell_index_bounds(sz, cx as int, cy as int - 1);
                }
            };
            assert(passage_open(walls@, sz, cx as int, cy as int, cx as int + 1, cy as int)
                ==> (dist@[cell_index(sz, cx as int + 1, cy as int)] as int) < size * size) by {
                if passage_open(walls@, sz, cx as int, cy as int, cx as int + 1, cy as int) {
                    lemma_cell_index_bounds(sz, cx as int + 1, cy as int);
                }
            };
        }
    }
    if cx >= 1 {
        let ghost dp_left = dist@;
        let ghost qp_left = q@;
        bfs_visit(size, walls, dist, parent, q, cur, cx, cy, cx - 1, cy, sx, sy);
        proof {
            assert((dist@[cur as int] as int) < size * size);
            lemma_visit_compose(
                dist_in,
                dp_left,
                dist@,
                q_in,
                qp_left,
                q@,
                cur,
                (size * size) as int,
            );
            assert(passage_open(walls@, sz, cx as int, cy as int, cx as int, cy as int - 1)
                ==> (dist@[cell_index(sz, cx as int, cy as int - 1)] as int) < size * size) by {
                if passage_open(walls@, sz, cx as int, cy as int, cx as int, cy as int - 1) {
                    lemma_cell_index_bounds(sz, cx as int, cy as int - 1);
                }
            };
            assert(passage_open(walls@, sz, cx as int, cy as int, cx as int + 1, cy as int)
                ==> (dist@[cell_index(sz, cx as int + 1, cy as int)] as int) < size * size) by {
                if passage_open(walls@, sz, cx as int, cy as int, cx as int + 1, cy as int) {
                    lemma_cell_index_bounds(sz, cx as int + 1, cy as int);
                }
            };
            assert(passage_open(walls@, sz, cx as int, cy as int, cx as int, cy as int + 1)
                ==> (dist@[cell_index(sz, cx as int, cy as int + 1)] as int) < size * size) by {
                if passage_open(walls@, sz, cx as int, cy as int, cx as int, cy as int + 1) {
                    lemma_cell_index_bounds(sz, cx as int, cy as int + 1);
                }
            };
        }
    }
}

/// Breadth-first traversal of the maze from `(sx, sy)`.
///
/// Returns the distance map and the predecessor map.  On a maze whose
/// every cell is connected to the start, every cell is reached:
/// `bfs_post` records the start values, the predecessor edges with their
/// distance arithmetic, and the Manhattan lower bound on distances.
#[verifier::rlimit(100)]
fn bfs_inner(size: usize, walls: &Vec<bool>, sx: usize, sy: usize) -> (r: (Vec<usize>, Vec<usize>))
    requires
        1 <= size,
        4 * size * size <= usize::MAX,
        walls_len_ok(walls@, size as int),
        in_grid(size as int, sx as int, sy as int),
        forall|x: int, y: int|
            in_grid(size as int, x, y) ==> connected(
                walls@,
                size as int,
                sx as int,
                sy as int,
                x,
                y,
            ),
    ensures
        bfs_post(walls@, size as int, sx as int, sy as int, r.0@, r.1@),
{
    let ghost sz = size as int;
    proof {
        assert(size * size <= 4 * size * size && 4 * (size * size) == 4 * size * size)
            by (nonlinear_arith)
            requires
                size >= 1,
        ;
    }
    let total = size * size;
    let mut dist = fill_usize(total, total);
    let mut parent = fill_usize(total, 0);
    let si = cell_index_of(size, sx, sy);
    proof {
        assert(forall|i: int|
            0 <= i < total ==> !(#[trigger] reached_marks(dist@, total as int)[i]));
        lemma_marked_count_none(reached_marks(dist@, total as int));
        lemma_marked_count_set(reached_marks(dist@, total as int), si as int);
    }
    let ghost dist0 = dist@;
    dist.set(si, 0);
    parent.set(si, si);
    let mut q: Vec<usize> = Vec::new();
    q.push(si);
    let mut head: usize = 0;
    proof {
        reveal(bfs_inv);
        reveal(bfs_processed);
        assert(reached_marks(dist@, total as int) =~= reached_marks(dist0, total as int).update(
            si as int,
            true,
        ));
        lemma_cell_index_coords(sz, sx as int, sy as int);
        assert(q@[0] == si);
        assert forall|i: int|
            0 <= i < total && (#[trigger] dist@[i] as int) < total implies in_queue(q@, i) by {
            assert(i == si as int);
            assert(q@[0] == si);
        };
        assert(bfs_inv(walls@, sz, sx as int, sy as int, dist@, parent@, q@));
        assert(bfs_processed(walls@, sz, dist@, q@, 0));
    }
    while head < q.len()
        invariant
            sz == size as int,
            total == size * size,
            head <= q@.len(),
            q@.len() <= total,
            bfs_inv(walls@, sz, sx as int, sy as int, dist@, parent@, q@),
            bfs_processed(walls@, sz, dist@, q@, head as int),
            q_sorted(dist@, q@),
            q_window(dist@, q@, head as int),
        decreases total - head,
    {
        let cur = q[head];
        proof {
            lemma_inv_facts(walls@, sz, sx as int, sy as int, dist@, parent@, q@, head as int);
            lemma_reached_bound(dist@, q@, head as int, total as int);
        }
        let cx = cur % size;
        let cy = cur / size;
        proof {
            lemma_index_coords(sz, cur as int);
        }
        let ghost q_at_start = q@;
        let ghost dist_at_start = dist@;
        bfs_expand(size, walls, &mut dist, &mut parent, &mut q, cur, cx, cy, sx, sy);
        let ghost head0 = head as int;
        head = head + 1;
        proof {
            assert forall|j: int|
                0 <= j < q_at_start.len() implies (dist@[(#[trigger] q_at_start[j]) as int] as int)
                == (dist_at_start[q_at_start[j] as int] as int) by {
                assert((dist_at_start[q_at_start[j] as int] as int) < total);
            };
            lemma_order_advance(dist_at_start, dist@, q_at_start, q@, head0, cur);
            lemma_loop_neighbor_bounds(
                walls@,
                sz,
                dist_at_start,
                dist@,
                q_at_start,
                head0,
                cur,
                cx as int,
                cy as int,
            );
            lemma_processed_extend(
                walls@,
                sz,
                dist_at_start,
                dist@,
                q_at_start,
                q@,
                head0,
                cur,
                cx as int,
                cy as int,
            );
        }
    }
    proof {
        lemma_bfs_complete(walls@, sz, sx as int, sy as int, dist@, parent@, q@);
    }
    (dist, parent)
}

/// Breadth-first traversal of the maze from `(sx, sy)`; see `bfs_post`.
pub fn bfs(size: usize, walls: &Vec<bool>, sx: usize, sy: usize) -> (r: (Vec<usize>, Vec<usize>))
    requires
        1 <= size,
        4 * size * size <= usize::MAX,
        walls_len_ok(walls@, size as int),
        in_grid(size as int, sx as int, sy as int),
        forall|x: int, y: int|
            in_grid(size as int, x, y) ==> connected(
                walls@,
                size as int,
                sx as int,
                sy as int,
                x,
                y,
            ),
    ensures
        bfs_post(walls@, size as int, sx as int, sy as int, r.0@, r.1@),
{
    bfs_inner(size, walls, sx, sy)
}

/// The first cell index of maximal distance.
#[verifier::loop_isolation(false)]
pub fn furthest_cell(size: usize, dist: &Vec<usize>) -> (r: usize)
    requires
        1 <= size,
        size * size <= usize::MAX,
        dist@.len() == size * size,
    ensures
        (r as int) < size * size,
        forall|i: int|
            0 <= i < size * size ==> ((#[trigger] dist@[i]) as int) <= dist@[r as int] as int,
        forall|i: int| 0 <= i < r ==> ((#[trigger] dist@[i]) as int) < dist@[r as int] as int,
{
    proof {
        assert(size * size >= 1) by (nonlinear_arith)
            requires
                size >= 1,
        ;
    }
    let total = size * size;
    let mut best: usize = 0;
    let mut i: usize = 1;
    while i < total
        invariant
            1 <= i <= total,
            (best as int) < i,
            forall|k: int| 0 <= k < i ==> ((#[trigger] dist@[k]) as int) <= dist@[best as int] as int,
            forall|k: int| 0 <= k < best ==> ((#[trigger] dist@[k]) as int) < dist@[best as int] as int,
        decreases total - i,
    {
        if dist[i] > dist[best] {
            best = i;
        }
        i = i + 1;
    }
    best
}

/// Turning the collected predecessor chain around yields an open path
/// from the traversal start to the target, with the cell at position `k`
/// sitting at distance `k`.
#[verifier::rlimit(100)]
proof fn lemma_trace_reverse(
    w: Seq<bool>,
    size: int,
    sx: usize,
    sy: usize,
    tx: usize,
    ty: usize,
    dist: Seq<usize>,
    rev: Seq<(usize, usize)>,
    p: Seq<(usize, usize)>,
    d0: int,
)
    requires
        size >= 1,
        in_grid(size, sx as int, sy as int),
        in_grid(size, tx as int, ty as int),
        dist.len() == size * size,
        d0 == dist[cell_index(size, tx as int, ty as int)] as int,
        rev.len() == d0 + 1,
        rev[0] == (tx, ty),
        rev[rev.len() - 1] == (sx, sy),
        forall|j: int|
            0 <= j < rev.len() ==> in_grid(size, (#[trigger] rev[j]).0 as int, rev[j].1 as int) && (
            dist[cell_index(size, rev[j].0 as int, rev[j].1 as int)] as int) == d0 - j,
        forall|j: int|
            0 <= j < rev.len() - 1 ==> passage_open(
                w,
                size,
                (#[trigger] rev[j + 1]).0 as int,
                rev[j + 1].1 as int,
                rev[j].0 as int,
                rev[j].1 as int,
            ),
        p.len() == rev.len(),
        forall|j: int| 0 <= j < p.len() ==> (#[trigger] p[j]) == rev[p.len() - 1 - j],
    ensures
        is_path(w, size, cells_view(p), sx as int, sy as int, tx as int, ty as int),
        forall|k: int|
            0 <= k < p.len() ==> in_grid(size, (#[trigger] p[k]).0 as int, p[k].1 as int) && (
            dist[cell_index(size, p[k].0 as int, p[k].1 as int)] as int) == k,
{
    let n = rev.len() as int;
    assert(p[0] == rev[n - 1]);
    assert(p[p.len() - 1] == rev[0]);
    let cv = cells_view(p);
    assert(cv.len() == p.len());
    assert forall|i: int| 0 <= i < cv.len() implies (#[trigger] cv[i]) == (
        p[i].0 as int,
        p[i].1 as int,
    ) by {};
    assert forall|i: int| 0 <= i < cv.len() - 1 implies passage_open(
        w,
        size,
        (#[trigger] cv[i]).0,
        cv[i].1,
        cv[i + 1].0,
        cv[i + 1].1,
    ) by {
        let j = n - 2 - i;
        assert(p[i] == rev[n - 1 - i]);
        assert(p[i + 1] == rev[n - 2 - i]);
        assert(passage_open(
            w,
            size,
            (rev[j + 1]).0 as int,
            rev[j + 1].1 as int,
            rev[j].0 as int,
            rev[j].1 as int,
        ));
    };
    assert forall|i: int| 0 <= i < cv.len() implies in_grid(size, (#[trigger] cv[i]).0, cv[i].1) by {
        assert(p[i] == rev[n - 1 - i]);
    };
    assert(is_path(w, size, cv, sx as int, sy as int, tx as int, ty as int));
    assert forall|k: int| 0 <= k < p.len() implies in_grid(
        size,
        (#[trigger] p[k]).0 as int,
        p[k].1 as int,
    ) && (dist[cell_index(size, p[k].0 as int, p[k].1 as int)] as int) == k by {
        assert(p[k] == rev[n - 1 - k]);
    };
}

/// Rebuilds the predecessor path from the start of a traversal to a
/// target cell: an open path whose cell at position `k` sits at distance
/// `k`.
#[verifier::rlimit(100)]
#[verifier::loop_isolation(false)]
pub fn trace_path(
    size: usize,
    walls: &Vec<bool>,
    dist: &Vec<usize>,
    parent: &Vec<usize>,
    sx: usize,
    sy: usize,
    tx: usize,
    ty: usize,
) -> (p: Vec<(usize, usize)>)
    requires
        1 <= size,
        4 * size * size <= usize::MAX,
        walls_len_ok(walls@, size as int),
        in_grid(size as int, sx as int, sy as int),
        in_grid(size as int, tx as int, ty as int),
        bfs_post(walls@, size as int, sx as int, sy as int, dist@, parent@),
    ensures
        p@.len() == (dist@[cell_index(size as int, tx as int, ty as int)] as int) + 1,
        is_path(walls@, size as int, cells_view(p@), sx as int, sy as int, tx as int, ty as int),
        forall|k: int|
            0 <= k < p@.len() ==> in_grid(size as int, (#[trigger] p@[k]).0 as int, p@[k].1 as int)
                && (dist@[cell_index(size as int, p@[k].0 as int, p@[k].1 as int)] as int) == k,
{
    let ghost sz = size as int;
    proof {
        assert(size * size <= 4 * size * size && 4 * (size * size) == 4 * size * size)
            by (nonlinear_arith)
            requires
                size >= 1,
        ;
        lemma_cell_index_bounds(sz, tx as int, ty as int);
        lemma_cell_index_bounds(sz, sx as int, sy as int);
    }
    let ti = cell_index_of(size, tx, ty);
    let ghost d0 = dist@[ti as int] as int;
    let mut rev: Vec<(usize, usize)> = Vec::new();
    let mut cx = tx;
    let mut cy = ty;
    let mut ci = ti;
    rev.push((tx, ty));
    proof {
        lemma_cell_index_coords(sz, tx as int, ty as int);
    }
    while dist[ci] > 0
        invariant
            in_grid(sz, cx as int, cy as int),
            ci as int == cell_index(sz, cx as int, cy as int),
            (ci as int) < size * size,
            rev@.len() >= 1,
            rev@[0] == (tx, ty),
            rev@[rev@.len() - 1] == (cx, cy),
            rev@.len() == d0 - (dist@[ci as int] as int) + 1,
            forall|j: int|
                0 <= j < rev@.len() ==> in_grid(sz, (#[trigger] rev@[j]).0 as int, rev@[j].1 as int)
                    && (dist@[cell_index(sz, rev@[j].0 as int, rev@[j].1 as int)] as int) == d0 - j,
            forall|j: int|
                0 <= j < rev@.len() - 1 ==> passage_open(
                    walls@,
                    sz,
                    (#[trigger] rev@[j + 1]).0 as int,
                    rev@[j + 1].1 as int,
                    rev@[j].0 as int,
                    rev@[j].1 as int,
                ),
        decreases dist@[ci as int],
    {
        let pi = parent[ci];
        proof {
            assert(ci as int != cell_index(sz, sx as int, sy as int)) by {
                if ci as int == cell_index(sz, sx as int, sy as int) {
                    assert((dist@[ci as int] as int) == 0);
                }
            };
            lemma_index_coords(sz, pi as int);
        }
        let px = pi % size;
        let py = pi / size;
        rev.push((px, py));
        proof {
            assert(index_x(sz, pi as int) == px as int && index_y(sz, pi as int) == py as int);
            lemma_cell_index_coords(sz, cx as int, cy as int);
            assert(index_x(sz, ci as int) == cx as int && index_y(sz, ci as int) == cy as int);
            lemma_cell_index_coords(sz, px as int, py as int);
            assert(cell_index(sz, px as int, py as int) == pi as int);
            assert(passage_open(
                walls@,
                sz,
                index_x(sz, parent@[ci as int] as int),
                index_y(sz, parent@[ci as int] as int),
                index_x(sz, ci as int),
                index_y(sz, ci as int),
            ));
            assert(passage_open(walls@, sz, px as int, py as int, cx as int, cy as int));
            assert(rev@[rev@.len() - 1] == (px, py));
            assert(rev@[rev@.len() - 2] == (cx, cy));
        }
        cx = px;
        cy = py;
        ci = pi;
    }
    proof {
        // distance zero occurs only at the start cell
        let si = cell_index(sz, sx as int, sy as int);
        if ci as int != si {
            assert((dist@[parent@[ci as int] as int] as int) + 1 == dist@[ci as int] as int);
            assert(false);
        }
        lemma_cell_index_injective(sz, cx as int, cy as int, sx as int, sy as int);
    }
    let n = rev.len();
    let mut p: Vec<(usize, usize)> = Vec::new();
    let mut k: usize = 0;
    while k < n
        invariant
            k <= n,
            p@.len() == k,
            forall|j: int| 0 <= j < k ==> (#[trigger] p@[j]) == rev@[n - 1 - j],
        decreases n - k,
    {
        let c = rev[n - 1 - k];
        p.push(c);
        k = k + 1;
    }
    proof {
        lemma_trace_reverse(
            walls@,
            sz,
            sx,
            sy,
            tx,
            ty,
            dist@,
            rev@,
            p@,
            d0,
        );
    }
    p
}

} // verus!
