//! Reachability over open passages: paths, connectivity, and the lemmas
//! that relate them.
//!
//! A path is a sequence of grid cells in which consecutive cells are
//! joined by an open passage.  `connected` is the existence of such a
//! path.  The lemmas here give reflexivity, extension by one step,
//! transitivity, symmetry (from the wall-pairing invariant), preservation
//! when walls are only ever opened, and the two covering arguments used by
//! the generator and the flood fill: a set of cells closed under
//! (open-)adjacency that holds one cell of the grid holds every cell it
//! connects to.

use vstd::prelude::*;
use crate::wall_model::adjacent;
use crate::wall_model::cell_index;
use crate::wall_model::in_grid;
use crate::wall_model::lemma_flag_bounds;
use crate::wall_model::passage_open;
use crate::wall_model::wall_flag;
use crate::wall_model::walls_len_ok;
use crate::wall_model::walls_symmetric;

verus! {

/// Whether `p` is a path of open passages from `(ax, ay)` to `(bx, by)`.
pub open spec fn is_path(
    w: Seq<bool>,
    size: int,
    p: Seq<(int, int)>,
    ax: int,
    ay: int,
    bx: int,
    by: int,
) -> bool {
    &&& p.len() >= 1
    &&& p[0] == (ax, ay)
    &&& p[p.len() - 1] == (bx, by)
    &&& forall|i: int| 0 <= i < p.len() ==> in_grid(size, (#[trigger] p[i]).0, p[i].1)
    &&& forall|i: int|
        0 <= i < p.len() - 1 ==> passage_open(
            w,
            size,
            (#[trigger] p[i]).0,
            p[i].1,
            p[i + 1].0,
            p[i + 1].1,
        )
}

/// Whether an open path joins `(ax, ay)` to `(bx, by)`.
pub open spec fn connected(w: Seq<bool>, size: int, ax: int, ay: int, bx: int, by: int) -> bool {
    exists|p: Seq<(int, int)>| is_path(w, size, p, ax, ay, bx, by)
}

/// The integer view of a sequence of cells.
pub open spec fn cells_view(s: Seq<(usize, usize)>) -> Seq<(int, int)> {
    s.map_values(|c: (usize, usize)| (c.0 as int, c.1 as int))
}

/// `|a - b|`.
pub open spec fn abs_diff(a: int, b: int) -> int {
    if a >= b {
        a - b
    } else {
        b - a
    }
}

/// The Manhattan distance of two cells.
pub open spec fn manhattan(x1: int, y1: int, x2: int, y2: int) -> int {
    abs_diff(x1, x2) + abs_diff(y1, y2)
}

/// Every cell connects to itself.
pub proof fn lemma_connected_refl(w: Seq<bool>, size: int, ax: int, ay: int)
    requires
        in_grid(size, ax, ay),
    ensures
        connected(w, size, ax, ay, ax, ay),
{
    let p: Seq<(int, int)> = seq![(ax, ay)];
    assert(is_path(w, size, p, ax, ay, ax, ay));
}

/// A path extends by one open passage.
pub proof fn lemma_connected_step(
    w: Seq<bool>,
    size: int,
    ax: int,
    ay: int,
    bx: int,
    by: int,
    cx: int,
    cy: int,
)
    requires
        connected(w, size, ax, ay, bx, by),
        passage_open(w, size, bx, by, cx, cy),
    ensures
        connected(w, size, ax, ay, cx, cy),
{
    let p = choose|p: Seq<(int, int)>| is_path(w, size, p, ax, ay, bx, by);
    let q = p.push((cx, cy));
    assert(q[q.len() - 1] == (cx, cy));
    assert forall|i: int| 0 <= i < q.len() implies in_grid(size, (#[trigger] q[i]).0, q[i].1) by {
        if i < p.len() {
            assert(q[i] == p[i]);
        }
    };
    assert forall|i: int| 0 <= i < q.len() - 1 implies passage_open(
        w,
        size,
        (#[trigger] q[i]).0,
        q[i].1,
        q[i + 1].0,
        q[i + 1].1,
    ) by {
        if i < p.len() - 1 {
            assert(q[i] == p[i]);
            assert(q[i + 1] == p[i + 1]);
        } else {
            assert(q[i] == p[p.len() - 1]);
            assert(q[i + 1] == (cx, cy));
        }
    };
    assert(is_path(w, size, q, ax, ay, cx, cy));
}

/// Connectivity is transitive.
pub proof fn lemma_connected_trans(
    w: Seq<bool>,
    size: int,
    ax: int,
    ay: int,
    bx: int,
    by: int,
    cx: int,
    cy: int,
)
    requires
        connected(w, size, ax, ay, bx, by),
        connected(w, size, bx, by, cx, cy),
    ensures
        connected(w, size, ax, ay, cx, cy),
{
    let p = choose|p: Seq<(int, int)>| is_path(w, size, p, ax, ay, bx, by);
    let q0 = choose|q0: Seq<(int, int)>| is_path(w, size, q0, bx, by, cx, cy);
    if q0.len() == 1 {
        assert((bx, by) == (cx, cy));
        assert(is_path(w, size, p, ax, ay, cx, cy));
    } else {
        let q = p + q0.subrange(1, q0.len() as int);
        assert(q.len() == p.len() + q0.len() - 1);
        assert(q[0] == p[0]);
        assert(q[q.len() - 1] == q0[q0.len() - 1]);
        assert forall|i: int| 0 <= i < q.len() implies in_grid(size, (#[trigger] q[i]).0, q[i].1) by {
            if i < p.len() {
                assert(q[i] == p[i]);
            } else {
                assert(q[i] == q0[i - p.len() + 1]);
            }
        };
        assert forall|i: int| 0 <= i < q.len() - 1 implies passage_open(
            w,
            size,
            (#[trigger] q[i]).0,
            q[i].1,
            q[i + 1].0,
            q[i + 1].1,
        ) by {
            if i < p.len() - 1 {
                assert(q[i] == p[i]);
                assert(q[i + 1] == p[i + 1]);
            } else if i == p.len() - 1 {
                assert(q[i] == p[p.len() - 1]);
                assert(q[i + 1] == q0[1]);
                assert(q0[0] == (bx, by));
                assert(passage_open(w, size, q0[0].0, q0[0].1, q0[1].0, q0[1].1));
            } else {
                assert(q[i] == q0[i - p.len() + 1]);
                assert(q[i + 1] == q0[i - p.len() + 2]);
                let j = i - p.len() + 1;
                assert(passage_open(w, size, (q0[j]).0, q0[j].1, q0[j + 1].0, q0[j + 1].1));
            }
        };
        assert(is_path(w, size, q, ax, ay, cx, cy));
    }
}

/// With symmetric walls, a path can be walked backward.
proof fn lemma_path_reverse(
    w: Seq<bool>,
    size: int,
    p: Seq<(int, int)>,
    ax: int,
    ay: int,
    bx: int,
    by: int,
)
    requires
        walls_symmetric(w, size),
        is_path(w, size, p, ax, ay, bx, by),
    ensures
        connected(w, size, bx, by, ax, ay),
    decreases p.len(),
{
    if p.len() == 1 {
        assert((ax, ay) == (bx, by));
        lemma_connected_refl(w, size, bx, by);
    } else {
        let q = p.subrange(1, p.len() as int);
        assert(q[0] == p[1]);
        assert(q[q.len() - 1] == p[p.len() - 1]);
        assert forall|i: int| 0 <= i < q.len() implies in_grid(size, (#[trigger] q[i]).0, q[i].1) by {
            assert(q[i] == p[i + 1]);
        };
        assert forall|i: int| 0 <= i < q.len() - 1 implies passage_open(
            w,
            size,
            (#[trigger] q[i]).0,
            q[i].1,
            q[i + 1].0,
            q[i + 1].1,
        ) by {
            assert(q[i] == p[i + 1]);
            assert(q[i + 1] == p[i + 2]);
            assert(passage_open(w, size, (p[i + 1]).0, p[i + 1].1, p[i + 2].0, p[i + 2].1));
        };
        assert(is_path(w, size, q, p[1].0, p[1].1, bx, by));
        lemma_path_reverse(w, size, q, p[1].0, p[1].1, bx, by);
        assert(passage_open(w, size, ax, ay, p[1].0, p[1].1));
        assert(w[wall_flag(size, ax, ay, p[1].0, p[1].1)] == w[wall_flag(
            size,
            p[1].0,
            p[1].1,
            ax,
            ay,
        )]);
        assert(passage_open(w, size, p[1].0, p[1].1, ax, ay));
        lemma_connected_step(w, size, bx, by, p[1].0, p[1].1, ax, ay);
    }
}

/// With symmetric walls, connectivity is symmetric.
pub proof fn lemma_connected_sym(w: Seq<bool>, size: int, ax: int, ay: int, bx: int, by: int)
    requires
        walls_symmetric(w, size),
        connected(w, size, ax, ay, bx, by),
    ensures
        connected(w, size, bx, by, ax, ay),
{
    let p = choose|p: Seq<(int, int)>| is_path(w, size, p, ax, ay, bx, by);
    lemma_path_reverse(w, size, p, ax, ay, bx, by);
}

/// Whether `w2` has every passage of `w1` open (and possibly more).
pub open spec fn opens_superset(w1: Seq<bool>, w2: Seq<bool>) -> bool {
    &&& w1.len() == w2.len()
    &&& forall|i: int| 0 <= i < w1.len() && !w1[i] ==> !(#[trigger] w2[i])
}

/// Opening walls never disconnects anything.
pub proof fn lemma_connected_monotone(
    w1: Seq<bool>,
    w2: Seq<bool>,
    size: int,
    ax: int,
    ay: int,
    bx: int,
    by: int,
)
    requires
        walls_len_ok(w1, size),
        opens_superset(w1, w2),
        connected(w1, size, ax, ay, bx, by),
    ensures
        connected(w2, size, ax, ay, bx, by),
{
    let p = choose|p: Seq<(int, int)>| is_path(w1, size, p, ax, ay, bx, by);
    assert forall|i: int| 0 <= i < p.len() - 1 implies passage_open(
        w2,
        size,
        (#[trigger] p[i]).0,
        p[i].1,
        p[i + 1].0,
        p[i + 1].1,
    ) by {
        assert(passage_open(w1, size, (p[i]).0, p[i].1, p[i + 1].0, p[i + 1].1));
        lemma_flag_bounds(
            size,
            p[i].0,
            p[i].1,
            crate::wall_model::side_toward(p[i].0, p[i].1, p[i + 1].0, p[i + 1].1),
        );
    };
    assert(is_path(w2, size, p, ax, ay, bx, by));
}

/// A set of marked cells that holds one cell and is closed under grid
/// adjacency holds every cell of the grid.
pub proof fn lemma_adjacent_closure_covers(
    size: int,
    marks: Seq<bool>,
    sx: int,
    sy: int,
    cx: int,
    cy: int,
)
    requires
        marks.len() == size * size,
        in_grid(size, sx, sy),
        in_grid(size, cx, cy),
        marks[cell_index(size, sx, sy)],
        forall|x1: int, y1: int, x2: int, y2: int|
            #![trigger cell_index(size, x1, y1), cell_index(size, x2, y2)]
            in_grid(size, x1, y1) && in_grid(size, x2, y2) && adjacent(x1, y1, x2, y2)
                && marks[cell_index(size, x1, y1)] ==> marks[cell_index(size, x2, y2)],
    ensures
        marks[cell_index(size, cx, cy)],
    decreases manhattan(sx, sy, cx, cy),
{
    if cx == sx && cy == sy {
    } else {
        let nx = if sx < cx {
            sx + 1
        } else if sx > cx {
            sx - 1
        } else {
            sx
        };
        let ny = if sx != cx {
            sy
        } else if sy < cy {
            sy + 1
        } else {
            sy - 1
        };
        assert(in_grid(size, nx, ny));
        assert(adjacent(sx, sy, nx, ny));
        assert(marks[cell_index(size, nx, ny)]);
        assert(manhattan(nx, ny, cx, cy) < manhattan(sx, sy, cx, cy));
        lemma_adjacent_closure_covers(size, marks, nx, ny, cx, cy);
    }
}

/// A set of marked cells closed under open passages holds the far end of
/// every open path that starts inside it.
proof fn lemma_open_closure_path(
    w: Seq<bool>,
    size: int,
    marks: Seq<bool>,
    p: Seq<(int, int)>,
    ax: int,
    ay: int,
    bx: int,
    by: int,
)
    requires
        marks.len() == size * size,
        is_path(w, size, p, ax, ay, bx, by),
        marks[cell_index(size, ax, ay)],
        forall|x1: int, y1: int, x2: int, y2: int|
            #![trigger cell_index(size, x1, y1), cell_index(size, x2, y2)]
            passage_open(w, size, x1, y1, x2, y2) && marks[cell_index(size, x1, y1)]
                ==> marks[cell_index(size, x2, y2)],
    ensures
        marks[cell_index(size, bx, by)],
    decreases p.len(),
{
    if p.len() == 1 {
        assert((ax, ay) == (bx, by));
    } else {
        let q = p.drop_last();
        let mx = p[p.len() - 2].0;
        let my = p[p.len() - 2].1;
        assert(q[0] == p[0]);
        assert(q[q.len() - 1] == p[p.len() - 2]);
        assert forall|i: int| 0 <= i < q.len() implies in_grid(size, (#[trigger] q[i]).0, q[i].1) by {
            assert(q[i] == p[i]);
        };
        assert forall|i: int| 0 <= i < q.len() - 1 implies passage_open(
            w,
            size,
            (#[trigger] q[i]).0,
            q[i].1,
            q[i + 1].0,
            q[i + 1].1,
        ) by {
            assert(q[i] == p[i]);
            assert(q[i + 1] == p[i + 1]);
            assert(passage_open(w, size, (p[i]).0, p[i].1, p[i + 1].0, p[i + 1].1));
        };
        assert(is_path(w, size, q, ax, ay, mx, my));
        lemma_open_closure_path(w, size, marks, q, ax, ay, mx, my);
        assert(passage_open(w, size, (p[p.len() - 2]).0, p[p.len() - 2].1, p[p.len() - 1].0, p[p.len() - 1].1));
        assert(passage_open(w, size, mx, my, bx, by));
        assert(marks[cell_index(size, mx, my)]);
        assert(marks[cell_index(size, bx, by)]);
    }
}

/// A set of marked cells closed under open passages holds every cell
/// connected to a marked cell.
pub proof fn lemma_open_closure_covers(
    w: Seq<bool>,
    size: int,
    marks: Seq<bool>,
    ax: int,
    ay: int,
    bx: int,
    by: int,
)
    requires
        marks.len() == size * size,
        connected(w, size, ax, ay, bx, by),
        marks[cell_index(size, ax, ay)],
        forall|x1: int, y1: int, x2: int, y2: int|
            #![trigger cell_index(size, x1, y1), cell_index(size, x2, y2)]
            passage_open(w, size, x1, y1, x2, y2) && marks[cell_index(size, x1, y1)]
                ==> marks[cell_index(size, x2, y2)],
    ensures
        marks[cell_index(size, bx, by)],
{
    let p = choose|p: Seq<(int, int)>| is_path(w, size, p, ax, ay, bx, by);
    lemma_open_closure_path(w, size, marks, p, ax, ay, bx, by);
}

/// Single-source connectivity plus symmetry gives all-pairs connectivity.
pub proof fn lemma_connected_all_pairs(w: Seq<bool>, size: int, sx: int, sy: int)
    requires
        walls_symmetric(w, size),
        in_grid(size, sx, sy),
        forall|x: int, y: int| in_grid(size, x, y) ==> #[trigger] connected(w, size, sx, sy, x, y),
    ensures
        forall|x1: int, y1: int, x2: int, y2: int|
            in_grid(size, x1, y1) && in_grid(size, x2, y2) ==> #[trigger] connected(
                w,
                size,
                x1,
                y1,
                x2,
                y2,
            ),
{
    assert forall|x1: int, y1: int, x2: int, y2: int|
        in_grid(size, x1, y1) && in_grid(size, x2, y2) implies #[trigger] connected(
        w,
        size,
        x1,
        y1,
        x2,
        y2,
    ) by {
        assert(connected(w, size, sx, sy, x1, y1));
        assert(connected(w, size, sx, sy, x2, y2));
        lemma_connected_sym(w, size, sx, sy, x1, y1);
        lemma_connected_trans(w, size, x1, y1, sx, sy, x2, y2);
    };
}

} // verus!
