//! The wall model: an `n x n` grid of cells, four wall flags per cell.
//!
//! A cell is addressed by coordinates `(x, y)` with `0 <= x, y < size` and
//! flattened to the index `y * size + x`.  Each cell owns four wall flags,
//! stored at `cell_index * 4 + side` with side `0` = top (toward `y - 1`),
//! `1` = right (`x + 1`), `2` = bottom (`y + 1`), `3` = left (`x - 1`).
//! `true` means the wall stands, `false` means the passage is open.
//!
//! The central invariant is symmetry: for adjacent cells `a` and `b`, the
//! flag on `a`'s side facing `b` and the flag on `b`'s side facing `a` are
//! always equal, so there are no one-way walls.

use vstd::prelude::*;

verus! {

/// Whether `(x, y)` is a cell of the `size x size` grid.
pub open spec fn in_grid(size: int, x: int, y: int) -> bool {
    0 <= x < size && 0 <= y < size
}

/// The flattened index of cell `(x, y)`.
pub open spec fn cell_index(size: int, x: int, y: int) -> int {
    y * size + x
}

/// Whether two cells share a grid edge (Manhattan distance one).
pub open spec fn adjacent(x1: int, y1: int, x2: int, y2: int) -> bool {
    (x1 == x2 && (y2 == y1 + 1 || y2 == y1 - 1)) || (y1 == y2 && (x2 == x1 + 1 || x2 == x1 - 1))
}

/// The x coordinate of the neighbor on side `s` of a cell with x coordinate `x`.
pub open spec fn neighbor_x(x: int, s: int) -> int {
    if s == 1 {
        x + 1
    } else if s == 3 {
        x - 1
    } else {
        x
    }
}

/// The y coordinate of the neighbor on side `s` of a cell with y coordinate `y`.
pub open spec fn neighbor_y(y: int, s: int) -> int {
    if s == 0 {
        y - 1
    } else if s == 2 {
        y + 1
    } else {
        y
    }
}

/// The side of `(x1, y1)` that faces the adjacent cell `(x2, y2)`.
pub open spec fn side_toward(x1: int, y1: int, x2: int, y2: int) -> int {
    if y2 == y1 - 1 {
        0
    } else if x2 == x1 + 1 {
        1
    } else if y2 == y1 + 1 {
        2
    } else {
        3
    }
}

/// The index of the wall flag on side `s` of cell `(x, y)`.
pub open spec fn flag_of(size: int, x: int, y: int, s: int) -> int {
    cell_index(size, x, y) * 4 + s
}

/// The index of the wall flag of `(x1, y1)` that faces the adjacent cell `(x2, y2)`.
pub open spec fn wall_flag(size: int, x1: int, y1: int, x2: int, y2: int) -> int {
    flag_of(size, x1, y1, side_toward(x1, y1, x2, y2))
}

/// Whether the wall set has the right length for the grid.
pub open spec fn walls_len_ok(w: Seq<bool>, size: int) -> bool {
    w.len() == 4 * size * size
}

/// Whether the passage between two cells is open: the cells are grid
/// neighbors and the flag of the first toward the second is down.
pub open spec fn passage_open(w: Seq<bool>, size: int, x1: int, y1: int, x2: int, y2: int) -> bool {
    &&& in_grid(size, x1, y1)
    &&& in_grid(size, x2, y2)
    &&& adjacent(x1, y1, x2, y2)
    &&& !w[wall_flag(size, x1, y1, x2, y2)]
}

/// The pairing invariant: facing flags of adjacent cells are always equal.
pub open spec fn walls_symmetric(w: Seq<bool>, size: int) -> bool {
    forall|x1: int, y1: int, x2: int, y2: int|
        in_grid(size, x1, y1) && in_grid(size, x2, y2) && adjacent(x1, y1, x2, y2)
            ==> w[#[trigger] wall_flag(size, x1, y1, x2, y2)] == w[wall_flag(size, x2, y2, x1, y1)]
}

/// Whether every flag that faces out of the grid is up.
pub open spec fn border_walls_closed(w: Seq<bool>, size: int) -> bool {
    forall|x: int, y: int, s: int|
        in_grid(size, x, y) && 0 <= s < 4 && !in_grid(size, neighbor_x(x, s), neighbor_y(y, s))
            ==> w[#[trigger] flag_of(size, x, y, s)]
}

/// The x coordinate of the cell with flattened index `i`.
pub open spec fn index_x(size: int, i: int) -> int {
    i % size
}

/// The y coordinate of the cell with flattened index `i`.
pub open spec fn index_y(size: int, i: int) -> int {
    i / size
}

/// A flattened index in range denotes a grid cell, and flattening its
/// coordinates gives the index back.
pub proof fn lemma_index_coords(size: int, i: int)
    requires
        size >= 1,
        0 <= i < size * size,
    ensures
        in_grid(size, index_x(size, i), index_y(size, i)),
        cell_index(size, index_x(size, i), index_y(size, i)) == i,
{
    assert(0 <= i % size < size && 0 <= i / size < size && (i / size) * size + i % size == i)
        by (nonlinear_arith)
        requires
            size >= 1,
            0 <= i < size * size,
    ;
}

/// Flattening and then reading the coordinates back is the identity.
pub proof fn lemma_cell_index_coords(size: int, x: int, y: int)
    requires
        in_grid(size, x, y),
    ensures
        index_x(size, cell_index(size, x, y)) == x,
        index_y(size, cell_index(size, x, y)) == y,
{
    assert((y * size + x) % size == x && (y * size + x) / size == y) by (nonlinear_arith)
        requires
            0 <= x < size,
            0 <= y < size,
    ;
}

/// The side toward an adjacent cell is a proper side and leads back to
/// that cell.
pub proof fn lemma_side_toward_neighbor(x1: int, y1: int, x2: int, y2: int)
    requires
        adjacent(x1, y1, x2, y2),
    ensures
        0 <= side_toward(x1, y1, x2, y2) < 4,
        neighbor_x(x1, side_toward(x1, y1, x2, y2)) == x2,
        neighbor_y(y1, side_toward(x1, y1, x2, y2)) == y2,
{
}

/// Cell indices lie in `[0, size * size)`.
pub proof fn lemma_cell_index_bounds(size: int, x: int, y: int)
    requires
        in_grid(size, x, y),
    ensures
        0 <= cell_index(size, x, y) < size * size,
{
    assert(0 <= y * size + x < size * size) by (nonlinear_arith)
        requires
            0 <= x < size,
            0 <= y < size,
    ;
}

/// Flag indices lie in `[0, 4 * size * size)`.
pub proof fn lemma_flag_bounds(size: int, x: int, y: int, s: int)
    requires
        in_grid(size, x, y),
        0 <= s < 4,
    ensures
        0 <= flag_of(size, x, y, s) < 4 * size * size,
{
    lemma_cell_index_bounds(size, x, y);
    assert(4 * (size * size) == 4 * size * size) by (nonlinear_arith);
}

/// Distinct cells have distinct flattened indices.
pub proof fn lemma_cell_index_injective(size: int, x1: int, y1: int, x2: int, y2: int)
    requires
        in_grid(size, x1, y1),
        in_grid(size, x2, y2),
        cell_index(size, x1, y1) == cell_index(size, x2, y2),
    ensures
        x1 == x2 && y1 == y2,
{
    assert(x1 == x2 && y1 == y2) by (nonlinear_arith)
        requires
            0 <= x1 < size,
            0 <= y1 < size,
            0 <= x2 < size,
            0 <= y2 < size,
            y1 * size + x1 == y2 * size + x2,
    ;
}

/// Distinct cells have distinct flattened indices (contrapositive form).
pub proof fn lemma_cell_index_distinct(size: int, x1: int, y1: int, x2: int, y2: int)
    requires
        in_grid(size, x1, y1),
        in_grid(size, x2, y2),
        x1 != x2 || y1 != y2,
    ensures
        cell_index(size, x1, y1) != cell_index(size, x2, y2),
{
    if cell_index(size, x1, y1) == cell_index(size, x2, y2) {
        lemma_cell_index_injective(size, x1, y1, x2, y2);
    }
}

/// A flag index determines its cell and side.
pub proof fn lemma_flag_injective(size: int, x1: int, y1: int, s1: int, x2: int, y2: int, s2: int)
    requires
        in_grid(size, x1, y1),
        in_grid(size, x2, y2),
        0 <= s1 < 4,
        0 <= s2 < 4,
        flag_of(size, x1, y1, s1) == flag_of(size, x2, y2, s2),
    ensures
        x1 == x2 && y1 == y2 && s1 == s2,
{
    assert(cell_index(size, x1, y1) == cell_index(size, x2, y2) && s1 == s2) by {
        let c1 = cell_index(size, x1, y1);
        let c2 = cell_index(size, x2, y2);
        assert(c1 * 4 + s1 == c2 * 4 + s2);
    };
    lemma_cell_index_injective(size, x1, y1, x2, y2);
}

/// A facing flag determines the pair of adjacent cells it separates.
pub proof fn lemma_wall_flag_pair_injective(
    size: int,
    x1: int,
    y1: int,
    x2: int,
    y2: int,
    x3: int,
    y3: int,
    x4: int,
    y4: int,
)
    requires
        in_grid(size, x1, y1),
        in_grid(size, x2, y2),
        in_grid(size, x3, y3),
        in_grid(size, x4, y4),
        adjacent(x1, y1, x2, y2),
        adjacent(x3, y3, x4, y4),
        wall_flag(size, x1, y1, x2, y2) == wall_flag(size, x3, y3, x4, y4),
    ensures
        x1 == x3 && y1 == y3 && x2 == x4 && y2 == y4,
{
    lemma_flag_injective(
        size,
        x1,
        y1,
        side_toward(x1, y1, x2, y2),
        x3,
        y3,
        side_toward(x3, y3, x4, y4),
    );
}

/// The flattened cell index, executable form.
pub fn cell_index_of(size: usize, x: usize, y: usize) -> (r: usize)
    requires
        in_grid(size as int, x as int, y as int),
        4 * size * size <= usize::MAX,
    ensures
        r == cell_index(size as int, x as int, y as int),
        r < size * size,
{
    proof {
        assert(y * size <= y * size + x < size * size && size * size <= 4 * size * size)
            by (nonlinear_arith)
            requires
                0 <= x < size,
                0 <= y < size,
        ;
    }
    y * size + x
}

/// The flag index for the wall separating two adjacent cells: the flag on
/// the first cell's side that faces the second.
pub fn wall_index(size: usize, from_x: usize, from_y: usize, to_x: usize, to_y: usize) -> (r:
    usize)
    requires
        in_grid(size as int, from_x as int, from_y as int),
        in_grid(size as int, to_x as int, to_y as int),
        adjacent(from_x as int, from_y as int, to_x as int, to_y as int),
        4 * size * size <= usize::MAX,
    ensures
        r == wall_flag(size as int, from_x as int, from_y as int, to_x as int, to_y as int),
        r < 4 * size * size,
{
    proof {
        assert(from_y * size <= from_y * size + from_x < size * size && 4 * (size * size) == 4
            * size * size) by (nonlinear_arith)
            requires
                0 <= from_x < size,
                0 <= from_y < size,
        ;
    }
    let base = (from_y * size + from_x) * 4;
    if to_x > from_x {
        base + 1
    } else if to_x < from_x {
        base + 3
    } else if to_y > from_y {
        base + 2
    } else {
        base
    }
}

/// Whether two cells are grid-adjacent, executable form.
pub fn cells_adjacent(x1: usize, y1: usize, x2: usize, y2: usize) -> (r: bool)
    ensures
        r == adjacent(x1 as int, y1 as int, x2 as int, y2 as int),
{
    let dx = if x2 >= x1 {
        x2 - x1
    } else {
        x1 - x2
    };
    let dy = if y2 >= y1 {
        y2 - y1
    } else {
        y1 - y2
    };
    (dx == 1 && dy == 0) || (dx == 0 && dy == 1)
}

} // verus!
