//! Coordinate mapper: conversions between 2-D grid positions and linear
//! cell indices, and the up-to-four axis-aligned neighbors of a position,
//! with bounds checking (no wraparound).

use vstd::prelude::*;

verus! {

/// Number of columns of the grid.
pub const GRID_X: usize = 8;

/// Number of rows of the grid.
pub const GRID_Y: usize = 8;

/// Total number of cells of the grid.
pub const GRID_SIZE: usize = 64;

/// Number of colors in the palette; valid colors are `0 .. COLORS_NUM`.
pub const COLORS_NUM: usize = 7;

/// A linear index that denotes a cell of the grid.
pub open spec fn in_grid(i: int) -> bool {
    0 <= i < GRID_SIZE
}

/// The row (y coordinate) of the cell at linear index `i`.
pub open spec fn row_of(i: int) -> int {
    i / (GRID_X as int)
}

/// The column (x coordinate) of the cell at linear index `i`.
pub open spec fn col_of(i: int) -> int {
    i % (GRID_X as int)
}

/// Two cells are 4-connected neighbors: same row and columns one apart,
/// or same column and rows one apart. Symmetric by construction.
pub open spec fn is_adjacent(i: int, j: int) -> bool {
    &&& in_grid(i)
    &&& in_grid(j)
    &&& {
        ||| (row_of(i) == row_of(j) && (i == j + 1 || j == i + 1))
        ||| i == j + (GRID_X as int)
        ||| j == i + (GRID_X as int)
    }
}

/// The western neighbor of cell `i`, if any.
pub open spec fn west_of(i: int) -> Option<usize> {
    if col_of(i) > 0 {
        Some((i - 1) as usize)
    } else {
        None
    }
}

/// The eastern neighbor of cell `i`, if any.
pub open spec fn east_of(i: int) -> Option<usize> {
    if col_of(i) < GRID_X - 1 {
        Some((i + 1) as usize)
    } else {
        None
    }
}

/// The southern neighbor (one row down the stored order) of cell `i`, if any.
pub open spec fn south_of(i: int) -> Option<usize> {
    if row_of(i) < GRID_Y - 1 {
        Some((i + GRID_X) as usize)
    } else {
        None
    }
}

/// The northern neighbor (one row up the stored order) of cell `i`, if any.
pub open spec fn north_of(i: int) -> Option<usize> {
    if row_of(i) > 0 {
        Some((i - GRID_X) as usize)
    } else {
        None
    }
}

/// Each present neighbor of an in-grid cell is itself in the grid and
/// adjacent to it.
pub proof fn lemma_neighbors_adjacent(i: int)
    requires
        in_grid(i),
    ensures
        col_of(i) > 0 ==> is_adjacent(i, i - 1),
        col_of(i) < GRID_X - 1 ==> is_adjacent(i, i + 1),
        row_of(i) < GRID_Y - 1 ==> is_adjacent(i, i + (GRID_X as int)),
        row_of(i) > 0 ==> is_adjacent(i, i - (GRID_X as int)),
{
    assert(i == (GRID_X as int) * row_of(i) + col_of(i)) by (nonlinear_arith)
        requires
            in_grid(i),
    ;
    if col_of(i) > 0 {
        assert(row_of(i - 1) == row_of(i) && col_of(i - 1) == col_of(i) - 1) by (nonlinear_arith)
            requires
                in_grid(i),
                col_of(i) > 0,
        ;
    }
    if col_of(i) < GRID_X - 1 {
        assert(row_of(i + 1) == row_of(i) && col_of(i + 1) == col_of(i) + 1) by (nonlinear_arith)
            requires
                in_grid(i),
                col_of(i) < GRID_X - 1,
        ;
    }
}

/// Conversely, any cell adjacent to `i` is one of the four computed
/// neighbors of `i`.
pub proof fn lemma_adjacent_cases(i: int, j: int)
    requires
        is_adjacent(i, j),
    ensures
        west_of(i) == Some(j as usize) || east_of(i) == Some(j as usize) || south_of(i) == Some(
            j as usize,
        ) || north_of(i) == Some(j as usize),
{
    assert(i == (GRID_X as int) * row_of(i) + col_of(i)) by (nonlinear_arith)
        requires
            in_grid(i),
    ;
    assert(j == (GRID_X as int) * row_of(j) + col_of(j)) by (nonlinear_arith)
        requires
            in_grid(j),
    ;
    if row_of(i) == row_of(j) && j == i - 1 {
        assert(col_of(i) == col_of(j) + 1);
        assert(west_of(i) == Some(j as usize));
    } else if row_of(i) == row_of(j) && j == i + 1 {
        assert(col_of(i) == col_of(j) - 1);
        assert(east_of(i) == Some(j as usize));
    } else if j == i + (GRID_X as int) {
        assert(row_of(j) == row_of(i) + 1 && col_of(j) == col_of(i)) by (nonlinear_arith)
            requires
                in_grid(i),
                in_grid(j),
                j == i + (GRID_X as int),
        ;
        assert(south_of(i) == Some(j as usize));
    } else if j == i - (GRID_X as int) {
        assert(row_of(j) == row_of(i) - 1 && col_of(j) == col_of(i)) by (nonlinear_arith)
            requires
                in_grid(i),
                in_grid(j),
                j == i - (GRID_X as int),
        ;
        assert(north_of(i) == Some(j as usize));
    } else {
        // same row, one column apart, is the only case left; it was
        // covered above unless the rows differ after all
        assert(row_of(i) == row_of(j) && (i == j + 1 || j == i + 1));
    }
}

/// Forward mapping from a 2-D position to a linear index: `y * width + x`,
/// with `-1` for a position with a negative coordinate. Callers must
/// bounds-check before trusting the result as a valid cell reference.
pub fn point_to_index(x: i32, y: i32) -> (r: i32)
    requires
        x < GRID_X as i32,
        y < GRID_Y as i32,
    ensures
        (x < 0 || y < 0) ==> r == -1,
        (x >= 0 && y >= 0) ==> r as int == y as int * (GRID_X as int) + x as int,
{
    if x < 0 || y < 0 {
        return -1;
    }
    y * (GRID_X as i32) + x
}

/// Inverse mapping from a linear cell index to its (x, y) position.
pub fn index_to_point(idx: i32) -> (r: (i32, i32))
    requires
        0 <= idx < GRID_SIZE as i32,
    ensures
        r.0 as int == col_of(idx as int),
        r.1 as int == row_of(idx as int),
        0 <= r.0 < GRID_X as i32,
        0 <= r.1 < GRID_Y as i32,
{
    let y = idx / (GRID_X as i32);
    let x = idx % (GRID_X as i32);
    (x, y)
}

} // verus!
