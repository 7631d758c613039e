//! The four directions of the grid and the neighbours of a cell.
use vstd::prelude::*;
use vstd::arithmetic::div_mod::lemma_fundamental_div_mod_converse;
use vstd::arithmetic::div_mod::lemma_fundamental_div_mod;

verus! {

/// The number of directions: 0 is west, 1 south, 2 east, 3 north.
pub const DIRECTIONS: usize = 4;

/// The side of the square of cells that a tile covers.
pub const FOOTPRINT: usize = 1;

/// The direction opposite to `d`.
pub open spec fn spec_opposite(d: int) -> int {
    (d + 2) % 4
}

pub fn opposite(d: usize) -> (o: usize)
    requires
        d < 4,
    ensures
        o == spec_opposite(d as int),
        o < 4,
{
    (d + 2) % 4
}

/// The step along the x axis that direction `d` takes.
pub open spec fn dx(d: int) -> int {
    if d == 0 {
        -1
    } else if d == 2 {
        1
    } else {
        0
    }
}

/// The step along the y axis that direction `d` takes; y grows southwards.
pub open spec fn dy(d: int) -> int {
    if d == 1 {
        1
    } else if d == 3 {
        -1
    } else {
        0
    }
}

/// A coordinate that left `[0, size)` by one step, brought back on the other side.
pub open spec fn wrap(c: int, size: int) -> int {
    if c < 0 {
        c + size
    } else if c >= size {
        c - size
    } else {
        c
    }
}

/// Whether a tile placed at cell `i` of a grid `width` wide and `height` high lies within
/// the grid. On a periodic grid every cell does.
pub open spec fn spec_eligible(width: int, height: int, periodic: bool, i: int) -> bool {
    periodic || (i % width + FOOTPRINT <= width && i / width + FOOTPRINT <= height)
}

/// The cell next to cell `i` in direction `d`, in row-major order, if there is one. A periodic
/// grid wraps around at its edges; otherwise the cells at an edge have no neighbour beyond it.
pub open spec fn spec_neighbor(width: int, height: int, periodic: bool, i: int, d: int) -> Option<
    int,
> {
    let x = i % width + dx(d);
    let y = i / width + dy(d);
    if !periodic && (x < 0 || y < 0 || x + FOOTPRINT > width || y + FOOTPRINT > height) {
        None
    } else {
        Some(wrap(x, width) + wrap(y, height) * width)
    }
}

pub fn eligible(width: usize, height: usize, periodic: bool, i: usize) -> (e: bool)
    requires
        i < width * height,
    ensures
        e == spec_eligible(width as int, height as int, periodic, i as int),
        e,
{
    proof {
        lemma_cell_coordinates(width as int, height as int, i as int);
    }
    periodic || (i % width + FOOTPRINT <= width && i / width + FOOTPRINT <= height)
}

pub fn neighbor(width: usize, height: usize, periodic: bool, i: usize, d: usize) -> (n: Option<
    usize,
>)
    requires
        i < width * height <= usize::MAX,
        d < 4,
    ensures
        n matches Some(j) ==> spec_neighbor(width as int, height as int, periodic, i as int, d as int)
            == Some(j as int) && j < width * height,
        n is None ==> spec_neighbor(width as int, height as int, periodic, i as int, d as int)
            is None,
{
    proof {
        lemma_cell_coordinates(width as int, height as int, i as int);
        lemma_neighbor_in_grid(width as int, height as int, periodic, i as int, d as int);
    }
    let x1 = i % width;
    let y1 = i / width;
    // One step west of column 0, or north of row 0, leaves the grid.
    let x2: usize = if d == 0 {
        if x1 == 0 {
            if !periodic {
                return None;
            }
            width - 1
        } else {
            x1 - 1
        }
    } else if d == 2 {
        if x1 + 1 == width {
            if !periodic {
                return None;
            }
            0
        } else {
            x1 + 1
        }
    } else {
        x1
    };
    let y2: usize = if d == 3 {
        if y1 == 0 {
            if !periodic {
                return None;
            }
            height - 1
        } else {
            y1 - 1
        }
    } else if d == 1 {
        if y1 + 1 == height {
            if !periodic {
                return None;
            }
            0
        } else {
            y1 + 1
        }
    } else {
        y1
    };
    assert(0 <= y2 * width <= y2 * width + x2 < width * height) by (nonlinear_arith)
        requires
            0 <= x2 < width,
            0 <= y2 < height,
    ;
    Some(x2 + y2 * width)
}

/// A grid has no negative number of cells.
pub proof fn lemma_cells_nonnegative(width: int, height: int)
    requires
        0 <= width,
        0 <= height,
    ensures
        0 <= width * height,
{
    assert(0 <= width * height) by (nonlinear_arith)
        requires
            0 <= width,
            0 <= height,
    ;
}

/// The column of a cell is less than the width and its row less than the height.
pub proof fn lemma_cell_coordinates(width: int, height: int, i: int)
    requires
        0 <= i < width * height,
        0 <= width,
        0 <= height,
    ensures
        0 < width,
        0 < height,
        0 <= i % width < width,
        0 <= i / width < height,
        i == (i / width) * width + i % width,
{
    assert(0 < width && 0 < height) by (nonlinear_arith)
        requires
            0 <= i < width * height,
            0 <= width,
            0 <= height,
    ;
    lemma_fundamental_div_mod(i, width);
    assert(0 <= i / width < height) by (nonlinear_arith)
        requires
            0 <= i < width * height,
            0 < width,
            i == width * (i / width) + i % width,
            0 <= i % width < width,
    ;
    assert(width * (i / width) == (i / width) * width) by (nonlinear_arith);
}

/// The cell in column `x` of row `y` has these two coordinates.
pub proof fn lemma_cell_at(width: int, height: int, x: int, y: int)
    requires
        0 <= x < width,
        0 <= y < height,
    ensures
        0 <= x + y * width < width * height,
        (x + y * width) % width == x,
        (x + y * width) / width == y,
{
    assert(0 <= x + y * width < width * height) by (nonlinear_arith)
        requires
            0 <= x < width,
            0 <= y < height,
    ;
    assert(x + y * width == y * width + x);
    lemma_fundamental_div_mod_converse(x + y * width, width, y, x);
}

/// A neighbour is a cell of the grid.
pub proof fn lemma_neighbor_in_grid(width: int, height: int, periodic: bool, i: int, d: int)
    requires
        0 <= i < width * height,
        0 <= width,
        0 <= height,
        0 <= d < 4,
    ensures
        spec_neighbor(width, height, periodic, i, d) matches Some(j) ==> {
            &&& 0 <= j < width * height
            &&& j % width == wrap(i % width + dx(d), width)
            &&& j / width == wrap(i / width + dy(d), height)
        },
{
    lemma_cell_coordinates(width, height, i);
    if spec_neighbor(width, height, periodic, i, d) is Some {
        lemma_cell_at(
            width,
            height,
            wrap(i % width + dx(d), width),
            wrap(i / width + dy(d), height),
        );
    }
}

/// Going to a neighbour and then one step in the opposite direction leads back: `j` is the
/// neighbour of `i` in direction `d` exactly if `i` is the neighbour of `j` in the direction
/// opposite to `d`.
pub proof fn lemma_neighbor_symmetric(
    width: int,
    height: int,
    periodic: bool,
    i: int,
    j: int,
    d: int,
)
    requires
        0 <= i < width * height,
        0 <= j < width * height,
        0 <= width,
        0 <= height,
        0 <= d < 4,
    ensures
        spec_neighbor(width, height, periodic, i, d) == Some(j) <==> spec_neighbor(
            width,
            height,
            periodic,
            j,
            spec_opposite(d),
        ) == Some(i),
{
    lemma_cell_coordinates(width, height, i);
    lemma_cell_coordinates(width, height, j);
    lemma_neighbor_in_grid(width, height, periodic, i, d);
    lemma_neighbor_in_grid(width, height, periodic, j, spec_opposite(d));
    let o = spec_opposite(d);
    assert(dx(o) == -dx(d) && dy(o) == -dy(d));
    if spec_neighbor(width, height, periodic, i, d) == Some(j) {
        let x = wrap(j % width + dx(o), width);
        let y = wrap(j / width + dy(o), height);
        assert(x == i % width);
        assert(y == i / width);
    }
    if spec_neighbor(width, height, periodic, j, o) == Some(i) {
        let x = wrap(i % width + dx(d), width);
        let y = wrap(i / width + dy(d), height);
        assert(x == j % width);
        assert(y == j / width);
    }
}

} // verus!
