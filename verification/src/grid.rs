//! Row-major elevation grids and the 3x3 neighbourhood of a cell.
//!
//! A grid of `x_size` columns and `y_size` rows is stored row by row: the
//! cell in column `x` and row `y` sits at index `x + x_size * y`.
//! The neighbourhood of a cell lists its eight neighbours and itself in the
//! order top-left, top, top-right, left, centre, right, bottom-left, bottom,
//! bottom-right; a neighbour that falls outside the grid is `None`.
use vstd::prelude::*;

verus! {

/// Index of the cell in column `x` and row `y` of a grid `x_size` columns wide.
pub open spec fn cell_index(x_size: int, x: int, y: int) -> int {
    x + x_size * y
}

/// The cell at offset `(dx, dy)` from `(x, y)`, or `None` outside the grid.
pub open spec fn neighbor<T>(
    input: Seq<T>,
    x_size: int,
    y_size: int,
    x: int,
    y: int,
    dx: int,
    dy: int,
) -> Option<T> {
    let nx = x + dx;
    let ny = y + dy;
    if 0 <= nx < x_size && 0 <= ny < y_size {
        Some(input[cell_index(x_size, nx, ny)])
    } else {
        None
    }
}

/// The 3x3 neighbourhood of `(x, y)`, row by row from the top-left corner.
pub open spec fn neighborhood<T>(
    input: Seq<T>,
    x_size: int,
    y_size: int,
    x: int,
    y: int,
) -> [Option<T>; 9] {
    [
        neighbor(input, x_size, y_size, x, y, -1, -1),
        neighbor(input, x_size, y_size, x, y, 0, -1),
        neighbor(input, x_size, y_size, x, y, 1, -1),
        neighbor(input, x_size, y_size, x, y, -1, 0),
        neighbor(input, x_size, y_size, x, y, 0, 0),
        neighbor(input, x_size, y_size, x, y, 1, 0),
        neighbor(input, x_size, y_size, x, y, -1, 1),
        neighbor(input, x_size, y_size, x, y, 0, 1),
        neighbor(input, x_size, y_size, x, y, 1, 1),
    ]
}

/// A cell whose eight neighbours all lie inside the grid.
pub open spec fn interior(x_size: int, y_size: int, x: int, y: int) -> bool {
    &&& 0 < x < x_size - 1
    &&& 0 < y < y_size - 1
}

/// What the slope pass leaves in the cell `(x, y)`: the per-cell
/// computation's result on the neighbourhood for an interior cell, and
/// `edge` for a cell on the border.
pub open spec fn cell_result_ok<T, U, F: Fn([Option<T>; 9]) -> U>(
    input: Seq<T>,
    x_size: int,
    y_size: int,
    x: int,
    y: int,
    per_cell: F,
    edge: U,
    out: U,
) -> bool {
    if interior(x_size, y_size, x, y) {
        call_ensures(per_cell, (neighborhood(input, x_size, y_size, x, y),), out)
    } else {
        out == edge
    }
}

proof fn lemma_offset(x_size: int, x: int, y: int, dx: int, dy: int)
    ensures
        cell_index(x_size, x + dx, y + dy) == cell_index(x_size, x, y) + dx + x_size * dy,
{
    assert(x_size * (y + dy) == x_size * y + x_size * dy) by (nonlinear_arith);
}

proof fn lemma_cell_in_grid(x_size: int, y_size: int, x: int, y: int)
    requires
        0 <= x < x_size,
        0 <= y < y_size,
    ensures
        0 <= cell_index(x_size, x, y) < x_size * y_size,
        cell_index(x_size, x, y) + x_size - x <= x_size * y_size,
{
    assert(0 <= x_size * y) by (nonlinear_arith)
        requires
            0 <= x_size,
            0 <= y,
    ;
    assert(x_size * y + x_size <= x_size * y_size) by (nonlinear_arith)
        requires
            0 <= x_size,
            0 <= y < y_size,
    ;
}

/// Every cell of the grid has its own index, and the indices fill
/// `0 .. x_size * y_size`.
pub proof fn lemma_cell_index_bijective(x_size: int, y_size: int, x1: int, y1: int, x2: int, y2: int)
    requires
        0 <= x1 < x_size,
        0 <= y1 < y_size,
        0 <= x2 < x_size,
        0 <= y2 < y_size,
    ensures
        0 <= cell_index(x_size, x1, y1) < x_size * y_size,
        cell_index(x_size, x1, y1) == cell_index(x_size, x2, y2) <==> (x1 == x2 && y1 == y2),
{
    lemma_cell_in_grid(x_size, y_size, x1, y1);
    if y1 < y2 {
        assert(x_size * y1 + x_size <= x_size * y2) by (nonlinear_arith)
            requires
                0 <= x_size,
                y1 < y2,
        ;
    } else if y2 < y1 {
        assert(x_size * y2 + x_size <= x_size * y1) by (nonlinear_arith)
            requires
                0 <= x_size,
                y2 < y1,
        ;
    }
}

/// Entry `k` of a neighbourhood is the cell at column offset `k % 3 - 1` and
/// row offset `k / 3 - 1` from `(x, y)`: the value stored there when that
/// cell lies in the grid, `None` when it does not.
pub proof fn lemma_neighborhood_entries<T>(input: Seq<T>, x_size: int, y_size: int, x: int, y: int)
    ensures
        forall|k: int|
            0 <= k < 9 ==> #[trigger] neighborhood(input, x_size, y_size, x, y)[k] == (if 0 <= x + (k
                % 3 - 1) < x_size && 0 <= y + (k / 3 - 1) < y_size {
                Some(input[(x + (k % 3 - 1)) + x_size * (y + (k / 3 - 1))])
            } else {
                None
            }),
{
    let n = neighborhood(input, x_size, y_size, x, y);
    assert forall|k: int| 0 <= k < 9 implies #[trigger] n[k] == (if 0 <= x + (k % 3 - 1) < x_size
        && 0 <= y + (k / 3 - 1) < y_size {
        Some(input[(x + (k % 3 - 1)) + x_size * (y + (k / 3 - 1))])
    } else {
        None
    }) by {
        if k == 0 {
        } else if k == 1 {
        } else if k == 2 {
        } else if k == 3 {
        } else if k == 4 {
        } else if k == 5 {
        } else if k == 6 {
        } else if k == 7 {
        } else {
            assert(k == 8);
        }
    }
}

/// The neighbourhood of an interior cell holds nine cells of the grid, and
/// the centre of every neighbourhood is the cell itself.
pub proof fn lemma_interior_neighborhood_full<T>(
    input: Seq<T>,
    x_size: int,
    y_size: int,
    x: int,
    y: int,
)
    requires
        0 <= x < x_size,
        0 <= y < y_size,
    ensures
        neighborhood(input, x_size, y_size, x, y)[4] == Some(input[cell_index(x_size, x, y)]),
        interior(x_size, y_size, x, y) ==> forall|k: int|
            0 <= k < 9 ==> (#[trigger] neighborhood(input, x_size, y_size, x, y)[k]) is Some,
        !interior(x_size, y_size, x, y) ==> exists|k: int|
            0 <= k < 9 && (#[trigger] neighborhood(input, x_size, y_size, x, y)[k]) is None,
{
    let n = neighborhood(input, x_size, y_size, x, y);
    if !interior(x_size, y_size, x, y) {
        if x == 0 {
            assert(n[0] is None);
        } else if y == 0 {
            assert(n[0] is None);
        } else if x == x_size - 1 {
            assert(n[8] is None);
        } else {
            assert(n[8] is None);
        }
    }
}

/// Whether `(x, y)` is an interior cell of a grid of `x_size` by `y_size`.
pub fn is_interior_cell(grid: (usize, usize), cell: (usize, usize)) -> (r: bool)
    ensures
        r == interior(grid.0 as int, grid.1 as int, cell.0 as int, cell.1 as int),
        r == (0 < cell.0 < grid.0 - 1 && 0 < cell.1 < grid.1 - 1),
{
    let (x_size, y_size) = grid;
    let (x, y) = cell;
    x > 0 && x_size > 0 && x < x_size - 1 && y > 0 && y_size > 0 && y < y_size - 1
}

/// Gathers the 3x3 neighbourhood of the cell `(x, y)`, with `None` for the
/// neighbours that fall outside the grid.
pub fn neighborhood_of<T: Copy>(input: &Vec<T>, grid: (usize, usize), cell: (usize, usize)) -> (points: [Option<T>; 9])
    requires
        grid.0 * grid.1 <= input.len(),
        cell.0 < grid.0,
        cell.1 < grid.1,
    ensures
        points == neighborhood(input@, grid.0 as int, grid.1 as int, cell.0 as int, cell.1 as int),
        forall|k: int|
            0 <= k < 9 ==> #[trigger] points[k] == (if 0 <= cell.0 + (k % 3 - 1) < grid.0 && 0
                <= cell.1 + (k / 3 - 1) < grid.1 {
                Some(input@[(cell.0 + (k % 3 - 1)) + grid.0 * (cell.1 + (k / 3 - 1))])
            } else {
                None
            }),
{
    let (x_size, y_size) = grid;
    let (x, y) = cell;
    let ghost w = x_size as int;
    let ghost h = y_size as int;
    proof {
        lemma_cell_in_grid(w, h, x as int, y as int);
        lemma_offset(w, x as int, y as int, -1, -1);
        lemma_offset(w, x as int, y as int, 0, -1);
        lemma_offset(w, x as int, y as int, 1, -1);
        lemma_offset(w, x as int, y as int, -1, 0);
        lemma_offset(w, x as int, y as int, 1, 0);
        lemma_offset(w, x as int, y as int, -1, 1);
        lemma_offset(w, x as int, y as int, 0, 1);
        lemma_offset(w, x as int, y as int, 1, 1);
        if y + 1 < y_size {
            lemma_cell_in_grid(w, h, x as int, y + 1);
        }
    }
    let target_index: usize = x + x_size * y;
    let p0 = if x != 0 && y != 0 { Some(input[target_index - 1 - x_size]) } else { None };
    let p1 = if y != 0 { Some(input[target_index - x_size]) } else { None };
    let p2 = if x != x_size - 1 && y != 0 { Some(input[target_index + 1 - x_size]) } else { None };
    let p3 = if x != 0 { Some(input[target_index - 1]) } else { None };
    let p4 = Some(input[target_index]);
    let p5 = if x != x_size - 1 { Some(input[target_index + 1]) } else { None };
    let p6 = if x != 0 && y != y_size - 1 { Some(input[target_index - 1 + x_size]) } else { None };
    let p7 = if y != y_size - 1 { Some(input[target_index + x_size]) } else { None };
    let p8 = if x != x_size - 1 && y != y_size - 1 {
        Some(input[target_index + 1 + x_size])
    } else {
        None
    };
    let points = [p0, p1, p2, p3, p4, p5, p6, p7, p8];
    proof {
        lemma_neighborhood_entries(input@, w, h, x as int, y as int);
    }
    points
}

/// The slope pass over a whole grid: for every cell, in row-major order,
/// the result of `per_cell` on its neighbourhood where the cell is
/// interior, and `edge` where it lies on the border.
pub fn compute_slope_angle_from_vector<T: Copy, U: Copy, F: Fn([Option<T>; 9]) -> U>(
    input_elevations: &Vec<T>,
    grid: (usize, usize),
    per_cell: F,
    edge: U,
) -> (output: Vec<U>)
    requires
        grid.0 * grid.1 <= input_elevations.len(),
        forall|x: int, y: int|
            0 <= x < grid.0 && 0 <= y < grid.1 && interior(grid.0 as int, grid.1 as int, x, y)
                ==> call_requires(
                per_cell,
                (#[trigger] neighborhood(input_elevations@, grid.0 as int, grid.1 as int, x, y),),
            ),
    ensures
        output.len() == grid.0 * grid.1,
        forall|x: int, y: int|
            0 <= x < grid.0 && 0 <= y < grid.1 ==> #[trigger] cell_result_ok(
                input_elevations@,
                grid.0 as int,
                grid.1 as int,
                x,
                y,
                per_cell,
                edge,
                output@[cell_index(grid.0 as int, x, y)],
            ),
        forall|x: int, y: int|
            0 < x < grid.0 - 1 && 0 < y < grid.1 - 1 ==> call_ensures(
                per_cell,
                (#[trigger] neighborhood(input_elevations@, grid.0 as int, grid.1 as int, x, y),),
                output@[x + grid.0 * y],
            ),
        forall|x: int, y: int|
            0 <= x < grid.0 && 0 <= y < grid.1 && !(0 < x < grid.0 - 1 && 0 < y < grid.1 - 1)
                ==> #[trigger] output@[x + grid.0 * y] == edge,
{
    let (x_size, y_size) = grid;
    let ghost w = x_size as int;
    let ghost h = y_size as int;
    let ghost input = input_elevations@;
    let mut output: Vec<U> = Vec::new();
    let mut y: usize = 0;
    while y < y_size
        invariant
            x_size * y_size <= input_elevations.len(),
            w == x_size,
            h == y_size,
            grid.0 == x_size,
            grid.1 == y_size,
            input == input_elevations@,
            y <= y_size,
            output.len() == w * y,
            forall|x: int, y: int|
                0 <= x < w && 0 <= y < h && interior(w, h, x, y) ==> call_requires(
                    per_cell,
                    (#[trigger] neighborhood(input, w, h, x, y),),
                ),
            forall|xx: int, yy: int|
                0 <= xx < w && 0 <= yy < y ==> #[trigger] cell_result_ok(
                    input,
                    w,
                    h,
                    xx,
                    yy,
                    per_cell,
                    edge,
                    output@[cell_index(w, xx, yy)],
                ),
        decreases y_size - y,
    {
        let mut x: usize = 0;
        while x < x_size
            invariant
                x_size * y_size <= input_elevations.len(),
                w == x_size,
                h == y_size,
                grid.0 == x_size,
                grid.1 == y_size,
                input == input_elevations@,
                y < y_size,
                x <= x_size,
                output.len() == w * y + x,
                forall|x: int, y: int|
                    0 <= x < w && 0 <= y < h && interior(w, h, x, y) ==> call_requires(
                        per_cell,
                        (#[trigger] neighborhood(input, w, h, x, y),),
                    ),
                forall|xx: int, yy: int|
                    0 <= xx < w && 0 <= yy < y ==> #[trigger] cell_result_ok(
                        input,
                        w,
                        h,
                        xx,
                        yy,
                        per_cell,
                        edge,
                        output@[cell_index(w, xx, yy)],
                    ),
                forall|xx: int|
                    0 <= xx < x ==> #[trigger] cell_result_ok(
                        input,
                        w,
                        h,
                        xx,
                        y as int,
                        per_cell,
                        edge,
                        output@[cell_index(w, xx, y as int)],
                    ),
            decreases x_size - x,
        {
            proof {
                lemma_cell_in_grid(w, h, x as int, y as int);
            }
            let ghost before = output@;
            let value = if is_interior_cell(grid, (x, y)) {
                let points = neighborhood_of(input_elevations, grid, (x, y));
                per_cell(points)
            } else {
                edge
            };
            output.push(value);
            proof {
                assert forall|xx: int, yy: int| 0 <= xx < w && 0 <= yy < y implies
                    #[trigger] cell_result_ok(input, w, h, xx, yy, per_cell, edge,
                        output@[cell_index(w, xx, yy)]) by {
                    lemma_cell_in_grid(w, h, xx, yy);
                    assert(cell_index(w, xx, yy) < w * y) by (nonlinear_arith)
                        requires
                            0 <= xx < w,
                            yy < y,
                            cell_index(w, xx, yy) == xx + w * yy,
                    ;
                    assert(output@[cell_index(w, xx, yy)] == before[cell_index(w, xx, yy)]);
                }
                assert forall|xx: int| 0 <= xx < x + 1 implies
                    #[trigger] cell_result_ok(input, w, h, xx, y as int, per_cell, edge,
                        output@[cell_index(w, xx, y as int)]) by {
                    if xx < x {
                        assert(output@[cell_index(w, xx, y as int)] == before[cell_index(w, xx, y as int)]);
                    }
                }
            }
            x = x + 1;
        }
        proof {
            assert(w * y + w == w * (y + 1)) by (nonlinear_arith);
        }
        y = y + 1;
    }
    proof {
        assert forall|xx: int, yy: int| 0 < xx < w - 1 && 0 < yy < h - 1 implies call_ensures(
            per_cell,
            (#[trigger] neighborhood(input, w, h, xx, yy),),
            output@[xx + w * yy],
        ) by {
            assert(cell_result_ok(input, w, h, xx, yy, per_cell, edge, output@[cell_index(w, xx, yy)]));
        }
        assert forall|xx: int, yy: int|
            0 <= xx < w && 0 <= yy < h && !(0 < xx < w - 1 && 0 < yy < h - 1) implies
            #[trigger] output@[xx + w * yy] == edge by {
            assert(cell_result_ok(input, w, h, xx, yy, per_cell, edge, output@[cell_index(w, xx, yy)]));
        }
    }
    output
}

} // verus!
