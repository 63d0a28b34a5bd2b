//! Rectangular or ragged two-dimensional grids held as rows of cells, with
//! total, bounds-checked lookup.
use vstd::prelude::*;

verus! {

/// The cell at `(row, col)`, or `None` when the position lies outside the grid.
pub open spec fn cell_at<T>(grid: Seq<Seq<T>>, row: int, col: int) -> Option<T> {
    if 0 <= row < grid.len() && 0 <= col < grid[row].len() {
        Some(grid[row][col])
    } else {
        None
    }
}

/// Whether every row of the grid has `cols` cells.
pub open spec fn is_rectangular<T>(grid: Seq<Seq<T>>, cols: int) -> bool {
    forall|r: int| 0 <= r < grid.len() ==> #[trigger] grid[r].len() == cols
}

/// The rows of a grid of vectors, as sequences.
pub open spec fn rows_of<T>(grid: Seq<Vec<T>>) -> Seq<Seq<T>> {
    grid.map_values(|row: Vec<T>| row@)
}

/// Looks up a cell; positions outside the grid give `None`, never a panic.
pub fn get<T: Copy>(grid: &Vec<Vec<T>>, row: usize, col: usize) -> (r: Option<T>)
    ensures
        r == cell_at(rows_of(grid@), row as int, col as int),
{
    if row < grid.len() && col < grid[row].len() {
        Some(grid[row][col])
    } else {
        None
    }
}

/// Overwrites one cell in place; the position must lie inside the grid.
pub fn set_cell<T: Copy>(grid: &mut Vec<Vec<T>>, row: usize, col: usize, value: T)
    requires
        row < old(grid)@.len(),
        col < old(grid)@[row as int]@.len(),
    ensures
        rows_of(final(grid)@) == rows_of(old(grid)@).update(
            row as int,
            rows_of(old(grid)@)[row as int].update(col as int, value),
        ),
{
    let mut line: Vec<T> = Vec::new();
    grid.set_and_swap(row, &mut line);
    line.set(col, value);
    grid.set_and_swap(row, &mut line);
    assert(rows_of(grid@) =~= rows_of(old(grid)@).update(
        row as int,
        rows_of(old(grid)@)[row as int].update(col as int, value),
    ));
}

/// The sum of `f` over the first `n` cells of row `y`.
pub open spec fn row_sum<T>(g: Seq<Seq<T>>, f: spec_fn(int, int) -> nat, y: int, n: int) -> nat
    decreases n,
{
    if n <= 0 {
        0
    } else {
        row_sum(g, f, y, n - 1) + f(y, n - 1)
    }
}

/// The sum of `f` over every cell of the first `m` rows.
pub open spec fn grid_sum<T>(g: Seq<Seq<T>>, f: spec_fn(int, int) -> nat, m: int) -> nat
    decreases m,
{
    if m <= 0 {
        0
    } else {
        grid_sum(g, f, m - 1) + row_sum(g, f, m - 1, g[m - 1].len() as int)
    }
}

pub proof fn lemma_row_sum_mono<T>(g: Seq<Seq<T>>, f: spec_fn(int, int) -> nat, y: int, a: int, b: int)
    requires
        a <= b,
    ensures
        row_sum(g, f, y, a) <= row_sum(g, f, y, b),
    decreases b - a,
{
    if a < b {
        lemma_row_sum_mono(g, f, y, a, b - 1);
    }
}

pub proof fn lemma_grid_sum_mono<T>(g: Seq<Seq<T>>, f: spec_fn(int, int) -> nat, a: int, b: int)
    requires
        a <= b,
    ensures
        grid_sum(g, f, a) <= grid_sum(g, f, b),
    decreases b - a,
{
    if a < b {
        lemma_grid_sum_mono(g, f, a, b - 1);
    }
}

} // verus!
