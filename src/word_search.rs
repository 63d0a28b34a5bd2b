//! Word search over a character grid: fixed-shape line templates read at every
//! origin and compared with a target word, forwards or backwards.
use vstd::prelude::*;
use crate::grid::{cell_at, rows_of, row_sum, grid_sum, lemma_row_sum_mono, lemma_grid_sum_mono};

verus! {

/// Whether the cells starting at `(y, x)` and stepping by `(dy, dx)` spell `word`;
/// a template that leaves the grid never matches.
pub open spec fn reads_line(g: Seq<Seq<char>>, y: int, x: int, dy: int, dx: int, word: Seq<char>) -> bool {
    forall|t: int| 0 <= t < word.len() ==> #[trigger] cell_at(g, y + t * dy, x + t * dx) == Some(word[t])
}

/// Whether the line template spells `word` read either forwards or backwards.
pub open spec fn matches_line(g: Seq<Seq<char>>, y: int, x: int, dy: int, dx: int, word: Seq<char>) -> bool {
    reads_line(g, y, x, dy, dx, word) || reads_line(g, y, x, dy, dx, word.reverse())
}

pub open spec fn xmas_word() -> Seq<char> {
    seq!['X', 'M', 'A', 'S']
}

pub open spec fn mas_word() -> Seq<char> {
    seq!['M', 'A', 'S']
}

/// How many of the four templates (down, right, down-right, down-left) anchored at
/// `(y, x)` spell XMAS in either direction.
pub open spec fn xmas_at(g: Seq<Seq<char>>, y: int, x: int) -> nat {
    (if matches_line(g, y, x, 1, 0, xmas_word()) { 1nat } else { 0nat })
        + (if matches_line(g, y, x, 0, 1, xmas_word()) { 1nat } else { 0nat })
        + (if matches_line(g, y, x, 1, 1, xmas_word()) { 1nat } else { 0nat })
        + (if matches_line(g, y, x, 1, -1, xmas_word()) { 1nat } else { 0nat })
}

/// One when the 3×3 block whose top-left corner is `(y, x)` holds MAS, in either
/// direction, on both of its diagonals.
pub open spec fn x_mas_at(g: Seq<Seq<char>>, y: int, x: int) -> nat {
    if matches_line(g, y, x, 1, 1, mas_word()) && matches_line(g, y, x + 2, 1, -1, mas_word()) {
        1
    } else {
        0
    }
}

/// The number of XMAS occurrences in the grid, over every origin and template.
pub open spec fn xmas_count(g: Seq<Seq<char>>) -> nat {
    grid_sum(g, |y: int, x: int| xmas_at(g, y, x), g.len() as int)
}

/// The number of X-shaped MAS crossings in the grid.
pub open spec fn x_mas_count(g: Seq<Seq<char>>) -> nat {
    grid_sum(g, |y: int, x: int| x_mas_at(g, y, x), g.len() as int)
}

/// Whether the template from `(y, x)` stepping by `(dy, dx)` spells `word`.
fn line_reads(grid: &[Vec<char>], y: usize, x: usize, dy: usize, dx: i8, word: &Vec<char>) -> (r: bool)
    requires
        dy <= 1,
        -1 <= dx <= 1,
    ensures
        r == reads_line(rows_of(grid@), y as int, x as int, dy as int, dx as int, word@),
{
    let ghost g = rows_of(grid@);
    let mut t: usize = 0;
    while t < word.len()
        invariant
            g == rows_of(grid@),
            dy <= 1,
            -1 <= dx <= 1,
            t <= word.len(),
            forall|t2: int| 0 <= t2 < t ==> #[trigger] cell_at(g, y + t2 * dy, x + t2 * dx) == Some(word@[t2]),
        decreases word.len() - t,
    {
        let ghost ti = t as int;
        proof {
            if dy == 0 {
                assert(ti * dy == 0) by (nonlinear_arith) requires dy == 0;
            } else {
                assert(ti * dy == ti) by (nonlinear_arith) requires dy == 1;
            }
            if dx < 0 {
                assert(ti * dx == -ti) by (nonlinear_arith) requires dx == -1;
            } else if dx == 0 {
                assert(ti * dx == 0) by (nonlinear_arith) requires dx == 0;
            } else {
                assert(ti * dx == ti) by (nonlinear_arith) requires dx == 1;
            }
        }
        if y >= grid.len() || (dy == 1 && t > grid.len() - 1 - y) {
            assert(cell_at(g, y + ti * dy, x + ti * dx) != Some(word@[ti]));
            return false;
        }
        let row = if dy == 0 { y } else { y + t };
        assert(row == y + ti * dy);
        let col: usize;
        if dx < 0 {
            if t > x {
                assert(cell_at(g, y + ti * dy, x + ti * dx) != Some(word@[ti]));
                return false;
            }
            col = x - t;
        } else if dx == 0 {
            col = x;
        } else {
            if x >= grid[row].len() || t >= grid[row].len() - x {
                assert(cell_at(g, y + ti * dy, x + ti * dx) != Some(word@[ti]));
                return false;
            }
            col = x + t;
        }
        assert(col == x + ti * dx);
        if col >= grid[row].len() || grid[row][col] != word[t] {
            assert(cell_at(g, y + ti * dy, x + ti * dx) != Some(word@[ti]));
            return false;
        }
        t += 1;
    }
    true
}

/// Whether the template spells `word` forwards or backwards.
fn line_matches(grid: &[Vec<char>], y: usize, x: usize, dy: usize, dx: i8, word: &Vec<char>, reversed: &Vec<char>) -> (r: bool)
    requires
        dy <= 1,
        -1 <= dx <= 1,
        reversed@ == word@.reverse(),
    ensures
        r == matches_line(rows_of(grid@), y as int, x as int, dy as int, dx as int, word@),
{
    line_reads(grid, y, x, dy, dx, word) || line_reads(grid, y, x, dy, dx, reversed)
}

/// The number of templates anchored at `(y, x)` that spell XMAS.
fn xmas_here(grid: &[Vec<char>], y: usize, x: usize, word: &Vec<char>, reversed: &Vec<char>) -> (r: u32)
    requires
        word@ == xmas_word(),
        reversed@ == xmas_word().reverse(),
    ensures
        r == xmas_at(rows_of(grid@), y as int, x as int),
{
    let mut count: u32 = 0;
    if line_matches(grid, y, x, 1, 0, word, reversed) {
        count += 1;
    }
    if line_matches(grid, y, x, 0, 1, word, reversed) {
        count += 1;
    }
    if line_matches(grid, y, x, 1, 1, word, reversed) {
        count += 1;
    }
    if line_matches(grid, y, x, 1, -1, word, reversed) {
        count += 1;
    }
    count
}

/// Counts every occurrence of XMAS, read forwards or backwards, along a column, a
/// row or either diagonal of the grid.
pub fn count_xmas(input_grid: &[Vec<char>]) -> (r: u32)
    requires
        xmas_count(rows_of(input_grid@)) <= u32::MAX,
    ensures
        r == xmas_count(rows_of(input_grid@)),
{
    let ghost g = rows_of(input_grid@);
    let ghost f = |y: int, x: int| xmas_at(g, y, x);
    let word: Vec<char> = vec!['X', 'M', 'A', 'S'];
    let reversed: Vec<char> = vec!['S', 'A', 'M', 'X'];
    proof {
        assert(word@ =~= xmas_word());
        assert(reversed@ =~= xmas_word().reverse());
    }
    let mut total: u32 = 0;
    let mut y: usize = 0;
    while y < input_grid.len()
        invariant
            g == rows_of(input_grid@),
            f == (|y: int, x: int| xmas_at(g, y, x)),
            word@ == xmas_word(),
            reversed@ == xmas_word().reverse(),
            grid_sum(g, f, g.len() as int) <= u32::MAX,
            y <= input_grid.len(),
            total == grid_sum(g, f, y as int),
        decreases input_grid.len() - y,
    {
        let mut x: usize = 0;
        while x < input_grid[y].len()
            invariant
                g == rows_of(input_grid@),
                f == (|y: int, x: int| xmas_at(g, y, x)),
                word@ == xmas_word(),
                reversed@ == xmas_word().reverse(),
                grid_sum(g, f, g.len() as int) <= u32::MAX,
                y < input_grid.len(),
                x <= input_grid@[y as int]@.len(),
                total == grid_sum(g, f, y as int) + row_sum(g, f, y as int, x as int),
            decreases input_grid@[y as int]@.len() - x,
        {
            proof {
                lemma_row_sum_mono(g, f, y as int, x + 1, g[y as int].len() as int);
                lemma_grid_sum_mono(g, f, y + 1, g.len() as int);
            }
            total += xmas_here(input_grid, y, x, &word, &reversed);
            x += 1;
        }
        y += 1;
    }
    total
}

/// Counts the 3×3 blocks whose two diagonals both spell MAS, each forwards or
/// backwards.
pub fn count_x_mas(input_grid: &[Vec<char>]) -> (r: u32)
    requires
        x_mas_count(rows_of(input_grid@)) <= u32::MAX,
    ensures
        r == x_mas_count(rows_of(input_grid@)),
{
    let ghost g = rows_of(input_grid@);
    let ghost f = |y: int, x: int| x_mas_at(g, y, x);
    let word: Vec<char> = vec!['M', 'A', 'S'];
    let reversed: Vec<char> = vec!['S', 'A', 'M'];
    proof {
        assert(word@ =~= mas_word());
        assert(reversed@ =~= mas_word().reverse());
    }
    let mut total: u32 = 0;
    let mut y: usize = 0;
    while y < input_grid.len()
        invariant
            g == rows_of(input_grid@),
            f == (|y: int, x: int| x_mas_at(g, y, x)),
            word@ == mas_word(),
            reversed@ == mas_word().reverse(),
            grid_sum(g, f, g.len() as int) <= u32::MAX,
            y <= input_grid.len(),
            total == grid_sum(g, f, y as int),
        decreases input_grid.len() - y,
    {
        let mut x: usize = 0;
        while x < input_grid[y].len()
            invariant
                g == rows_of(input_grid@),
                f == (|y: int, x: int| x_mas_at(g, y, x)),
                word@ == mas_word(),
                reversed@ == mas_word().reverse(),
                grid_sum(g, f, g.len() as int) <= u32::MAX,
                y < input_grid.len(),
                x <= input_grid@[y as int]@.len(),
                total == grid_sum(g, f, y as int) + row_sum(g, f, y as int, x as int),
            decreases input_grid@[y as int]@.len() - x,
        {
            proof {
                lemma_row_sum_mono(g, f, y as int, x + 1, g[y as int].len() as int);
                lemma_grid_sum_mono(g, f, y + 1, g.len() as int);
            }
            let crossed = x < usize::MAX - 1 && line_matches(input_grid, y, x, 1, 1, &word, &reversed)
                && line_matches(input_grid, y, x + 2, 1, -1, &word, &reversed);
            proof {
                if x >= usize::MAX - 1 {
                    let yi = y as int;
                    let xi = x as int;
                    assert(cell_at(g, yi + 0 * 1, xi + 2 + 0 * -1) == None::<char>);
                    assert(!reads_line(g, yi, xi + 2, 1, -1, mas_word()));
                    assert(!reads_line(g, yi, xi + 2, 1, -1, mas_word().reverse()));
                }
            }
            if crossed {
                total += 1;
            }
            x += 1;
        }
        y += 1;
    }
    total
}

} // verus!
