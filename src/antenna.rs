//! Antenna maps: same-labelled antennas and the antinode cells they project,
//! either as the mirror image of one antenna through another or as every cell
//! on the line through a pair.
use vstd::prelude::*;
use crate::grid::rows_of;
use crate::text::{lines, lines_of};

verus! {

/// A grid of cells together with the positions of its antennas, grouped by label.
#[derive(Debug, PartialEq, Eq)]
pub struct AntennaMap {
    pub map: Vec<Vec<char>>,
    pub antenna_locs: Vec<(char, Vec<(usize, usize)>)>,
}

/// The positions `(row, col)` with `col < n` in row `y` that hold `c`, left to right.
pub open spec fn row_positions(row: Seq<char>, y: int, c: char, n: int) -> Seq<(usize, usize)>
    decreases n,
{
    if n <= 0 {
        Seq::empty()
    } else {
        let earlier = row_positions(row, y, c, n - 1);
        if row[n - 1] == c {
            earlier.push((y as usize, (n - 1) as usize))
        } else {
            earlier
        }
    }
}

/// The positions holding `c` in the first `m` rows, in row-major order.
pub open spec fn grid_positions(rows: Seq<Seq<char>>, c: char, m: int) -> Seq<(usize, usize)>
    decreases m,
{
    if m <= 0 {
        Seq::empty()
    } else {
        grid_positions(rows, c, m - 1) + row_positions(rows[m - 1], m - 1, c, rows[m - 1].len() as int)
    }
}

/// The positions holding `c` anywhere in the grid, in row-major order.
pub open spec fn positions_of(rows: Seq<Seq<char>>, c: char) -> Seq<(usize, usize)> {
    grid_positions(rows, c, rows.len() as int)
}

/// Whether `groups` lists, once each, every label other than `'.'` found in `rows`,
/// with all of its positions in row-major order.
pub open spec fn groups_match(rows: Seq<Seq<char>>, groups: Seq<(char, Vec<(usize, usize)>)>) -> bool {
    &&& forall|k: int| 0 <= k < groups.len() ==> {
        &&& (#[trigger] groups[k]).0 != '.'
        &&& groups[k].1@ == positions_of(rows, groups[k].0)
    }
    &&& forall|k1: int, k2: int|
        0 <= k1 < groups.len() && 0 <= k2 < groups.len() && k1 != k2
            ==> (#[trigger] groups[k1]).0 != (#[trigger] groups[k2]).0
    &&& forall|c: char| c != '.' && (#[trigger] positions_of(rows, c)).len() > 0
        ==> exists|k: int| 0 <= k < groups.len() && (#[trigger] groups[k]).0 == c
}


/// Whether the cell `(y, x)` is the mirror image of antenna `j` through antenna `i`
/// of the same group: it lies as far beyond `i` as `j` lies before it.
pub open spec fn reflects_to(locs: Seq<(usize, usize)>, i: int, j: int, y: int, x: int) -> bool {
    &&& 0 <= i < locs.len()
    &&& 0 <= j < locs.len()
    &&& i != j
    &&& 2 * locs[i].0 - locs[j].0 == y
    &&& 2 * locs[i].1 - locs[j].1 == x
}

/// Whether some pair of same-labelled antennas projects an antinode onto `(y, x)`.
pub open spec fn is_antinode(groups: Seq<(char, Vec<(usize, usize)>)>, y: int, x: int) -> bool {
    exists|k: int, i: int, j: int|
        0 <= k < groups.len() && #[trigger] reflects_to(groups[k].1@, i, j, y, x)
}

/// Whether the cell `(y, x)` lies on the line through two distinct antennas `i` and
/// `j` of the same group, in exact integer arithmetic.
pub open spec fn on_line(locs: Seq<(usize, usize)>, i: int, j: int, y: int, x: int) -> bool {
    &&& 0 <= i < locs.len()
    &&& 0 <= j < locs.len()
    &&& i != j
    &&& locs[i] != locs[j]
    &&& (y - locs[i].0) * (locs[j].1 - locs[i].1) == (x - locs[i].1) * (locs[j].0 - locs[i].0)
}

/// Whether some pair of distinct same-labelled antennas is collinear with `(y, x)`.
pub open spec fn is_resonant_antinode(groups: Seq<(char, Vec<(usize, usize)>)>, y: int, x: int) -> bool {
    exists|k: int, i: int, j: int|
        0 <= k < groups.len() && #[trigger] on_line(groups[k].1@, i, j, y, x)
}

/// The mirror image of one antenna through another lies on the line through the
/// two, so every antinode of a pair of distinct antennas is also one of their
/// resonant antinodes.
pub proof fn lemma_mirror_on_line(locs: Seq<(usize, usize)>, i: int, j: int, y: int, x: int)
    requires
        reflects_to(locs, i, j, y, x),
        locs[i] != locs[j],
    ensures
        on_line(locs, i, j, y, x),
{
    let (yi, xi) = (locs[i].0 as int, locs[i].1 as int);
    let (yj, xj) = (locs[j].0 as int, locs[j].1 as int);
    assert((yi - yj) * (xj - xi) == (xi - xj) * (yj - yi)) by (nonlinear_arith);
}

/// Whether no group lists the same position twice.
pub open spec fn distinct_positions(groups: Seq<(char, Vec<(usize, usize)>)>) -> bool {
    forall|k: int, i: int, j: int|
        0 <= k < groups.len() && 0 <= i < groups[k].1@.len() && 0 <= j < groups[k].1@.len() && i != j
            ==> #[trigger] groups[k].1@[i] != #[trigger] groups[k].1@[j]
}

/// Every cell that the mirror rule marks, the line rule marks too.
pub proof fn lemma_antinodes_are_resonant(groups: Seq<(char, Vec<(usize, usize)>)>, y: int, x: int)
    requires
        distinct_positions(groups),
        is_antinode(groups, y, x),
    ensures
        is_resonant_antinode(groups, y, x),
{
    let (k, i, j) = choose|k: int, i: int, j: int|
        0 <= k < groups.len() && #[trigger] reflects_to(groups[k].1@, i, j, y, x);
    lemma_mirror_on_line(groups[k].1@, i, j, y, x);
    assert(on_line(groups[k].1@, i, j, y, x));
}

/// The grid `rows` with every cell that satisfies `hit` rewritten to `'#'`.
pub open spec fn mark_cells(rows: Seq<Seq<char>>, hit: spec_fn(int, int) -> bool) -> Seq<Seq<char>> {
    Seq::new(
        rows.len(),
        |y: int| Seq::new(rows[y].len(), |x: int| if hit(y, x) { '#' } else { rows[y][x] }),
    )
}

/// Whether `2a - b == t`, computed without overflow.
fn mirrors(a: usize, b: usize, t: usize) -> (r: bool)
    ensures
        r == (2 * a - b == t),
{
    if a >= b {
        t >= a && t - a == a - b
    } else {
        t <= a && a - t == b - a
    }
}

/// The distance between two coordinates, and whether the first lies before the second.
fn signed_diff(a: usize, b: usize) -> (r: (bool, u128))
    ensures
        r.0 == (a < b),
        r.1 as int == if a < b { b - a } else { a - b },
{
    if a < b {
        (true, (b - a) as u128)
    } else {
        (false, (a - b) as u128)
    }
}

proof fn lemma_signed_product(a: int, b: int)
    ensures
        a * b == if (a < 0) != (b < 0) {
            -((if a < 0 { -a } else { a }) * (if b < 0 { -b } else { b }))
        } else {
            (if a < 0 { -a } else { a }) * (if b < 0 { -b } else { b })
        },
{
    assert(a * b == if (a < 0) != (b < 0) {
        -((if a < 0 { -a } else { a }) * (if b < 0 { -b } else { b }))
    } else {
        (if a < 0 { -a } else { a }) * (if b < 0 { -b } else { b })
    }) by (nonlinear_arith);
}

proof fn lemma_product_fits(a: int, b: int)
    requires
        0 <= a <= u64::MAX,
        0 <= b <= u64::MAX,
    ensures
        a * b <= u128::MAX,
{
    assert(a * b <= u64::MAX * u64::MAX) by (nonlinear_arith)
        requires
            0 <= a <= u64::MAX,
            0 <= b <= u64::MAX,
    ;
}

/// Whether `(y, x)` lies on the line through `p` and `q`:
/// `(y - p.0) * (q.1 - p.1) == (x - p.1) * (q.0 - p.0)`, computed without overflow.
fn collinear(p: (usize, usize), q: (usize, usize), y: usize, x: usize) -> (r: bool)
    ensures
        r == ((y - p.0) * (q.1 - p.1) == (x - p.1) * (q.0 - p.0)),
{
    let a = signed_diff(y, p.0);
    let b = signed_diff(q.1, p.1);
    let c = signed_diff(x, p.1);
    let d = signed_diff(q.0, p.0);
    proof {
        lemma_product_fits(a.1 as int, b.1 as int);
        lemma_product_fits(c.1 as int, d.1 as int);
        lemma_signed_product(y - p.0, q.1 - p.1);
        lemma_signed_product(x - p.1, q.0 - p.0);
    }
    let left = a.1 * b.1;
    let right = c.1 * d.1;
    let left_negative = a.0 != b.0;
    let right_negative = c.0 != d.0;
    left == right && (left == 0 || left_negative == right_negative)
}

impl AntennaMap {
    /// Reads a map: one row per line, every character other than `'.'` an antenna.
    pub fn new(input: &str) -> (r: Self)
        ensures
            rows_of(r.map@) == lines_of(input@),
            groups_match(rows_of(r.map@), r.antenna_locs@),
    {
        let map = lines(input);
        let ghost rows = rows_of(map@);
        let mut antenna_locs: Vec<(char, Vec<(usize, usize)>)> = Vec::new();
        let mut y: usize = 0;
        while y < map.len()
            invariant
                rows == rows_of(map@),
                y <= map.len(),
                forall|k: int| 0 <= k < antenna_locs.len() ==> {
                    &&& (#[trigger] antenna_locs@[k]).0 != '.'
                    &&& antenna_locs@[k].1@ == grid_positions(rows, antenna_locs@[k].0, y as int)
                },
                forall|k1: int, k2: int|
                    0 <= k1 < antenna_locs.len() && 0 <= k2 < antenna_locs.len() && k1 != k2
                        ==> (#[trigger] antenna_locs@[k1]).0 != (#[trigger] antenna_locs@[k2]).0,
                forall|c: char| c != '.' && (#[trigger] grid_positions(rows, c, y as int)).len() > 0
                    ==> exists|k: int| 0 <= k < antenna_locs.len() && (#[trigger] antenna_locs@[k]).0 == c,
            decreases map.len() - y,
        {
            let row = &map[y];
            let mut x: usize = 0;
            while x < row.len()
                invariant
                    rows == rows_of(map@),
                    y < map.len(),
                    row@ == rows[y as int],
                    x <= row.len(),
                    forall|k: int| 0 <= k < antenna_locs.len() ==> {
                        &&& (#[trigger] antenna_locs@[k]).0 != '.'
                        &&& antenna_locs@[k].1@ == grid_positions(rows, antenna_locs@[k].0, y as int)
                            + row_positions(row@, y as int, antenna_locs@[k].0, x as int)
                    },
                    forall|k1: int, k2: int|
                        0 <= k1 < antenna_locs.len() && 0 <= k2 < antenna_locs.len() && k1 != k2
                            ==> (#[trigger] antenna_locs@[k1]).0 != (#[trigger] antenna_locs@[k2]).0,
                    forall|c: char| c != '.' && (grid_positions(rows, c, y as int)
                        + #[trigger] row_positions(row@, y as int, c, x as int)).len() > 0
                        ==> exists|k: int| 0 <= k < antenna_locs.len() && (#[trigger] antenna_locs@[k]).0 == c,
                decreases row.len() - x,
            {
                let c = row[x];
                let ghost before = antenna_locs@;
                if c != '.' {
                    let mut k: usize = 0;
                    while k < antenna_locs.len() && antenna_locs[k].0 != c
                        invariant
                            k <= antenna_locs.len(),
                            forall|k2: int| 0 <= k2 < k ==> (#[trigger] antenna_locs@[k2]).0 != c,
                        decreases antenna_locs.len() - k,
                    {
                        k += 1;
                    }
                    if k < antenna_locs.len() {
                        let mut entry: (char, Vec<(usize, usize)>) = (c, Vec::new());
                        antenna_locs.set_and_swap(k, &mut entry);
                        entry.1.push((y, x));
                        antenna_locs.set_and_swap(k, &mut entry);
                    } else {
                        let mut found: Vec<(usize, usize)> = Vec::new();
                        found.push((y, x));
                        antenna_locs.push((c, found));
                    }
                }
                proof {
                    let yi = y as int;
                    let xi = x as int;
                    assert forall|c2: char| #[trigger] row_positions(row@, yi, c2, xi + 1) == (if c
                        == c2 {
                        row_positions(row@, yi, c2, xi).push((y, x))
                    } else {
                        row_positions(row@, yi, c2, xi)
                    }) by {}
                    assert forall|c2: char| #![auto] grid_positions(rows, c2, yi) + row_positions(
                        row@,
                        yi,
                        c2,
                        xi + 1,
                    ) == (if c == c2 {
                        (grid_positions(rows, c2, yi) + row_positions(row@, yi, c2, xi)).push((y, x))
                    } else {
                        grid_positions(rows, c2, yi) + row_positions(row@, yi, c2, xi)
                    }) by {
                        if c == c2 {
                            assert(grid_positions(rows, c2, yi) + row_positions(row@, yi, c2, xi).push(
                                (y, x),
                            ) =~= (grid_positions(rows, c2, yi) + row_positions(row@, yi, c2, xi)).push(
                                (y, x),
                            ));
                        }
                    }
                    assert forall|c2: char| c2 != '.' && (grid_positions(rows, c2, yi)
                        + #[trigger] row_positions(row@, yi, c2, xi + 1)).len() > 0
                        implies exists|k: int| 0 <= k < antenna_locs.len() && (#[trigger] antenna_locs@[k]).0 == c2 by {
                        if exists|k: int| 0 <= k < before.len() && (#[trigger] before[k]).0 == c2 {
                            let k0 = choose|k: int| 0 <= k < before.len() && (#[trigger] before[k]).0 == c2;
                            assert(antenna_locs@[k0].0 == c2);
                        } else {
                            assert(antenna_locs@[before.len() as int].0 == c2);
                        }
                    }
                }
                x += 1;
            }
            y += 1;
        }
        AntennaMap { map, antenna_locs }
    }

    /// The number of rows.
    pub fn num_rows(&self) -> (r: usize)
        ensures
            r == self.map@.len(),
    {
        self.map.len()
    }

    /// The number of columns, read off the first row.
    pub fn num_cols(&self) -> (r: usize)
        requires
            self.map@.len() > 0,
        ensures
            r == self.map@[0]@.len(),
    {
        self.map[0].len()
    }

    /// Whether some pair of same-labelled antennas mirrors onto `(y, x)`.
    fn antinode_at(&self, y: usize, x: usize) -> (r: bool)
        ensures
            r == is_antinode(self.antenna_locs@, y as int, x as int),
    {
        let groups = &self.antenna_locs;
        let mut k: usize = 0;
        while k < groups.len()
            invariant
                groups@ == self.antenna_locs@,
                k <= groups.len(),
                forall|k2: int, i2: int, j2: int|
                    0 <= k2 < k ==> !#[trigger] reflects_to(groups@[k2].1@, i2, j2, y as int, x as int),
            decreases groups.len() - k,
        {
            let locs = &groups[k].1;
            let mut i: usize = 0;
            while i < locs.len()
                invariant
                    groups@ == self.antenna_locs@,
                    k < groups.len(),
                    locs@ == groups@[k as int].1@,
                    i <= locs.len(),
                    forall|k2: int, i2: int, j2: int|
                        0 <= k2 < k ==> !#[trigger] reflects_to(groups@[k2].1@, i2, j2, y as int, x as int),
                    forall|i2: int, j2: int|
                        i2 < i ==> !#[trigger] reflects_to(locs@, i2, j2, y as int, x as int),
                decreases locs.len() - i,
            {
                let mut j: usize = 0;
                while j < locs.len()
                    invariant
                        groups@ == self.antenna_locs@,
                        k < groups.len(),
                        locs@ == groups@[k as int].1@,
                        i < locs.len(),
                        j <= locs.len(),
                        forall|k2: int, i2: int, j2: int|
                            0 <= k2 < k ==> !#[trigger] reflects_to(groups@[k2].1@, i2, j2, y as int, x as int),
                        forall|i2: int, j2: int|
                            i2 < i ==> !#[trigger] reflects_to(locs@, i2, j2, y as int, x as int),
                        forall|j2: int| j2 < j ==> !#[trigger] reflects_to(locs@, i as int, j2, y as int, x as int),
                    decreases locs.len() - j,
                {
                    if i != j && mirrors(locs[i].0, locs[j].0, y) && mirrors(locs[i].1, locs[j].1, x) {
                        assert(reflects_to(groups@[k as int].1@, i as int, j as int, y as int, x as int));
                        assert(is_antinode(self.antenna_locs@, y as int, x as int));
                        return true;
                    }
                    j += 1;
                }
                i += 1;
            }
            k += 1;
        }
        false
    }

    /// Whether some pair of distinct same-labelled antennas is collinear with `(y, x)`.
    fn resonant_antinode_at(&self, y: usize, x: usize) -> (r: bool)
        ensures
            r == is_resonant_antinode(self.antenna_locs@, y as int, x as int),
    {
        let groups = &self.antenna_locs;
        let mut k: usize = 0;
        while k < groups.len()
            invariant
                groups@ == self.antenna_locs@,
                k <= groups.len(),
                forall|k2: int, i2: int, j2: int|
                    0 <= k2 < k ==> !#[trigger] on_line(groups@[k2].1@, i2, j2, y as int, x as int),
            decreases groups.len() - k,
        {
            let locs = &groups[k].1;
            let mut i: usize = 0;
            while i < locs.len()
                invariant
                    groups@ == self.antenna_locs@,
                    k < groups.len(),
                    locs@ == groups@[k as int].1@,
                    i <= locs.len(),
                    forall|k2: int, i2: int, j2: int|
                        0 <= k2 < k ==> !#[trigger] on_line(groups@[k2].1@, i2, j2, y as int, x as int),
                    forall|i2: int, j2: int|
                        i2 < i ==> !#[trigger] on_line(locs@, i2, j2, y as int, x as int),
                decreases locs.len() - i,
            {
                let mut j: usize = 0;
                while j < locs.len()
                    invariant
                        groups@ == self.antenna_locs@,
                        k < groups.len(),
                        locs@ == groups@[k as int].1@,
                        i < locs.len(),
                        j <= locs.len(),
                        forall|k2: int, i2: int, j2: int|
                            0 <= k2 < k ==> !#[trigger] on_line(groups@[k2].1@, i2, j2, y as int, x as int),
                        forall|i2: int, j2: int|
                            i2 < i ==> !#[trigger] on_line(locs@, i2, j2, y as int, x as int),
                        forall|j2: int| j2 < j ==> !#[trigger] on_line(locs@, i as int, j2, y as int, x as int),
                    decreases locs.len() - j,
                {
                    if i != j && (locs[i].0 != locs[j].0 || locs[i].1 != locs[j].1) && collinear(locs[i], locs[j], y, x) {
                        assert(on_line(groups@[k as int].1@, i as int, j as int, y as int, x as int));
                        assert(is_resonant_antinode(self.antenna_locs@, y as int, x as int));
                        return true;
                    }
                    j += 1;
                }
                i += 1;
            }
            k += 1;
        }
        false
    }

    /// Marks with `'#'` every cell that is the mirror image of one antenna through
    /// another of the same label; the antennas themselves are kept.
    pub fn fill_antinodes(self) -> (r: AntennaMap)
        ensures
            r.antenna_locs == self.antenna_locs,
            rows_of(r.map@) == mark_cells(
                rows_of(self.map@),
                |y: int, x: int| is_antinode(self.antenna_locs@, y, x),
            ),
    {
        let ghost hit = |y: int, x: int| is_antinode(self.antenna_locs@, y, x);
        let mut filled: Vec<Vec<char>> = Vec::new();
        let mut y: usize = 0;
        while y < self.map.len()
            invariant
                hit == (|y: int, x: int| is_antinode(self.antenna_locs@, y, x)),
                y <= self.map.len(),
                rows_of(filled@) == mark_cells(rows_of(self.map@), hit).take(y as int),
            decreases self.map.len() - y,
        {
            let row = &self.map[y];
            let mut marked: Vec<char> = Vec::new();
            let mut x: usize = 0;
            while x < row.len()
                invariant
                    hit == (|y: int, x: int| is_antinode(self.antenna_locs@, y, x)),
                    y < self.map.len(),
                    row@ == self.map@[y as int]@,
                    x <= row.len(),
                    marked@ == mark_cells(rows_of(self.map@), hit)[y as int].take(x as int),
                decreases row.len() - x,
            {
                let ghost target = mark_cells(rows_of(self.map@), hit)[y as int];
                assert(rows_of(self.map@)[y as int] == row@);
                assert(target[x as int] == if hit(y as int, x as int) { '#' } else { row@[x as int] });
                if self.antinode_at(y, x) {
                    marked.push('#');
                } else {
                    marked.push(row[x]);
                }
                x += 1;
                assert(marked@ =~= mark_cells(rows_of(self.map@), hit)[y as int].take(x as int));
            }
            assert(marked@ =~= mark_cells(rows_of(self.map@), hit)[y as int]);
            let ghost prev = filled@;
            filled.push(marked);
            assert(rows_of(filled@) =~= rows_of(prev).push(marked@));
            y += 1;
            assert(rows_of(filled@) =~= mark_cells(rows_of(self.map@), hit).take(y as int));
        }
        assert(rows_of(filled@) =~= mark_cells(rows_of(self.map@), hit));
        AntennaMap { map: filled, antenna_locs: self.antenna_locs }
    }

    /// Marks with `'#'` every cell on a line through two distinct antennas of the same
    /// label, the antennas included.
    pub fn fill_resonant_antinodes(self) -> (r: AntennaMap)
        ensures
            r.antenna_locs == self.antenna_locs,
            rows_of(r.map@) == mark_cells(
                rows_of(self.map@),
                |y: int, x: int| is_resonant_antinode(self.antenna_locs@, y, x),
            ),
    {
        let ghost hit = |y: int, x: int| is_resonant_antinode(self.antenna_locs@, y, x);
        let mut filled: Vec<Vec<char>> = Vec::new();
        let mut y: usize = 0;
        while y < self.map.len()
            invariant
                hit == (|y: int, x: int| is_resonant_antinode(self.antenna_locs@, y, x)),
                y <= self.map.len(),
                rows_of(filled@) == mark_cells(rows_of(self.map@), hit).take(y as int),
            decreases self.map.len() - y,
        {
            let row = &self.map[y];
            let mut marked: Vec<char> = Vec::new();
            let mut x: usize = 0;
            while x < row.len()
                invariant
                    hit == (|y: int, x: int| is_resonant_antinode(self.antenna_locs@, y, x)),
                    y < self.map.len(),
                    row@ == self.map@[y as int]@,
                    x <= row.len(),
                    marked@ == mark_cells(rows_of(self.map@), hit)[y as int].take(x as int),
                decreases row.len() - x,
            {
                let ghost target = mark_cells(rows_of(self.map@), hit)[y as int];
                assert(rows_of(self.map@)[y as int] == row@);
                assert(target[x as int] == if hit(y as int, x as int) { '#' } else { row@[x as int] });
                if self.resonant_antinode_at(y, x) {
                    marked.push('#');
                } else {
                    marked.push(row[x]);
                }
                x += 1;
                assert(marked@ =~= mark_cells(rows_of(self.map@), hit)[y as int].take(x as int));
            }
            assert(marked@ =~= mark_cells(rows_of(self.map@), hit)[y as int]);
            let ghost prev = filled@;
            filled.push(marked);
            assert(rows_of(filled@) =~= rows_of(prev).push(marked@));
            y += 1;
            assert(rows_of(filled@) =~= mark_cells(rows_of(self.map@), hit).take(y as int));
        }
        assert(rows_of(filled@) =~= mark_cells(rows_of(self.map@), hit));
        AntennaMap { map: filled, antenna_locs: self.antenna_locs }
    }
}

} // verus!
