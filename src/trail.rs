//! Hiking trails on a height map: from every trailhead (height 0), count the
//! paths that climb exactly one unit per orthogonal step up to a summit (height 9).
use vstd::prelude::*;
use crate::grid::{cell_at, rows_of, get};
use crate::number::{digit_value, is_digit};
use crate::text::{lines, lines_of};

verus! {

/// Why a height map could not be read.
#[derive(Debug, Clone, Copy, PartialEq, Eq, Structural)]
pub enum TrailError {
    /// A cell is not a decimal digit.
    NotADigit,
}

/// The heights written in the lines of `rows`, digit by digit.
pub open spec fn heights_of(rows: Seq<Seq<char>>) -> Seq<Seq<u32>> {
    rows.map_values(|row: Seq<char>| row.map_values(|c: char| digit_value(c) as u32))
}

/// The height at `p` as an integer, or -1 off the map.
pub open spec fn height(g: Seq<Seq<u32>>, p: (usize, usize)) -> int {
    match cell_at(g, p.0 as int, p.1 as int) {
        Some(h) => h as int,
        None => -1,
    }
}

/// The neighbour of `p` in direction `k`: 0 up, 1 right, 2 down, 3 left; `None` when
/// it would fall outside the range of `usize`.
pub open spec fn neighbour(p: (usize, usize), k: int) -> Option<(usize, usize)> {
    let (y, x) = (p.0 as int, p.1 as int);
    let (ny, nx) = if k == 0 {
        (y - 1, x)
    } else if k == 1 {
        (y, x + 1)
    } else if k == 2 {
        (y + 1, x)
    } else {
        (y, x - 1)
    };
    if 0 <= ny <= usize::MAX && 0 <= nx <= usize::MAX {
        Some((ny as usize, nx as usize))
    } else {
        None
    }
}

/// Whether the neighbour of `p` in direction `k` lies on the map exactly one unit
/// higher than `p`.
pub open spec fn climbs(g: Seq<Seq<u32>>, p: (usize, usize), k: int) -> bool {
    match neighbour(p, k) {
        Some(q) => height(g, q) >= 0 && height(g, q) == height(g, p) + 1,
        None => false,
    }
}

/// The neighbour in direction `k` as a sequence of one cell when it climbs, else empty.
pub open spec fn climb_seq(g: Seq<Seq<u32>>, p: (usize, usize), k: int) -> Seq<(usize, usize)> {
    if climbs(g, p, k) {
        seq![neighbour(p, k).unwrap()]
    } else {
        Seq::empty()
    }
}

/// The cells one step further along a trail from `p`: up, right, down, left.
pub open spec fn next_steps(g: Seq<Seq<u32>>, p: (usize, usize)) -> Seq<(usize, usize)> {
    climb_seq(g, p, 0) + climb_seq(g, p, 1) + climb_seq(g, p, 2) + climb_seq(g, p, 3)
}

/// The number of trails from `p` to a summit: one at a summit, otherwise the sum
/// over the neighbours one unit higher.
pub open spec fn trail_score(g: Seq<Seq<u32>>, p: (usize, usize)) -> nat
    decreases 9 - height(g, p),
{
    if height(g, p) < 0 || height(g, p) >= 9 {
        if height(g, p) == 9 {
            1
        } else {
            0
        }
    } else {
        (if climbs(g, p, 0) { trail_score(g, neighbour(p, 0).unwrap()) } else { 0 })
            + (if climbs(g, p, 1) { trail_score(g, neighbour(p, 1).unwrap()) } else { 0 })
            + (if climbs(g, p, 2) { trail_score(g, neighbour(p, 2).unwrap()) } else { 0 })
            + (if climbs(g, p, 3) { trail_score(g, neighbour(p, 3).unwrap()) } else { 0 })
    }
}

/// The number of cells the search visits from `p`, `p` included.
pub open spec fn search_size(g: Seq<Seq<u32>>, p: (usize, usize)) -> nat
    decreases 9 - height(g, p),
{
    if height(g, p) < 0 || height(g, p) >= 9 {
        1
    } else {
        1 + (if climbs(g, p, 0) { search_size(g, neighbour(p, 0).unwrap()) } else { 0 })
            + (if climbs(g, p, 1) { search_size(g, neighbour(p, 1).unwrap()) } else { 0 })
            + (if climbs(g, p, 2) { search_size(g, neighbour(p, 2).unwrap()) } else { 0 })
            + (if climbs(g, p, 3) { search_size(g, neighbour(p, 3).unwrap()) } else { 0 })
    }
}

/// The total score of a stack of cells still to explore.
pub open spec fn stack_score(g: Seq<Seq<u32>>, s: Seq<(usize, usize)>) -> nat
    decreases s.len(),
{
    if s.len() == 0 {
        0
    } else {
        stack_score(g, s.drop_last()) + trail_score(g, s.last())
    }
}

/// The total search size of a stack of cells still to explore.
pub open spec fn stack_size(g: Seq<Seq<u32>>, s: Seq<(usize, usize)>) -> nat
    decreases s.len(),
{
    if s.len() == 0 {
        0
    } else {
        stack_size(g, s.drop_last()) + search_size(g, s.last())
    }
}

/// The scores of every cell: a trailhead's trail count, zero elsewhere.
pub open spec fn hiking_scores(g: Seq<Seq<u32>>) -> Seq<Seq<u32>> {
    Seq::new(
        g.len(),
        |y: int| Seq::new(
            g[y].len(),
            |x: int| if g[y][x] == 0 { trail_score(g, (y as usize, x as usize)) as u32 } else { 0 },
        ),
    )
}

pub open spec fn pow4(n: nat) -> nat
    decreases n,
{
    if n == 0 {
        1
    } else {
        4 * pow4((n - 1) as nat)
    }
}

proof fn lemma_stack_concat(g: Seq<Seq<u32>>, a: Seq<(usize, usize)>, b: Seq<(usize, usize)>)
    ensures
        stack_score(g, a + b) == stack_score(g, a) + stack_score(g, b),
        stack_size(g, a + b) == stack_size(g, a) + stack_size(g, b),
    decreases b.len(),
{
    if b.len() > 0 {
        assert((a + b).drop_last() =~= a + b.drop_last());
        lemma_stack_concat(g, a, b.drop_last());
    } else {
        assert(a + b =~= a);
    }
}

proof fn lemma_climb_seq(g: Seq<Seq<u32>>, p: (usize, usize), k: int)
    ensures
        stack_score(g, climb_seq(g, p, k)) == if climbs(g, p, k) { trail_score(g, neighbour(p, k).unwrap()) } else { 0 },
        stack_size(g, climb_seq(g, p, k)) == if climbs(g, p, k) { search_size(g, neighbour(p, k).unwrap()) } else { 0 },
{
    let s = climb_seq(g, p, k);
    if climbs(g, p, k) {
        assert(s.drop_last() =~= Seq::<(usize, usize)>::empty());
        assert(stack_score(g, s.drop_last()) == 0);
        assert(stack_size(g, s.drop_last()) == 0);
        assert(s.last() == neighbour(p, k).unwrap());
    } else {
        assert(s.len() == 0);
    }
}

/// Below a summit, a cell's score and search size are those of its next steps.
proof fn lemma_next_steps(g: Seq<Seq<u32>>, p: (usize, usize))
    requires
        0 <= height(g, p) < 9,
    ensures
        stack_score(g, next_steps(g, p)) == trail_score(g, p),
        stack_size(g, next_steps(g, p)) + 1 == search_size(g, p),
{
    lemma_climb_seq(g, p, 0);
    lemma_climb_seq(g, p, 1);
    lemma_climb_seq(g, p, 2);
    lemma_climb_seq(g, p, 3);
    let s0 = climb_seq(g, p, 0);
    let s1 = climb_seq(g, p, 1);
    let s2 = climb_seq(g, p, 2);
    let s3 = climb_seq(g, p, 3);
    lemma_stack_concat(g, s0, s1);
    lemma_stack_concat(g, s0 + s1, s2);
    lemma_stack_concat(g, s0 + s1 + s2, s3);
}

proof fn lemma_pow4_mono(a: nat, b: nat)
    requires
        a <= b,
    ensures
        pow4(a) <= pow4(b),
    decreases b,
{
    if a < b {
        lemma_pow4_mono(a, (b - 1) as nat);
    }
}

/// Each next step lies on the map, one unit higher.
proof fn lemma_next_steps_climb(g: Seq<Seq<u32>>, p: (usize, usize), q: (usize, usize))
    requires
        next_steps(g, p).contains(q),
    ensures
        height(g, q) >= 0,
        height(g, q) == height(g, p) + 1,
{
    let s = next_steps(g, p);
    let i = choose|i: int| 0 <= i < s.len() && s[i] == q;
    let s0 = climb_seq(g, p, 0);
    let s1 = climb_seq(g, p, 1);
    let s2 = climb_seq(g, p, 2);
    let s3 = climb_seq(g, p, 3);
    if i < s0.len() {
        assert(s[i] == s0[i]);
    } else if i < s0.len() + s1.len() {
        assert(s[i] == s1[i - s0.len()]);
    } else if i < s0.len() + s1.len() + s2.len() {
        assert(s[i] == s2[i - s0.len() - s1.len()]);
    } else {
        assert(s[i] == s3[i - s0.len() - s1.len() - s2.len()]);
    }
}

/// A cell at height `h` has at most 4^(9-h) trails.
proof fn lemma_score_bound(g: Seq<Seq<u32>>, p: (usize, usize))
    requires
        0 <= height(g, p) <= 9,
    ensures
        trail_score(g, p) <= pow4((9 - height(g, p)) as nat),
    decreases 9 - height(g, p),
{
    if height(g, p) < 9 {
        let b = pow4((8 - height(g, p)) as nat);
        assert(pow4((9 - height(g, p)) as nat) == 4 * b);
        let mut k: int = 0;
        if climbs(g, p, 0) { lemma_score_bound(g, neighbour(p, 0).unwrap()); }
        if climbs(g, p, 1) { lemma_score_bound(g, neighbour(p, 1).unwrap()); }
        if climbs(g, p, 2) { lemma_score_bound(g, neighbour(p, 2).unwrap()); }
        if climbs(g, p, 3) { lemma_score_bound(g, neighbour(p, 3).unwrap()); }
    }
}

proof fn lemma_stack_score_remove(g: Seq<Seq<u32>>, s: Seq<(usize, usize)>, j: int)
    requires
        0 <= j < s.len(),
    ensures
        stack_score(g, s) == stack_score(g, s.remove(j)) + trail_score(g, s[j]),
{
    let a = s.subrange(0, j);
    let b = s.subrange(j + 1, s.len() as int);
    assert(s =~= a + seq![s[j]] + b);
    assert(s.remove(j) =~= a + b);
    lemma_stack_concat(g, a + seq![s[j]], b);
    lemma_stack_concat(g, a, seq![s[j]]);
    lemma_stack_concat(g, a, b);
    assert(seq![s[j]].drop_last() =~= Seq::<(usize, usize)>::empty());
    assert(stack_score(g, Seq::<(usize, usize)>::empty()) == 0);
    assert(stack_score(g, seq![s[j]]) == trail_score(g, s[j]));
}

/// The total score of a stack of cells does not depend on their order: the search
/// may take them in any order and counts the same trails.
pub proof fn lemma_stack_order_irrelevant(g: Seq<Seq<u32>>, s1: Seq<(usize, usize)>, s2: Seq<(usize, usize)>)
    requires
        s1.to_multiset() == s2.to_multiset(),
    ensures
        stack_score(g, s1) == stack_score(g, s2),
    decreases s1.len(),
{
    broadcast use vstd::multiset::group_multiset_axioms;
    s1.to_multiset_ensures();
    s2.to_multiset_ensures();
    if s1.len() > 0 {
        let x = s1.last();
        assert(s1.contains(x)) by {
            assert(s1[s1.len() - 1] == x);
        }
        assert(s1.to_multiset().count(x) > 0);
        assert(s2.to_multiset().count(x) > 0);
        assert(s2.contains(x));
        let j = choose|j: int| 0 <= j < s2.len() && s2[j] == x;
        vstd::seq_lib::to_multiset_remove(s2, j);
        vstd::seq_lib::to_multiset_remove(s1, s1.len() - 1);
        assert(s1.remove(s1.len() - 1) =~= s1.drop_last());
        lemma_stack_order_irrelevant(g, s1.drop_last(), s2.remove(j));
        lemma_stack_score_remove(g, s2, j);
    } else {
        assert(s2.len() == 0);
    }
}

/// A map of hiking heights, one digit per cell.
#[derive(Debug)]
pub struct TrailMap {
    pub map: Vec<Vec<u32>>,
}

/// The neighbour of `p` in direction `k` (0 up, 1 right, 2 down, 3 left).
fn neighbour_of(p: (usize, usize), k: usize) -> (r: Option<(usize, usize)>)
    requires
        k < 4,
    ensures
        r == neighbour(p, k as int),
{
    let (y, x) = p;
    if k == 0 {
        if y == 0 { None } else { Some((y - 1, x)) }
    } else if k == 1 {
        if x == usize::MAX { None } else { Some((y, x + 1)) }
    } else if k == 2 {
        if y == usize::MAX { None } else { Some((y + 1, x)) }
    } else {
        if x == 0 { None } else { Some((y, x - 1)) }
    }
}

impl TrailMap {
    /// Every height is a single digit.
    pub open spec fn wf(&self) -> bool {
        forall|y: int, x: int|
            0 <= y < self.map@.len() && 0 <= x < self.map@[y]@.len() ==> #[trigger] self.map@[y]@[x] <= 9
    }

    pub open spec fn heights(&self) -> Seq<Seq<u32>> {
        rows_of(self.map@)
    }

    /// Reads a height map, one row per line and one digit per cell.
    pub fn new(input: &str) -> (r: Result<Self, TrailError>)
        ensures
            match r {
                Ok(m) => {
                    &&& m.heights() == heights_of(lines_of(input@))
                    &&& m.wf()
                    &&& forall|y: int, x: int|
                        0 <= y < lines_of(input@).len() && 0 <= x < lines_of(input@)[y].len()
                            ==> is_digit(#[trigger] lines_of(input@)[y][x])
                },
                Err(TrailError::NotADigit) => exists|y: int, x: int|
                    0 <= y < lines_of(input@).len() && 0 <= x < lines_of(input@)[y].len()
                        && !is_digit(#[trigger] lines_of(input@)[y][x]),
            },
    {
        let text = lines(input);
        let ghost rows = lines_of(input@);
        let mut map: Vec<Vec<u32>> = Vec::new();
        let mut y: usize = 0;
        while y < text.len()
            invariant
                rows == lines_of(input@),
                rows == rows_of(text@),
                y <= text.len(),
                rows_of(map@) == heights_of(rows).take(y as int),
                forall|y2: int, x2: int| 0 <= y2 < y && 0 <= x2 < rows[y2].len() ==> is_digit(#[trigger] rows[y2][x2]),
            decreases text.len() - y,
        {
            let line = &text[y];
            let mut row: Vec<u32> = Vec::new();
            let mut x: usize = 0;
            while x < line.len()
                invariant
                    rows == lines_of(input@),
                    rows == rows_of(text@),
                    y < text.len(),
                    line@ == rows[y as int],
                    x <= line.len(),
                    row@ == heights_of(rows)[y as int].take(x as int),
                    forall|x2: int| 0 <= x2 < x ==> is_digit(#[trigger] rows[y as int][x2]),
                decreases line.len() - x,
            {
                let c = line[x];
                if c < '0' || c > '9' {
                    assert(!is_digit(rows[y as int][x as int]));
                    return Err(TrailError::NotADigit);
                }
                row.push((c as u32) - ('0' as u32));
                x += 1;
                assert(row@ =~= heights_of(rows)[y as int].take(x as int));
            }
            assert(row@ =~= heights_of(rows)[y as int]);
            let ghost prev = map@;
            map.push(row);
            y += 1;
            assert(rows_of(map@) =~= heights_of(rows).take(y as int)) by {
                assert(rows_of(map@) =~= rows_of(prev).push(row@));
            }
        }
        assert(rows_of(map@) =~= heights_of(rows));
        let m = TrailMap { map };
        assert(m.wf()) by {
            assert forall|y2: int, x2: int|
                0 <= y2 < m.map@.len() && 0 <= x2 < m.map@[y2]@.len() implies #[trigger] m.map@[y2]@[x2] <= 9 by {
                assert(m.map@[y2]@ == heights_of(rows)[y2]);
                assert(is_digit(rows[y2][x2]));
            }
        }
        Ok(m)
    }

    /// The height at `location` as `(row, column)`, or `None` off the map.
    pub fn get_height(&self, location: (usize, usize)) -> (r: Option<u32>)
        ensures
            r == cell_at(self.heights(), location.0 as int, location.1 as int),
    {
        get(&self.map, location.0, location.1)
    }

    /// The neighbours of `current_loc` exactly one unit higher, in the order up,
    /// right, down, left.
    pub fn get_next_step_in_trail(&self, current_loc: (usize, usize)) -> (r: Vec<(usize, usize)>)
        requires
            self.wf(),
            cell_at(self.heights(), current_loc.0 as int, current_loc.1 as int).is_some(),
        ensures
            r@ == next_steps(self.heights(), current_loc),
    {
        let ghost g = self.heights();
        let here = self.map[current_loc.0][current_loc.1];
        let mut steps: Vec<(usize, usize)> = Vec::new();
        let mut k: usize = 0;
        while k < 4
            invariant
                g == self.heights(),
                self.wf(),
                here as int == height(g, current_loc),
                here <= 9,
                k <= 4,
                steps@ == if k == 0 {
                    Seq::empty()
                } else if k == 1 {
                    climb_seq(g, current_loc, 0)
                } else if k == 2 {
                    climb_seq(g, current_loc, 0) + climb_seq(g, current_loc, 1)
                } else if k == 3 {
                    climb_seq(g, current_loc, 0) + climb_seq(g, current_loc, 1) + climb_seq(g, current_loc, 2)
                } else {
                    next_steps(g, current_loc)
                },
            decreases 4 - k,
        {
            let ghost before = steps@;
            if let Some(q) = neighbour_of(current_loc, k) {
                if let Some(h) = self.get_height(q) {
                    if h == here + 1 {
                        steps.push(q);
                    }
                }
            }
            assert(steps@ =~= before + climb_seq(g, current_loc, k as int));
            k += 1;
        }
        steps
    }

    /// The number of trails from `start` to a summit, found by exploring an explicit
    /// stack of cells; the order of exploration does not change the count.
    fn score_from(&self, start: (usize, usize)) -> (r: u32)
        requires
            self.wf(),
            0 <= height(self.heights(), start) <= 9,
        ensures
            r == trail_score(self.heights(), start),
    {
        let ghost g = self.heights();
        proof {
            lemma_score_bound(g, start);
            assert(pow4((9 - height(g, start)) as nat) <= pow4(9)) by {
                lemma_pow4_mono((9 - height(g, start)) as nat, 9);
            }
            reveal_with_fuel(pow4, 10);
            assert(pow4(9) == 262144);
            assert(stack_score(g, seq![start].drop_last()) == 0);
            assert(stack_size(g, seq![start].drop_last()) == 0);
        }
        let mut score: u32 = 0;
        let mut paths: Vec<(usize, usize)> = Vec::new();
        paths.push(start);
        while paths.len() > 0
            invariant
                g == self.heights(),
                self.wf(),
                trail_score(g, start) <= 262144,
                score + stack_score(g, paths@) == trail_score(g, start),
                forall|i: int| 0 <= i < paths@.len() ==> 0 <= #[trigger] height(g, paths@[i]) <= 9,
            decreases stack_size(g, paths@),
        {
            let ghost before = paths@;
            let current = paths.pop().unwrap();
            assert(before.drop_last() == paths@);
            assert(0 <= height(g, current) <= 9);
            let h = self.map[current.0][current.1];
            if h == 9 {
                score += 1;
            } else {
                let mut next_locations = self.get_next_step_in_trail(current);
                proof {
                    lemma_next_steps(g, current);
                    lemma_stack_concat(g, paths@, next_locations@);
                    assert forall|i: int| 0 <= i < next_locations@.len() implies 0 <= #[trigger] height(g, next_locations@[i]) <= 9 by {
                        lemma_next_steps_climb(g, current, next_locations@[i]);
                    }
                }
                let ghost rest = paths@;
                paths.append(&mut next_locations);
                assert(forall|i: int| 0 <= i < paths@.len() ==> 0 <= #[trigger] height(g, paths@[i]) <= 9) by {
                    assert forall|i: int| 0 <= i < paths@.len() implies 0 <= #[trigger] height(g, paths@[i]) <= 9 by {
                        if i >= rest.len() {
                            assert(paths@[i] == next_steps(g, current)[i - rest.len()]);
                        }
                    }
                }
            }
        }
        score
    }

    /// Every cell's score: for a trailhead (height 0) the number of distinct trails
    /// climbing one unit per step to a summit, for any other cell zero.
    pub fn get_hiking_scores(self) -> (r: Vec<Vec<u32>>)
        requires
            self.wf(),
        ensures
            rows_of(r@) == hiking_scores(self.heights()),
    {
        let ghost g = self.heights();
        let mut scores: Vec<Vec<u32>> = Vec::new();
        let mut y: usize = 0;
        while y < self.map.len()
            invariant
                g == self.heights(),
                self.wf(),
                y <= self.map.len(),
                rows_of(scores@) == hiking_scores(g).take(y as int),
            decreases self.map.len() - y,
        {
            let mut row: Vec<u32> = Vec::new();
            let mut x: usize = 0;
            while x < self.map[y].len()
                invariant
                    g == self.heights(),
                    self.wf(),
                    y < self.map.len(),
                    x <= self.map@[y as int]@.len(),
                    row@ == hiking_scores(g)[y as int].take(x as int),
                decreases self.map@[y as int]@.len() - x,
            {
                let ghost p = (y, x);
                assert(height(g, p) == g[y as int][x as int]);
                if self.map[y][x] == 0 {
                    let s = self.score_from((y, x));
                    row.push(s);
                } else {
                    row.push(0);
                }
                x += 1;
                assert(row@ =~= hiking_scores(g)[y as int].take(x as int));
            }
            assert(row@ =~= hiking_scores(g)[y as int]);
            let ghost prev = scores@;
            scores.push(row);
            y += 1;
            assert(rows_of(scores@) =~= hiking_scores(g).take(y as int)) by {
                assert(rows_of(scores@) =~= rows_of(prev).push(row@));
            }
        }
        assert(rows_of(scores@) =~= hiking_scores(g));
        scores
    }
}

} // verus!
