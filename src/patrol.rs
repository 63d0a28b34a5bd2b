//! A guard patrolling a grid: it walks straight ahead over open floor, turns
//! clockwise in front of an obstacle, marks each cell it leaves, and keeps the
//! bookkeeping that confirms a patrol loop.
use vstd::prelude::*;
use crate::grid::{cell_at, rows_of, is_rectangular, row_sum, grid_sum, lemma_row_sum_mono, lemma_grid_sum_mono, get};
use crate::text::{lines, lines_of};

verus! {

/// One of the four headings of the guard.
#[derive(Debug, Clone, Copy, PartialEq, Eq, Structural)]
pub enum GuardDirection {
    Up,
    Down,
    Left,
    Right,
}

/// The heading after a quarter turn clockwise: up, right, down, left, up.
pub open spec fn clockwise(d: GuardDirection) -> GuardDirection {
    match d {
        GuardDirection::Up => GuardDirection::Right,
        GuardDirection::Right => GuardDirection::Down,
        GuardDirection::Down => GuardDirection::Left,
        GuardDirection::Left => GuardDirection::Up,
    }
}

/// Whether `c` marks the guard's starting cell.
pub open spec fn is_marker(c: char) -> bool {
    c == '^' || c == 'v' || c == '<' || c == '>'
}

/// The heading a marker character shows.
pub open spec fn marker_direction(c: char) -> GuardDirection {
    if c == '^' {
        GuardDirection::Up
    } else if c == 'v' {
        GuardDirection::Down
    } else if c == '<' {
        GuardDirection::Left
    } else {
        GuardDirection::Right
    }
}

/// The cell one step ahead of `position`, or `None` when that step would leave the
/// range of `usize`.
pub open spec fn step_from(position: (usize, usize), d: GuardDirection) -> Option<(usize, usize)> {
    let (y, x) = (position.0 as int, position.1 as int);
    let (ny, nx) = match d {
        GuardDirection::Up => (y - 1, x),
        GuardDirection::Down => (y + 1, x),
        GuardDirection::Left => (y, x - 1),
        GuardDirection::Right => (y, x + 1),
    };
    if 0 <= ny <= usize::MAX && 0 <= nx <= usize::MAX {
        Some((ny as usize, nx as usize))
    } else {
        None
    }
}

/// A set of headings, one flag per heading.
#[derive(Debug, Clone, Copy, PartialEq, Eq, Structural)]
pub struct DirectionSet {
    pub up: bool,
    pub down: bool,
    pub left: bool,
    pub right: bool,
}

impl DirectionSet {
    pub open spec fn has(self, d: GuardDirection) -> bool {
        match d {
            GuardDirection::Up => self.up,
            GuardDirection::Down => self.down,
            GuardDirection::Left => self.left,
            GuardDirection::Right => self.right,
        }
    }

    pub open spec fn spec_full() -> DirectionSet {
        DirectionSet { up: true, down: true, left: true, right: true }
    }

    pub open spec fn without(self, d: GuardDirection) -> DirectionSet {
        match d {
            GuardDirection::Up => DirectionSet { up: false, ..self },
            GuardDirection::Down => DirectionSet { down: false, ..self },
            GuardDirection::Left => DirectionSet { left: false, ..self },
            GuardDirection::Right => DirectionSet { right: false, ..self },
        }
    }

    /// The set of all four headings.
    pub fn full() -> (r: DirectionSet)
        ensures
            r == Self::spec_full(),
    {
        DirectionSet { up: true, down: true, left: true, right: true }
    }

    /// Whether `d` is in the set.
    pub fn contains(&self, d: GuardDirection) -> (r: bool)
        ensures
            r == self.has(d),
    {
        match d {
            GuardDirection::Up => self.up,
            GuardDirection::Down => self.down,
            GuardDirection::Left => self.left,
            GuardDirection::Right => self.right,
        }
    }

    /// Takes `d` out of the set.
    pub fn remove(&mut self, d: GuardDirection)
        ensures
            *final(self) == old(self).without(d),
    {
        match d {
            GuardDirection::Up => self.up = false,
            GuardDirection::Down => self.down = false,
            GuardDirection::Left => self.left = false,
            GuardDirection::Right => self.right = false,
        }
    }

    pub open spec fn with(self, d: GuardDirection) -> DirectionSet {
        match d {
            GuardDirection::Up => DirectionSet { up: true, ..self },
            GuardDirection::Down => DirectionSet { down: true, ..self },
            GuardDirection::Left => DirectionSet { left: true, ..self },
            GuardDirection::Right => DirectionSet { right: true, ..self },
        }
    }

    pub open spec fn spec_empty() -> DirectionSet {
        DirectionSet { up: false, down: false, left: false, right: false }
    }

    /// The set of no headings.
    pub fn empty() -> (r: DirectionSet)
        ensures
            r == Self::spec_empty(),
    {
        DirectionSet { up: false, down: false, left: false, right: false }
    }

    /// Puts `d` into the set.
    pub fn insert(&mut self, d: GuardDirection)
        ensures
            *final(self) == old(self).with(d),
    {
        match d {
            GuardDirection::Up => self.up = true,
            GuardDirection::Down => self.down = true,
            GuardDirection::Left => self.left = true,
            GuardDirection::Right => self.right = true,
        }
    }

    /// The number of headings not in the set.
    pub open spec fn missing(self) -> nat {
        (if self.up { 0nat } else { 1nat }) + (if self.down { 0nat } else { 1nat }) + (if self.left {
            0nat
        } else {
            1nat
        }) + (if self.right { 0nat } else { 1nat })
    }

    /// Whether no heading is left in the set.
    pub fn is_empty(&self) -> (r: bool)
        ensures
            r == !(self.up || self.down || self.left || self.right),
    {
        !(self.up || self.down || self.left || self.right)
    }
}

/// The patrolling guard: where it stands, where it faces, and the loop bookkeeping.
/// `directions_to_confirm_loop` holds the headings not yet seen striking an
/// obstacle since the guard last set foot on fresh floor; `path_patrolled` says
/// whether its last move was onto floor it had already walked.
#[derive(Debug, Clone, Copy)]
pub struct Guard {
    pub direction: GuardDirection,
    pub position: (usize, usize),
    pub directions_to_confirm_loop: DirectionSet,
    pub path_patrolled: bool,
}

impl Guard {
    /// A guard at `position` facing the way the marker `direction` shows.
    pub fn new(direction: &char, position: (usize, usize)) -> (r: Self)
        requires
            is_marker(*direction),
        ensures
            r.direction == marker_direction(*direction),
            r.position == position,
            r.directions_to_confirm_loop == DirectionSet::spec_full(),
            !r.path_patrolled,
    {
        let heading = match *direction {
            '^' => GuardDirection::Up,
            'v' => GuardDirection::Down,
            '<' => GuardDirection::Left,
            _ => GuardDirection::Right,
        };
        Guard {
            direction: heading,
            position,
            directions_to_confirm_loop: DirectionSet::full(),
            path_patrolled: false,
        }
    }

    /// The cell one step ahead, or `None` when it would lie before row or column zero
    /// (or past the largest index).
    pub fn next_position(&self) -> (r: Option<(usize, usize)>)
        ensures
            r == step_from(self.position, self.direction),
    {
        let (y, x) = self.position;
        match self.direction {
            GuardDirection::Up => if y == 0 { None } else { Some((y - 1, x)) },
            GuardDirection::Down => if y == usize::MAX { None } else { Some((y + 1, x)) },
            GuardDirection::Left => if x == 0 { None } else { Some((y, x - 1)) },
            GuardDirection::Right => if x == usize::MAX { None } else { Some((y, x + 1)) },
        }
    }

    /// Turns a quarter clockwise in place.
    pub fn turn(&mut self)
        ensures
            *final(self) == (Guard { direction: clockwise(old(self).direction), ..*old(self) }),
    {
        self.direction = match self.direction {
            GuardDirection::Up => GuardDirection::Right,
            GuardDirection::Right => GuardDirection::Down,
            GuardDirection::Down => GuardDirection::Left,
            GuardDirection::Left => GuardDirection::Up,
        };
    }
}

/// Why a patrol map could not be read.
#[derive(Debug, Clone, Copy, PartialEq, Eq, Structural)]
pub enum PatrolError {
    /// The rows do not all have the same length.
    UnevenRows,
    /// A cell holds something other than floor, obstacle, walked floor or a guard.
    UnknownSymbol,
    /// No cell holds a guard.
    MissingGuard,
    /// More than one cell holds a guard.
    SeveralGuards,
}

/// Open floor, an obstacle, or floor the guard has walked.
pub open spec fn is_terrain(c: char) -> bool {
    c == '.' || c == '#' || c == 'X'
}

/// Whether `(y, x)` is a cell of the grid holding a guard marker.
pub open spec fn marker_cell(rows: Seq<Seq<char>>, y: int, x: int) -> bool {
    0 <= y < rows.len() && 0 <= x < rows[y].len() && is_marker(rows[y][x])
}

/// Whether some cell of the grid is neither terrain nor a guard marker.
pub open spec fn has_unknown_symbol(rows: Seq<Seq<char>>) -> bool {
    exists|y: int, x: int|
        0 <= y < rows.len() && 0 <= x < rows[y].len() && !is_terrain(#[trigger] rows[y][x]) && !is_marker(rows[y][x])
}

/// Whether two different cells hold guard markers.
pub open spec fn has_several_markers(rows: Seq<Seq<char>>) -> bool {
    exists|y1: int, x1: int, y2: int, x2: int|
        #[trigger] marker_cell(rows, y1, x1) && #[trigger] marker_cell(rows, y2, x2) && (y1, x1) != (y2, x2)
}

/// Whether some cell holds a guard marker.
pub open spec fn has_marker(rows: Seq<Seq<char>>) -> bool {
    exists|y: int, x: int| #[trigger] marker_cell(rows, y, x)
}

/// The width of the first row, or zero for a grid without rows.
pub open spec fn width_of(rows: Seq<Seq<char>>) -> int {
    if rows.len() == 0 {
        0
    } else {
        rows[0].len() as int
    }
}

/// The first reason, in this order, why `rows` is no patrol map: uneven rows, an
/// unknown symbol, several guards, no guard.
pub open spec fn patrol_error(rows: Seq<Seq<char>>) -> Option<PatrolError> {
    if !is_rectangular(rows, width_of(rows)) {
        Some(PatrolError::UnevenRows)
    } else if has_unknown_symbol(rows) {
        Some(PatrolError::UnknownSymbol)
    } else if has_several_markers(rows) {
        Some(PatrolError::SeveralGuards)
    } else if !has_marker(rows) {
        Some(PatrolError::MissingGuard)
    } else {
        None
    }
}

/// The state after one step of the patrol. A guard already off the grid stays as
/// it is; a guard whose next step would leave the index range marks its cell and
/// stops; an obstacle ahead turns it clockwise in place and updates the loop
/// bookkeeping; otherwise it marks the cell it leaves with `'X'` and moves on,
/// noting whether the new cell was walked before. The flag says whether the patrol
/// goes on.
pub open spec fn walk_step(rows: Seq<Seq<char>>, g: Guard) -> (Seq<Seq<char>>, Guard, bool) {
    let (y, x) = (g.position.0 as int, g.position.1 as int);
    if cell_at(rows, y, x).is_none() {
        (rows, g, false)
    } else {
        let marked = rows.update(y, rows[y].update(x, 'X'));
        match step_from(g.position, g.direction) {
            None => (marked, g, false),
            Some(next) => match cell_at(rows, next.0 as int, next.1 as int) {
                None => (marked, Guard { position: next, ..g }, true),
                Some(c) => if c == '#' {
                    let remaining = if g.path_patrolled {
                        g.directions_to_confirm_loop.without(g.direction)
                    } else {
                        DirectionSet::spec_full()
                    };
                    (
                        rows,
                        Guard {
                            direction: clockwise(g.direction),
                            directions_to_confirm_loop: remaining,
                            ..g
                        },
                        true,
                    )
                } else {
                    (marked, Guard { position: next, path_patrolled: c == 'X', ..g }, true)
                },
            },
        }
    }
}

/// A guard facing an obstacle turns a quarter clockwise where it stands: the grid
/// and its position stay as they were, and the patrol goes on.
pub proof fn lemma_obstacle_turns_in_place(rows: Seq<Seq<char>>, g: Guard, next: (usize, usize))
    requires
        cell_at(rows, g.position.0 as int, g.position.1 as int).is_some(),
        step_from(g.position, g.direction) == Some(next),
        cell_at(rows, next.0 as int, next.1 as int) == Some('#'),
    ensures
        walk_step(rows, g).0 == rows,
        walk_step(rows, g).1.position == g.position,
        walk_step(rows, g).1.direction == clockwise(g.direction),
        walk_step(rows, g).2,
{
}

/// Whether a cell counts as visited.
pub open spec fn visited_at(rows: Seq<Seq<char>>, y: int, x: int) -> nat {
    if rows[y][x] == 'X' {
        1
    } else {
        0
    }
}

/// The number of visited cells.
pub open spec fn visited_count(rows: Seq<Seq<char>>) -> nat {
    grid_sum(rows, |y: int, x: int| visited_at(rows, y, x), rows.len() as int)
}

/// Whether every cell of the grid other than `p` is terrain.
pub open spec fn terrain_except(rows: Seq<Seq<char>>, p: (usize, usize)) -> bool {
    forall|y: int, x: int|
        0 <= y < rows.len() && 0 <= x < rows[y].len() && (y, x) != (p.0 as int, p.1 as int)
            ==> is_terrain(#[trigger] rows[y][x])
}

proof fn lemma_mark_keeps_terrain(rows: Seq<Seq<char>>, p: (usize, usize), q: (usize, usize))
    requires
        terrain_except(rows, p),
        p.0 < rows.len(),
        p.1 < rows[p.0 as int].len(),
    ensures
        (cell_at(rows, q.0 as int, q.1 as int) matches Some(c) ==> is_terrain(c)) ==> terrain_except(
            rows.update(p.0 as int, rows[p.0 as int].update(p.1 as int, 'X')),
            q,
        ),
        terrain_except(rows.update(p.0 as int, rows[p.0 as int].update(p.1 as int, 'X')), p),
{
    let marked = rows.update(p.0 as int, rows[p.0 as int].update(p.1 as int, 'X'));
    assert forall|y: int, x: int|
        0 <= y < marked.len() && 0 <= x < marked[y].len() implies is_terrain(#[trigger] marked[y][x])
            || (y, x) == (p.0 as int, p.1 as int) && !is_terrain(marked[y][x]) by {
        if (y, x) == (q.0 as int, q.1 as int) {
            assert(cell_at(rows, y, x) == Some(rows[y][x]));
        }
    }
}


/// How a patrol ends: the guard leaves the grid, or it comes back to a position
/// and heading it had before and so walks the same circuit forever.
#[derive(Debug, Clone, Copy, PartialEq, Eq, Structural)]
pub enum PatrolOutcome {
    Exited,
    LoopConfirmed,
}

/// The grid, the guard and whether the patrol still goes on after `n` steps.
pub open spec fn patrol_after(rows: Seq<Seq<char>>, g: Guard, n: nat) -> (Seq<Seq<char>>, Guard, bool)
    decreases n,
{
    if n == 0 {
        (rows, g, true)
    } else {
        let before = patrol_after(rows, g, (n - 1) as nat);
        if before.2 {
            walk_step(before.0, before.1)
        } else {
            before
        }
    }
}

/// Whether the guard stands at the same position with the same heading after
/// `n1` and after `n2` steps.
pub open spec fn same_state(rows: Seq<Seq<char>>, g: Guard, n1: nat, n2: nat) -> bool {
    patrol_after(rows, g, n1).1.position == patrol_after(rows, g, n2).1.position
        && patrol_after(rows, g, n1).1.direction == patrol_after(rows, g, n2).1.direction
}


/// Whether two grids have the same shape and the same obstacles.
pub open spec fn same_layout(a: Seq<Seq<char>>, b: Seq<Seq<char>>) -> bool {
    &&& a.len() == b.len()
    &&& forall|y: int| 0 <= y < a.len() ==> (#[trigger] a[y]).len() == b[y].len()
    &&& forall|y: int, x: int| 0 <= y < a.len() && 0 <= x < a[y].len() ==> (#[trigger] a[y][x] == '#') == (b[y][x] == '#')
}

/// Whether the guard does not stand on an obstacle.
pub open spec fn guard_clear(rows: Seq<Seq<char>>, g: Guard) -> bool {
    cell_at(rows, g.position.0 as int, g.position.1 as int) != Some('#')
}

/// Whether the patrol never ends.
pub open spec fn loops(rows: Seq<Seq<char>>, g: Guard) -> bool {
    forall|n: nat| #[trigger] patrol_after(rows, g, n).2
}

proof fn lemma_step_keeps_layout(rows: Seq<Seq<char>>, g: Guard)
    requires
        guard_clear(rows, g),
    ensures
        same_layout(walk_step(rows, g).0, rows),
        guard_clear(walk_step(rows, g).0, walk_step(rows, g).1),
{
    let r = walk_step(rows, g).0;
    let y = g.position.0 as int;
    let x = g.position.1 as int;
    if cell_at(rows, y, x).is_some() {
        assert forall|y2: int, x2: int| 0 <= y2 < r.len() && 0 <= x2 < r[y2].len()
            implies (#[trigger] r[y2][x2] == '#') == (rows[y2][x2] == '#') by {
            if y2 == y && x2 == x && r != rows {
                assert(r[y2][x2] == 'X');
            }
        }
    }
}

/// The moves of the guard depend on its position and heading and on the layout of
/// the grid, not on which floor it has walked.
proof fn lemma_step_follows_layout(r1: Seq<Seq<char>>, r2: Seq<Seq<char>>, g1: Guard, g2: Guard)
    requires
        same_layout(r1, r2),
        g1.position == g2.position,
        g1.direction == g2.direction,
    ensures
        walk_step(r1, g1).1.position == walk_step(r2, g2).1.position,
        walk_step(r1, g1).1.direction == walk_step(r2, g2).1.direction,
        walk_step(r1, g1).2 == walk_step(r2, g2).2,
{
    let y = g1.position.0 as int;
    let x = g1.position.1 as int;
    assert(cell_at(r1, y, x).is_none() == cell_at(r2, y, x).is_none());
    match step_from(g1.position, g1.direction) {
        Some(next) => {
            let (ny, nx) = (next.0 as int, next.1 as int);
            assert(cell_at(r1, ny, nx).is_none() == cell_at(r2, ny, nx).is_none());
            if cell_at(r1, ny, nx).is_some() {
                assert((r1[ny][nx] == '#') == (r2[ny][nx] == '#'));
            }
        },
        None => {},
    }
}

proof fn lemma_layout_along_patrol(rows: Seq<Seq<char>>, g: Guard, n: nat)
    requires
        guard_clear(rows, g),
    ensures
        same_layout(patrol_after(rows, g, n).0, rows),
        guard_clear(patrol_after(rows, g, n).0, patrol_after(rows, g, n).1),
    decreases n,
{
    if n > 0 {
        lemma_layout_along_patrol(rows, g, (n - 1) as nat);
        let before = patrol_after(rows, g, (n - 1) as nat);
        if before.2 {
            lemma_step_keeps_layout(before.0, before.1);
        }
    }
}

proof fn lemma_stops_for_good(rows: Seq<Seq<char>>, g: Guard, k: nat, n: nat)
    requires
        k <= n,
        patrol_after(rows, g, n).2,
    ensures
        patrol_after(rows, g, k).2,
    decreases n,
{
    if k < n {
        lemma_stops_for_good(rows, g, k, (n - 1) as nat);
    }
}

/// Two moments with the same position and heading are followed by the same moves.
proof fn lemma_same_future(rows: Seq<Seq<char>>, g: Guard, n1: nat, n2: nat, m: nat)
    requires
        guard_clear(rows, g),
        same_state(rows, g, n1, n2),
        patrol_after(rows, g, n1).2 == patrol_after(rows, g, n2).2,
    ensures
        same_state(rows, g, n1 + m, n2 + m),
        patrol_after(rows, g, n1 + m).2 == patrol_after(rows, g, n2 + m).2,
    decreases m,
{
    if m > 0 {
        lemma_same_future(rows, g, n1, n2, (m - 1) as nat);
        let a = patrol_after(rows, g, (n1 + m - 1) as nat);
        let b = patrol_after(rows, g, (n2 + m - 1) as nat);
        if a.2 {
            lemma_layout_along_patrol(rows, g, (n1 + m - 1) as nat);
            lemma_layout_along_patrol(rows, g, (n2 + m - 1) as nat);
            assert(same_layout(a.0, b.0));
            lemma_step_follows_layout(a.0, b.0, a.1, b.1);
        }
        assert(patrol_after(rows, g, n1 + m) == if a.2 { walk_step(a.0, a.1) } else { a });
        assert(patrol_after(rows, g, n2 + m) == if b.2 { walk_step(b.0, b.1) } else { b });
    }
}

/// A patrol that comes back to a position and heading it had before, without
/// having ended, never ends.
pub proof fn lemma_repeat_never_ends(rows: Seq<Seq<char>>, g: Guard, n1: nat, n2: nat, n: nat)
    requires
        guard_clear(rows, g),
        n1 < n2,
        patrol_after(rows, g, n2).2,
        same_state(rows, g, n1, n2),
    ensures
        patrol_after(rows, g, n).2,
    decreases n,
{
    if n <= n2 {
        lemma_stops_for_good(rows, g, n, n2);
    } else {
        let m = (n - n2) as nat;
        lemma_stops_for_good(rows, g, n1, n2);
        lemma_same_future(rows, g, n1, n2, m);
        assert(n1 + m < n);
        lemma_repeat_never_ends(rows, g, n1, n2, (n1 + m) as nat);
    }
}

/// The headings not yet recorded over the first `n` cells of a row.
pub open spec fn row_missing(row: Seq<DirectionSet>, n: int) -> nat
    decreases n,
{
    if n <= 0 {
        0
    } else {
        row_missing(row, n - 1) + row[n - 1].missing()
    }
}

/// The headings not yet recorded over the first `m` rows.
pub open spec fn grid_missing(g: Seq<Seq<DirectionSet>>, m: int) -> nat
    decreases m,
{
    if m <= 0 {
        0
    } else {
        grid_missing(g, m - 1) + row_missing(g[m - 1], g[m - 1].len() as int)
    }
}

proof fn lemma_row_missing_update(row: Seq<DirectionSet>, x: int, v: DirectionSet, n: int)
    requires
        0 <= x < row.len(),
        0 <= n <= row.len(),
    ensures
        x < n ==> row_missing(row.update(x, v), n) + row[x].missing() == row_missing(row, n) + v.missing(),
        x >= n ==> row_missing(row.update(x, v), n) == row_missing(row, n),
    decreases n,
{
    if n > 0 {
        lemma_row_missing_update(row, x, v, n - 1);
    }
}

proof fn lemma_grid_missing_update(g: Seq<Seq<DirectionSet>>, y: int, x: int, v: DirectionSet, m: int)
    requires
        0 <= y < g.len(),
        0 <= x < g[y].len(),
        0 <= m <= g.len(),
    ensures
        y < m ==> grid_missing(g.update(y, g[y].update(x, v)), m) + g[y][x].missing() == grid_missing(g, m) + v.missing(),
        y >= m ==> grid_missing(g.update(y, g[y].update(x, v)), m) == grid_missing(g, m),
    decreases m,
{
    if m > 0 {
        lemma_grid_missing_update(g, y, x, v, m - 1);
        if m - 1 == y {
            lemma_row_missing_update(g[y], x, v, g[y].len() as int);
        }
    }
}

/// A step of the patrol never changes the shape of the grid.
proof fn lemma_walk_keeps_shape(rows: Seq<Seq<char>>, g: Guard)
    ensures
        walk_step(rows, g).0.len() == rows.len(),
        forall|y: int| 0 <= y < rows.len() ==> (#[trigger] walk_step(rows, g).0[y]).len() == rows[y].len(),
{
}

/// One empty heading set per cell of the grid.
fn empty_records(map: &Vec<Vec<char>>) -> (r: Vec<Vec<DirectionSet>>)
    ensures
        r@.len() == map@.len(),
        forall|y: int| 0 <= y < map@.len() ==> (#[trigger] r@[y])@.len() == map@[y]@.len(),
        forall|y: int, x: int| 0 <= y < r@.len() && 0 <= x < r@[y]@.len() ==> !(#[trigger] r@[y]@[x]).up
            && !r@[y]@[x].down && !r@[y]@[x].left && !r@[y]@[x].right,
{
    let mut records: Vec<Vec<DirectionSet>> = Vec::new();
    let mut y: usize = 0;
    while y < map.len()
        invariant
            y <= map.len(),
            records@.len() == y,
            forall|y2: int| 0 <= y2 < y ==> (#[trigger] records@[y2])@.len() == map@[y2]@.len(),
            forall|y2: int, x: int| 0 <= y2 < records@.len() && 0 <= x < records@[y2]@.len() ==> !(#[trigger] records@[y2]@[x]).up
                && !records@[y2]@[x].down && !records@[y2]@[x].left && !records@[y2]@[x].right,
        decreases map.len() - y,
    {
        let mut row: Vec<DirectionSet> = Vec::new();
        let mut x: usize = 0;
        while x < map[y].len()
            invariant
                y < map.len(),
                x <= map@[y as int]@.len(),
                row@.len() == x,
                forall|x2: int| 0 <= x2 < x ==> #[trigger] row@[x2] == DirectionSet::spec_empty(),
            decreases map@[y as int]@.len() - x,
        {
            row.push(DirectionSet::empty());
            x += 1;
        }
        records.push(row);
        y += 1;
    }
    records
}

/// One when putting an obstacle on the open floor at `(y, x)`, away from the guard,
/// makes the patrol loop forever.
pub open spec fn obstruction_loops(rows: Seq<Seq<char>>, g: Guard, y: int, x: int) -> nat {
    if rows[y][x] == '.' && (y, x) != (g.position.0 as int, g.position.1 as int) && loops(
        rows.update(y, rows[y].update(x, '#')),
        g,
    ) {
        1
    } else {
        0
    }
}

/// The number of open cells where one new obstacle traps the guard in a loop.
pub open spec fn loop_obstruction_count(rows: Seq<Seq<char>>, g: Guard) -> nat {
    grid_sum(rows, |y: int, x: int| obstruction_loops(rows, g, y, x), rows.len() as int)
}

/// A cell-by-cell copy of a grid.
fn copy_grid(grid: &Vec<Vec<char>>) -> (r: Vec<Vec<char>>)
    ensures
        rows_of(r@) == rows_of(grid@),
{
    let mut copy: Vec<Vec<char>> = Vec::new();
    let mut y: usize = 0;
    while y < grid.len()
        invariant
            y <= grid.len(),
            rows_of(copy@) == rows_of(grid@).take(y as int),
        decreases grid.len() - y,
    {
        let mut row: Vec<char> = Vec::new();
        let mut x: usize = 0;
        while x < grid[y].len()
            invariant
                y < grid.len(),
                x <= grid@[y as int]@.len(),
                row@ == grid@[y as int]@.take(x as int),
            decreases grid@[y as int]@.len() - x,
        {
            row.push(grid[y][x]);
            x += 1;
            assert(row@ =~= grid@[y as int]@.take(x as int));
        }
        assert(row@ =~= grid@[y as int]@);
        let ghost prev = copy@;
        copy.push(row);
        y += 1;
        assert(rows_of(copy@) =~= rows_of(grid@).take(y as int)) by {
            assert(rows_of(copy@) =~= rows_of(prev).push(row@));
        }
    }
    assert(rows_of(copy@) =~= rows_of(grid@));
    copy
}

/// A grid with its patrolling guard.
#[derive(Debug)]
pub struct PatrolMap {
    pub map: Vec<Vec<char>>,
    pub guard: Guard,
}

impl PatrolMap {
    /// Every cell but the guard's own is terrain.
    pub open spec fn wf(&self) -> bool {
        terrain_except(rows_of(self.map@), self.guard.position)
    }

    /// Reads a patrol map, one row per line, with exactly one guard marker
    /// (`^`, `v`, `<` or `>`) among floor `.`, obstacles `#` and walked floor `X`.
    pub fn new(input: &str) -> (r: Result<Self, PatrolError>)
        ensures
            match r {
                Ok(m) => {
                    &&& patrol_error(lines_of(input@)).is_none()
                    &&& rows_of(m.map@) == lines_of(input@)
                    &&& marker_cell(lines_of(input@), m.guard.position.0 as int, m.guard.position.1 as int)
                    &&& m.guard.direction == marker_direction(
                        lines_of(input@)[m.guard.position.0 as int][m.guard.position.1 as int],
                    )
                    &&& m.guard.directions_to_confirm_loop == DirectionSet::spec_full()
                    &&& !m.guard.path_patrolled
                    &&& m.wf()
                },
                Err(e) => patrol_error(lines_of(input@)) == Some(e),
            },
    {
        let map = lines(input);
        let ghost rows = rows_of(map@);
        let width: usize = if map.len() == 0 { 0 } else { map[0].len() };
        let mut y: usize = 0;
        while y < map.len()
            invariant
                rows == lines_of(input@),
                rows == rows_of(map@),
                width == if rows.len() == 0 { 0 } else { rows[0].len() as int },
                y <= map.len(),
                forall|y2: int| 0 <= y2 < y ==> #[trigger] rows[y2].len() == width,
            decreases map.len() - y,
        {
            if map[y].len() != width {
                assert(rows[y as int].len() != width);
                return Err(PatrolError::UnevenRows);
            }
            y += 1;
        }
        let mut found: Option<(usize, usize)> = None;
        let mut several = false;
        let mut y: usize = 0;
        while y < map.len()
            invariant
                rows == lines_of(input@),
                rows == rows_of(map@),
                width == if rows.len() == 0 { 0 } else { rows[0].len() as int },
                is_rectangular(rows, width as int),
                y <= map.len(),
                forall|y2: int, x2: int| 0 <= y2 < y && 0 <= x2 < rows[y2].len()
                    ==> is_terrain(#[trigger] rows[y2][x2]) || is_marker(rows[y2][x2]),
                match found {
                    None => forall|y2: int, x2: int| 0 <= y2 < y ==> !#[trigger] marker_cell(rows, y2, x2),
                    Some(p) => p.0 < y && marker_cell(rows, p.0 as int, p.1 as int)
                        && (!several ==> forall|y2: int, x2: int| 0 <= y2 < y && #[trigger] marker_cell(rows, y2, x2)
                            ==> y2 == p.0 && x2 == p.1),
                },
                several ==> has_several_markers(rows),
            decreases map.len() - y,
        {
            let mut x: usize = 0;
            while x < map[y].len()
                invariant
                    rows == lines_of(input@),
                    rows == rows_of(map@),
                    width == if rows.len() == 0 { 0 } else { rows[0].len() as int },
                    is_rectangular(rows, width as int),
                    y < map.len(),
                    x <= rows[y as int].len(),
                    forall|y2: int, x2: int| 0 <= y2 < y && 0 <= x2 < rows[y2].len()
                        ==> is_terrain(#[trigger] rows[y2][x2]) || is_marker(rows[y2][x2]),
                    forall|x2: int| 0 <= x2 < x ==> is_terrain(#[trigger] rows[y as int][x2]) || is_marker(rows[y as int][x2]),
                    match found {
                        None => forall|y2: int, x2: int| (0 <= y2 < y || (y2 == y && x2 < x)) ==> !#[trigger] marker_cell(rows, y2, x2),
                        Some(p) => (p.0 < y || (p.0 == y && p.1 < x)) && marker_cell(rows, p.0 as int, p.1 as int)
                            && (!several ==> forall|y2: int, x2: int| (0 <= y2 < y || (y2 == y && x2 < x)) && #[trigger] marker_cell(rows, y2, x2)
                                ==> y2 == p.0 && x2 == p.1),
                    },
                    several ==> has_several_markers(rows),
                decreases rows[y as int].len() - x,
            {
                let c = map[y][x];
                if c == '^' || c == 'v' || c == '<' || c == '>' {
                    match found {
                        Some(p) => {
                            assert(marker_cell(rows, y as int, x as int));
                            assert(marker_cell(rows, p.0 as int, p.1 as int));
                            several = true;
                        },
                        None => {
                            found = Some((y, x));
                        },
                    }
                } else if !(c == '.' || c == '#' || c == 'X') {
                    assert(!is_terrain(rows[y as int][x as int]) && !is_marker(rows[y as int][x as int]));
                    return Err(PatrolError::UnknownSymbol);
                }
                x += 1;
            }
            y += 1;
        }
        if several {
            return Err(PatrolError::SeveralGuards);
        }
        match found {
            None => {
                assert(!has_unknown_symbol(rows));
                assert(!has_marker(rows));
                assert(!has_several_markers(rows));
                Err(PatrolError::MissingGuard)
            },
            Some(p) => {
                assert(!has_unknown_symbol(rows));
                assert(!has_several_markers(rows)) by {
                    assert forall|y1: int, x1: int, y2: int, x2: int|
                        #[trigger] marker_cell(rows, y1, x1) && #[trigger] marker_cell(rows, y2, x2)
                        implies (y1, x1) == (y2, x2) by {
                        assert(y1 == p.0 && x1 == p.1);
                        assert(y2 == p.0 && x2 == p.1);
                    }
                }
                let guard = Guard::new(&map[p.0][p.1], p);
                let m = PatrolMap { map, guard };
                assert(m.wf()) by {
                    assert forall|y2: int, x2: int|
                        0 <= y2 < rows.len() && 0 <= x2 < rows[y2].len() && (y2, x2) != (
                            m.guard.position.0 as int,
                            m.guard.position.1 as int,
                        ) implies is_terrain(#[trigger] rows[y2][x2]) by {
                        if is_marker(rows[y2][x2]) {
                            assert(marker_cell(rows, y2, x2));
                        }
                    }
                }
                Ok(m)
            },
        }
    }

    /// Whether the guard stands outside the grid.
    pub fn out_of_map(&self) -> (r: bool)
        ensures
            r == cell_at(rows_of(self.map@), self.guard.position.0 as int, self.guard.position.1 as int).is_none(),
    {
        get(&self.map, self.guard.position.0, self.guard.position.1).is_none()
    }

    /// Rewrites the guard's own cell as walked floor.
    fn mark_guard_cell(&mut self)
        requires
            old(self).guard.position.0 < old(self).map@.len(),
            old(self).guard.position.1 < old(self).map@[old(self).guard.position.0 as int]@.len(),
        ensures
            final(self).guard == old(self).guard,
            rows_of(final(self).map@) == rows_of(old(self).map@).update(
                old(self).guard.position.0 as int,
                rows_of(old(self).map@)[old(self).guard.position.0 as int].update(
                    old(self).guard.position.1 as int,
                    'X',
                ),
            ),
    {
        let (y, x) = self.guard.position;
        crate::grid::set_cell(&mut self.map, y, x, 'X');
    }

    /// Takes one step of the patrol (see `walk_step`) and says whether the patrol
    /// goes on.
    pub fn walk(&mut self) -> (r: bool)
        requires
            old(self).wf(),
        ensures
            (rows_of(final(self).map@), final(self).guard, r) == walk_step(rows_of(old(self).map@), old(self).guard),
            final(self).wf(),
    {
        let ghost rows = rows_of(self.map@);
        if self.out_of_map() {
            return false;
        }
        match self.guard.next_position() {
            None => {
                proof { lemma_mark_keeps_terrain(rows, self.guard.position, self.guard.position); }
                self.mark_guard_cell();
                false
            },
            Some(next) => match get(&self.map, next.0, next.1) {
                None => {
                    proof { lemma_mark_keeps_terrain(rows, self.guard.position, next); }
                    self.mark_guard_cell();
                    self.guard.position = next;
                    true
                },
                Some(c) => {
                    if c == '#' {
                        if self.guard.path_patrolled {
                            let d = self.guard.direction;
                            self.guard.directions_to_confirm_loop.remove(d);
                        } else {
                            self.guard.directions_to_confirm_loop = DirectionSet::full();
                        }
                        self.guard.turn();
                    } else {
                        proof { lemma_mark_keeps_terrain(rows, self.guard.position, next); }
                        self.mark_guard_cell();
                        self.guard.position = next;
                        self.guard.path_patrolled = c == 'X';
                    }
                    true
                },
            },
        }
    }

    /// The number of cells the guard has walked, marked `'X'`.
    pub fn count_patrol_spots(&self) -> (r: u32)
        requires
            visited_count(rows_of(self.map@)) <= u32::MAX,
        ensures
            r == visited_count(rows_of(self.map@)),
    {
        let ghost g = rows_of(self.map@);
        let ghost f = |y: int, x: int| visited_at(g, y, x);
        let mut total: u32 = 0;
        let mut y: usize = 0;
        while y < self.map.len()
            invariant
                g == rows_of(self.map@),
                f == (|y: int, x: int| visited_at(g, y, x)),
                grid_sum(g, f, g.len() as int) <= u32::MAX,
                y <= self.map.len(),
                total == grid_sum(g, f, y as int),
            decreases self.map.len() - y,
        {
            let row = &self.map[y];
            let mut x: usize = 0;
            while x < row.len()
                invariant
                    g == rows_of(self.map@),
                    f == (|y: int, x: int| visited_at(g, y, x)),
                    grid_sum(g, f, g.len() as int) <= u32::MAX,
                    y < self.map.len(),
                    row@ == g[y as int],
                    x <= row.len(),
                    total == grid_sum(g, f, y as int) + row_sum(g, f, y as int, x as int),
                decreases row.len() - x,
            {
                proof {
                    lemma_row_sum_mono(g, f, y as int, x + 1, g[y as int].len() as int);
                    lemma_grid_sum_mono(g, f, y + 1, g.len() as int);
                }
                if row[x] == 'X' {
                    total += 1;
                }
                x += 1;
            }
            y += 1;
        }
        total
    }

    /// Walks the patrol until the guard leaves the grid or stands where it stood
    /// before, facing the way it faced then. The walk depends only on position,
    /// heading and obstacles, so such a repeat means the patrol loops forever.
    pub fn patrol_outcome(&mut self) -> (r: PatrolOutcome)
        requires
            old(self).wf(),
            guard_clear(rows_of(old(self).map@), old(self).guard),
        ensures
            r == PatrolOutcome::LoopConfirmed <==> loops(rows_of(old(self).map@), old(self).guard),
            r == PatrolOutcome::Exited ==> exists|n: nat| !(#[trigger] patrol_after(rows_of(old(self).map@), old(self).guard, n)).2,
            r == PatrolOutcome::LoopConfirmed ==> exists|n1: nat, n2: nat| n1 < n2
                && (#[trigger] patrol_after(rows_of(old(self).map@), old(self).guard, n2)).2
                && #[trigger] same_state(rows_of(old(self).map@), old(self).guard, n1, n2),
    {
        let ghost rows0 = rows_of(self.map@);
        let ghost g0 = self.guard;
        let mut records = empty_records(&self.map);
        let ghost mut n: nat = 0;
        proof {
            assert forall|y: int, x: int, d: GuardDirection|
                0 <= y < rows_of(records@).len() && 0 <= x < rows_of(records@)[y].len()
                    implies !#[trigger] rows_of(records@)[y][x].has(d) by {
                assert(rows_of(records@)[y][x] == records@[y]@[x]);
            }
        }
        loop
            invariant
                rows0 == rows_of(old(self).map@),
                g0 == old(self).guard,
                guard_clear(rows0, g0),
                self.wf(),
                (rows_of(self.map@), self.guard, true) == patrol_after(rows0, g0, n),
                rows_of(records@).len() == rows_of(self.map@).len(),
                forall|y: int| 0 <= y < rows_of(records@).len() ==> (#[trigger] rows_of(records@)[y]).len() == rows_of(self.map@)[y].len(),
                forall|y: int, x: int, d: GuardDirection|
                    0 <= y < rows_of(records@).len() && 0 <= x < rows_of(records@)[y].len() && #[trigger] rows_of(records@)[y][x].has(d)
                        ==> exists|k: nat| k < n && #[trigger] patrol_after(rows0, g0, k).1.position == (y as usize, x as usize)
                            && patrol_after(rows0, g0, k).1.direction == d,
            decreases grid_missing(rows_of(records@), rows_of(records@).len() as int),
        {
            let ghost here = patrol_after(rows0, g0, n);
            if self.out_of_map() {
                assert(!patrol_after(rows0, g0, n + 1).2);
                return PatrolOutcome::Exited;
            }
            let (y, x) = self.guard.position;
            let d = self.guard.direction;
            assert(rows_of(records@)[y as int] == records@[y as int]@);
            let mut cell = records[y][x];
            if cell.contains(d) {
                proof {
                    let k = choose|k: nat| k < n && #[trigger] patrol_after(rows0, g0, k).1.position == (y, x)
                        && patrol_after(rows0, g0, k).1.direction == d;
                    assert(same_state(rows0, g0, k, n));
                    assert forall|m: nat| #[trigger] patrol_after(rows0, g0, m).2 by {
                        lemma_repeat_never_ends(rows0, g0, k, n, m);
                    }
                }
                return PatrolOutcome::LoopConfirmed;
            }
            let ghost before = rows_of(records@);
            let ghost old_cell = cell;
            cell.insert(d);
            assert(cell.missing() + 1 == old_cell.missing());
            assert(before[y as int][x as int] == old_cell);
            crate::grid::set_cell(&mut records, y, x, cell);
            proof {
                lemma_grid_missing_update(before, y as int, x as int, cell, before.len() as int);
            }
            let ghost rows_before = rows_of(self.map@);
            let ghost n_before = n;
            proof {
                assert(rows_of(records@) == before.update(y as int, before[y as int].update(x as int, cell)));
                assert(grid_missing(before.update(y as int, before[y as int].update(x as int, cell)), before.len() as int)
                    + old_cell.missing() == grid_missing(before, before.len() as int) + cell.missing());
                assert(grid_missing(rows_of(records@), rows_of(records@).len() as int) + 1 == grid_missing(before, before.len() as int));
            }
            let going = self.walk();
            proof {
                lemma_walk_keeps_shape(rows_before, here.1);
                assert(rows_of(self.map@) == walk_step(rows_before, here.1).0);
                n = n + 1;
                assert forall|y2: int, x2: int, d2: GuardDirection|
                    0 <= y2 < rows_of(records@).len() && 0 <= x2 < rows_of(records@)[y2].len()
                        && #[trigger] rows_of(records@)[y2][x2].has(d2)
                    implies exists|k: nat| k < n && #[trigger] patrol_after(rows0, g0, k).1.position == (y2 as usize, x2 as usize)
                        && patrol_after(rows0, g0, k).1.direction == d2 by {
                    if y2 == y && x2 == x && d2 == d {
                        assert(patrol_after(rows0, g0, n_before).1.position == (y2 as usize, x2 as usize));
                    } else {
                        assert(before[y2][x2].has(d2));
                        let k = choose|k: nat| k < n_before && #[trigger] patrol_after(rows0, g0, k).1.position == (y2 as usize, x2 as usize)
                            && patrol_after(rows0, g0, k).1.direction == d2;
                        assert(k < n);
                    }
                }
            }
            if !going {
                assert(!patrol_after(rows0, g0, n).2);
                return PatrolOutcome::Exited;
            }
        }
    }

    /// Counts the open cells where a single new obstacle would trap the guard in an
    /// endless patrol; each cell is tried on a fresh copy of the grid.
    pub fn count_loop_obstructions(&self) -> (r: u32)
        requires
            self.wf(),
            guard_clear(rows_of(self.map@), self.guard),
            loop_obstruction_count(rows_of(self.map@), self.guard) <= u32::MAX,
        ensures
            r == loop_obstruction_count(rows_of(self.map@), self.guard),
    {
        let ghost g = rows_of(self.map@);
        let ghost f = |y: int, x: int| obstruction_loops(g, self.guard, y, x);
        let mut total: u32 = 0;
        let mut y: usize = 0;
        while y < self.map.len()
            invariant
                g == rows_of(self.map@),
                f == (|y: int, x: int| obstruction_loops(g, self.guard, y, x)),
                self.wf(),
                guard_clear(g, self.guard),
                grid_sum(g, f, g.len() as int) <= u32::MAX,
                y <= self.map.len(),
                total == grid_sum(g, f, y as int),
            decreases self.map.len() - y,
        {
            let mut x: usize = 0;
            while x < self.map[y].len()
                invariant
                    g == rows_of(self.map@),
                    f == (|y: int, x: int| obstruction_loops(g, self.guard, y, x)),
                    self.wf(),
                    guard_clear(g, self.guard),
                    grid_sum(g, f, g.len() as int) <= u32::MAX,
                    y < self.map.len(),
                    x <= g[y as int].len(),
                    total == grid_sum(g, f, y as int) + row_sum(g, f, y as int, x as int),
                decreases g[y as int].len() - x,
            {
                proof {
                    lemma_row_sum_mono(g, f, y as int, x + 1, g[y as int].len() as int);
                    lemma_grid_sum_mono(g, f, y + 1, g.len() as int);
                }
                assert(g[y as int][x as int] == self.map@[y as int]@[x as int]);
                if self.map[y][x] == '.' && (y != self.guard.position.0 || x != self.guard.position.1) {
                    let mut map = copy_grid(&self.map);
                    crate::grid::set_cell(&mut map, y, x, '#');
                    let mut trial = PatrolMap { map, guard: self.guard };
                    assert(rows_of(trial.map@) == g.update(y as int, g[y as int].update(x as int, '#')));
                    assert(trial.wf()) by {
                        let t = rows_of(trial.map@);
                        assert forall|y2: int, x2: int|
                            0 <= y2 < t.len() && 0 <= x2 < t[y2].len() && (y2, x2) != (
                                trial.guard.position.0 as int,
                                trial.guard.position.1 as int,
                            ) implies is_terrain(#[trigger] t[y2][x2]) by {
                            if y2 != y || x2 != x {
                                assert(t[y2][x2] == g[y2][x2]);
                            }
                        }
                    }
                    assert(guard_clear(rows_of(trial.map@), trial.guard)) by {
                        let p = self.guard.position;
                        if cell_at(g, p.0 as int, p.1 as int).is_some() {
                            assert(rows_of(trial.map@)[p.0 as int][p.1 as int] == g[p.0 as int][p.1 as int]);
                        }
                    }
                    if trial.patrol_outcome() == PatrolOutcome::LoopConfirmed {
                        total += 1;
                    }
                }
                x += 1;
            }
            y += 1;
        }
        total
    }
}

} // verus!
