//! The maze model: cells, walls, moves and walks, and marker lookup.

use vstd::prelude::*;

verus! {

/// A cell of the maze as `(row, column)`.
pub type Pos = (i32, i32);

/// The character that marks a wall.
pub const WALL: char = '#';

/// All rows are non-empty and of one length.
pub open spec fn is_rectangular(g: Seq<Seq<char>>) -> bool {
    &&& g.len() > 0
    &&& g[0].len() > 0
    &&& forall|r: int| 0 <= r < g.len() ==> #[trigger] g[r].len() == g[0].len()
}

pub open spec fn in_bounds(g: Seq<Seq<char>>, p: Pos) -> bool {
    0 <= p.0 < g.len() && 0 <= p.1 < g[p.0 as int].len()
}

pub open spec fn cell(g: Seq<Seq<char>>, p: Pos) -> char {
    g[p.0 as int][p.1 as int]
}

/// A cell that a move may enter: inside the grid and not a wall.
pub open spec fn is_open(g: Seq<Seq<char>>, p: Pos) -> bool {
    in_bounds(g, p) && cell(g, p) != WALL
}

pub open spec fn abs_diff(a: int, b: int) -> int {
    if a >= b { a - b } else { b - a }
}

pub open spec fn manhattan(a: Pos, b: Pos) -> int {
    abs_diff(a.0 as int, b.0 as int) + abs_diff(a.1 as int, b.1 as int)
}

/// A single axis-aligned unit move.
pub open spec fn adjacent(a: Pos, b: Pos) -> bool {
    manhattan(a, b) == 1
}

/// A sequence of cells in which each cell after the first is open and one
/// move away from the one before it.
pub open spec fn is_walk(g: Seq<Seq<char>>, w: Seq<Pos>) -> bool {
    &&& w.len() >= 1
    &&& forall|i: int| 1 <= i < w.len() ==> #[trigger] is_open(g, w[i]) && adjacent(w[i - 1], w[i])
}

/// `t` can be reached from `s` in exactly `k` moves.
pub open spec fn reachable_in(g: Seq<Seq<char>>, s: Pos, t: Pos, k: nat) -> bool {
    exists|w: Seq<Pos>|
        #![trigger is_walk(g, w), w.len()]
        is_walk(g, w) && w.len() == k + 1 && w[0] == s && w.last() == t
}

/// `t` can be reached from `s` at all.
pub open spec fn reachable(g: Seq<Seq<char>>, s: Pos, t: Pos) -> bool {
    exists|k: nat| reachable_in(g, s, t, k)
}

/// `k` is the least number of moves from `s` to `t`.
pub open spec fn is_shortest(g: Seq<Seq<char>>, s: Pos, t: Pos, k: nat) -> bool {
    &&& reachable_in(g, s, t, k)
    &&& forall|j: nat| j < k ==> !reachable_in(g, s, t, j)
}

/// What a search owes as its cost: the least number of moves when the goal
/// is reachable, and `-1` when it is not.
pub open spec fn is_shortest_cost(g: Seq<Seq<char>>, s: Pos, t: Pos, cost: int) -> bool {
    &&& cost >= -1
    &&& cost == -1 <==> !reachable(g, s, t)
    &&& cost >= 0 ==> is_shortest(g, s, t, cost as nat)
}

/// `target` occurs in row `r` before column `c`.
pub open spec fn occurs_in_row_before(row: Seq<char>, target: char, c: int) -> bool {
    exists|j: int| 0 <= j < c && j < row.len() && row[j] == target
}

/// `target` occurs in a row before row `r`.
pub open spec fn occurs_before_row(g: Seq<Seq<char>>, target: char, r: int) -> bool {
    exists|i: int| 0 <= i < r && i < g.len() && occurs_in_row_before(#[trigger] g[i], target, g[i].len() as int)
}

/// `p` is the first cell holding `target` when rows are read top to bottom
/// and each row left to right.
pub open spec fn is_first_occurrence(g: Seq<Seq<char>>, target: char, p: Pos) -> bool {
    &&& in_bounds(g, p)
    &&& cell(g, p) == target
    &&& !occurs_before_row(g, target, p.0 as int)
    &&& !occurs_in_row_before(g[p.0 as int], target, p.1 as int)
}

/// Manhattan distance between two cells: the remaining-cost estimate of A*.
pub fn heuristic_cost(p1: &Pos, p2: &Pos) -> (r: i32)
    requires
        manhattan(*p1, *p2) <= i32::MAX,
    ensures
        r == manhattan(*p1, *p2),
{
    let dr: i32 = if p1.0 >= p2.0 { p1.0 - p2.0 } else { p2.0 - p1.0 };
    let dc: i32 = if p1.1 >= p2.1 { p1.1 - p2.1 } else { p2.1 - p1.1 };
    dr + dc
}

/// The first cell, row by row and left to right, that holds `target`.
pub fn find_position(maze: &Vec<Vec<char>>, target: &char) -> (r: Option<Pos>)
    requires
        maze@.len() <= i32::MAX,
        forall|i: int| 0 <= i < maze@.len() ==> #[trigger] maze@[i]@.len() <= i32::MAX,
    ensures
        match r {
            Some(p) => is_first_occurrence(maze.deep_view(), *target, p),
            None => !occurs_before_row(maze.deep_view(), *target, maze@.len() as int),
        },
{
    let ghost g = maze.deep_view();
    let mut h: usize = 0;
    while h < maze.len()
        invariant
            g == maze.deep_view(),
            h <= maze@.len(),
            maze@.len() <= i32::MAX,
            forall|i: int| 0 <= i < maze@.len() ==> #[trigger] maze@[i]@.len() <= i32::MAX,
            !occurs_before_row(g, *target, h as int),
        decreases maze@.len() - h,
    {
        let line = &maze[h];
        assert(g[h as int] == line@);
        let mut w: usize = 0;
        while w < line.len()
            invariant
                g == maze.deep_view(),
                h < maze@.len(),
                line == maze@[h as int],
                g[h as int] == line@,
                w <= line@.len(),
                maze@.len() <= i32::MAX,
                line@.len() <= i32::MAX,
                !occurs_before_row(g, *target, h as int),
                !occurs_in_row_before(g[h as int], *target, w as int),
            decreases line@.len() - w,
        {
            if line[w] == *target {
                return Some((h as i32, w as i32));
            }
            w += 1;
        }
        assert(!occurs_before_row(g, *target, h + 1)) by {
            if occurs_before_row(g, *target, h + 1) {
                let i = choose|i: int| 0 <= i < h + 1 && i < g.len() && occurs_in_row_before(#[trigger] g[i], *target, g[i].len() as int);
                assert(i != h);
            }
        }
        h += 1;
    }
    None
}

} // verus!
