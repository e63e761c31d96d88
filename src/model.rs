//! The two searches stated as one state machine over a distance table and a
//! frontier, and the results that the machine defines.

use vstd::prelude::*;
use crate::grid::{Pos, in_bounds, is_open, is_rectangular, manhattan};

verus! {

/// A snapshot of a search: the distance table (`-1` for a cell not yet
/// reached), the frontier, the number of cells taken out of the frontier so
/// far, and whether the goal has been taken out.
pub struct SearchState {
    pub dist: Seq<Seq<i32>>,
    pub frontier: Seq<Pos>,
    pub visited: nat,
    pub done: bool,
}

pub open spec fn dist_at(d: Seq<Seq<i32>>, p: Pos) -> int {
    d[p.0 as int][p.1 as int] as int
}

pub open spec fn set_dist(d: Seq<Seq<i32>>, p: Pos, v: i32) -> Seq<Seq<i32>> {
    d.update(p.0 as int, d[p.0 as int].update(p.1 as int, v))
}

/// The table has one entry for each cell of the grid.
pub open spec fn table_fits(g: Seq<Seq<char>>, d: Seq<Seq<i32>>) -> bool {
    &&& d.len() == g.len()
    &&& forall|r: int| 0 <= r < g.len() ==> #[trigger] d[r].len() == g[r].len()
}

/// The four moves, in the order in which a search tries them: down, up,
/// right, left.
pub open spec fn neighbor(p: Pos, k: int) -> Pos {
    if k == 0 {
        ((p.0 + 1) as i32, p.1)
    } else if k == 1 {
        ((p.0 - 1) as i32, p.1)
    } else if k == 2 {
        (p.0, (p.1 + 1) as i32)
    } else {
        (p.0, (p.1 - 1) as i32)
    }
}

/// A neighbour is taken when it is open and not yet reached.
pub open spec fn can_enter(g: Seq<Seq<char>>, d: Seq<Seq<i32>>, nb: Pos) -> bool {
    is_open(g, nb) && dist_at(d, nb) == -1
}

/// Reaching `nb` at cost `c`: record the cost and add it to the frontier.
pub open spec fn relax(g: Seq<Seq<char>>, s: SearchState, nb: Pos, c: i32) -> SearchState {
    if can_enter(g, s.dist, nb) {
        SearchState { dist: set_dist(s.dist, nb, c), frontier: s.frontier.push(nb), ..s }
    } else {
        s
    }
}

/// A* also takes a cheaper route to a cell already reached: it lowers the
/// recorded cost, and the cell, still in the frontier, moves up in it.
pub open spec fn relax_lower(g: Seq<Seq<char>>, s: SearchState, nb: Pos, c: i32) -> SearchState {
    if is_open(g, nb) && dist_at(s.dist, nb) >= 0 && c < dist_at(s.dist, nb) {
        SearchState { dist: set_dist(s.dist, nb, c), ..s }
    } else {
        relax(g, s, nb, c)
    }
}

pub open spec fn relax_by(g: Seq<Seq<char>>, s: SearchState, nb: Pos, c: i32, a_star: bool) -> SearchState {
    if a_star { relax_lower(g, s, nb, c) } else { relax(g, s, nb, c) }
}

/// Trying the four moves out of `p` in order, each at cost `c`.
pub open spec fn expand(g: Seq<Seq<char>>, s: SearchState, p: Pos, c: i32, a_star: bool) -> SearchState {
    let s1 = relax_by(g, s, neighbor(p, 0), c, a_star);
    let s2 = relax_by(g, s1, neighbor(p, 1), c, a_star);
    let s3 = relax_by(g, s2, neighbor(p, 2), c, a_star);
    relax_by(g, s3, neighbor(p, 3), c, a_star)
}

/// The A* priority of a frontier cell: its cost so far plus its Manhattan
/// distance to the goal.
pub open spec fn priority(d: Seq<Seq<i32>>, goal: Pos, p: Pos) -> int {
    dist_at(d, p) + manhattan(p, goal)
}

/// `a` is taken before `b` by A*: lower priority first, and among equal
/// priorities the greater `(row, column)` first.
pub open spec fn preferred(d: Seq<Seq<i32>>, goal: Pos, a: Pos, b: Pos) -> bool {
    let pa = priority(d, goal, a);
    let pb = priority(d, goal, b);
    pa < pb || (pa == pb && (a.0 > b.0 || (a.0 == b.0 && a.1 > b.1)))
}

/// Index of the cell that A* takes out among the first `n` of the frontier:
/// a later cell replaces the one chosen so far only when it is preferred.
pub open spec fn best_index(d: Seq<Seq<i32>>, goal: Pos, f: Seq<Pos>, n: nat) -> int
    decreases n,
{
    if n <= 1 {
        0
    } else {
        let b = best_index(d, goal, f, (n - 1) as nat);
        if preferred(d, goal, f[n - 1], f[b]) { n - 1 } else { b }
    }
}

/// The frontier index taken next: the front of the queue for breadth-first
/// search, the preferred cell for A*.
pub open spec fn select(s: SearchState, goal: Pos, a_star: bool) -> int {
    if a_star { best_index(s.dist, goal, s.frontier, s.frontier.len()) } else { 0 }
}

/// One round of a search: take a cell out of the frontier and count it; stop
/// if it is the goal, else try its four moves at one more than its cost.
pub open spec fn step(g: Seq<Seq<char>>, goal: Pos, a_star: bool, s: SearchState) -> SearchState {
    let i = select(s, goal, a_star);
    let p = s.frontier[i];
    let taken = SearchState { frontier: s.frontier.remove(i), visited: s.visited + 1, ..s };
    if p == goal {
        SearchState { done: true, ..taken }
    } else {
        expand(g, taken, p, (dist_at(s.dist, p) + 1) as i32, a_star)
    }
}

pub open spec fn finished(s: SearchState) -> bool {
    s.done || s.frontier.len() == 0
}

/// The state after `n` rounds, or at the round where the search stopped.
pub open spec fn run(g: Seq<Seq<char>>, goal: Pos, a_star: bool, s: SearchState, n: nat) -> SearchState
    decreases n,
{
    if n == 0 {
        s
    } else {
        let t = run(g, goal, a_star, s, (n - 1) as nat);
        if finished(t) { t } else { step(g, goal, a_star, t) }
    }
}

pub open spec fn unreached_table(g: Seq<Seq<char>>) -> Seq<Seq<i32>> {
    Seq::new(g.len(), |r: int| Seq::new(g[r].len(), |c: int| -1i32))
}

/// The start state: only `start` reached, at cost 0, and in the frontier.
pub open spec fn initial(g: Seq<Seq<char>>, start: Pos) -> SearchState {
    SearchState { dist: set_dist(unreached_table(g), start, 0), frontier: seq![start], visited: 0, done: false }
}

pub open spec fn cell_count(g: Seq<Seq<char>>) -> nat {
    (g.len() * g[0].len()) as nat
}

/// The result of a search: the cost recorded for the goal and the number of
/// cells taken out of the frontier. Every search stops within one round per
/// cell of the grid.
pub open spec fn outcome(g: Seq<Seq<char>>, start: Pos, goal: Pos, a_star: bool) -> (int, nat) {
    let f = run(g, goal, a_star, initial(g, start), cell_count(g));
    (dist_at(f.dist, goal), f.visited)
}

/// The result of breadth-first search.
pub open spec fn bfs_outcome(g: Seq<Seq<char>>, start: Pos, goal: Pos) -> (int, nat) {
    outcome(g, start, goal, false)
}

/// The result of A* search.
pub open spec fn a_star_outcome(g: Seq<Seq<char>>, start: Pos, goal: Pos) -> (int, nat) {
    outcome(g, start, goal, true)
}

/// What both searches ask of their inputs: a rectangular grid of the given
/// size, small enough that costs and counts fit in `i32`, and start and goal
/// inside it.
pub open spec fn search_inputs(g: Seq<Seq<char>>, h: i32, w: i32, start: Pos, goal: Pos) -> bool {
    &&& is_rectangular(g)
    &&& h == g.len()
    &&& w == g[0].len()
    &&& h * w <= i32::MAX
    &&& in_bounds(g, start)
    &&& in_bounds(g, goal)
}

} // verus!
