//! The executable searches: loops that follow the search machine round by
//! round.

use vstd::prelude::*;
use std::collections::VecDeque;
use crate::grid::{
    Pos, WALL, heuristic_cost, in_bounds, is_rectangular, is_shortest_cost, reachable, reachable_in,
};
use crate::model::{
    relax_by,
    SearchState, set_dist, table_fits, relax, priority, best_index, select, step, run,
    unreached_table, initial, cell_count, outcome, bfs_outcome, a_star_outcome, search_inputs,
};
use crate::search_facts::{
    lemma_in_bounds_range, lemma_outcome, lemma_run_counts, lemma_run_inv, lemma_run_stays, lemma_start_is_goal, reached,
    search_grid,
};

verus! {

/// A table with one `-1` entry for each cell of the maze.
fn unreached_dist_table(maze: &Vec<Vec<char>>) -> (d: Vec<Vec<i32>>)
    ensures
        d.deep_view() == unreached_table(maze.deep_view()),
{
    let ghost g = maze.deep_view();
    let mut d: Vec<Vec<i32>> = Vec::new();
    let mut r: usize = 0;
    while r < maze.len()
        invariant
            g == maze.deep_view(),
            r <= maze@.len(),
            d.deep_view() =~= unreached_table(g).subrange(0, r as int),
        decreases maze@.len() - r,
    {
        let n = maze[r].len();
        let mut row: Vec<i32> = Vec::new();
        let mut c: usize = 0;
        while c < n
            invariant
                c <= n,
                row@ =~= Seq::new(c as nat, |j: int| -1i32),
            decreases n - c,
        {
            row.push(-1);
            c += 1;
        }
        assert(g[r as int].len() == n);
        assert(row.deep_view() =~= row@);
        let ghost before = d.deep_view();
        d.push(row);
        assert(d.deep_view() =~= before.push(row@));
        assert(unreached_table(g).subrange(0, r + 1) =~= unreached_table(g).subrange(0, r as int).push(row@));
        r += 1;
    }
    d
}

/// Reaches the cell `nb` at cost `c` if it is open and not yet reached; for
/// A*, also lowers its recorded cost to `c` when that is cheaper.
fn relax_cell(
    maze: &Vec<Vec<char>>,
    h: i32,
    w: i32,
    dist: &mut Vec<Vec<i32>>,
    frontier: &mut VecDeque<Pos>,
    nb: Pos,
    c: i32,
    a_star: bool,
)
    requires
        is_rectangular(maze.deep_view()),
        h == maze@.len(),
        w == maze@[0]@.len(),
        table_fits(maze.deep_view(), old(dist).deep_view()),
    ensures
        ({
            let g = maze.deep_view();
            let s = SearchState { dist: old(dist).deep_view(), frontier: old(frontier)@, visited: 0, done: false };
            let t = relax_by(g, s, nb, c, a_star);
            final(dist).deep_view() == t.dist && final(frontier)@ == t.frontier
        }),
{
    let ghost g = maze.deep_view();
    if 0 <= nb.0 && nb.0 < h && 0 <= nb.1 && nb.1 < w {
        let r = nb.0 as usize;
        let col = nb.1 as usize;
        assert(g[r as int].len() == g[0].len());
        assert(maze@[r as int]@ == g[r as int]);
        assert(dist@[r as int]@ == dist.deep_view()[r as int]);
        if maze[r][col] != WALL {
            let known = dist[r][col];
            if known == -1 {
                set_cell(maze, dist, nb, c);
                frontier.push_back(nb);
            } else if a_star && 0 <= known && c < known {
                set_cell(maze, dist, nb, c);
            }
        }
    } else {
        assert(!in_bounds(g, nb)) by {
            if 0 <= nb.0 < g.len() {
                assert(g[nb.0 as int].len() == g[0].len());
            }
        }
    }
}

/// Index of the frontier cell that A* takes next.
fn best_in_frontier(maze: &Vec<Vec<char>>, dist: &Vec<Vec<i32>>, frontier: &VecDeque<Pos>, goal: Pos) -> (i: usize)
    requires
        search_grid(maze.deep_view(), goal),
        table_fits(maze.deep_view(), dist.deep_view()),
        frontier@.len() >= 1,
        forall|j: int| 0 <= j < frontier@.len() ==> in_bounds(maze.deep_view(), #[trigger] frontier@[j]),
    ensures
        i == best_index(dist.deep_view(), goal, frontier@, frontier@.len()),
        i < frontier@.len(),
{
    let ghost g = maze.deep_view();
    let ghost d = dist.deep_view();
    let mut best: usize = 0;
    let mut best_key: i64 = priority_of(maze, dist, frontier[0], goal);
    let mut j: usize = 1;
    while j < frontier.len()
        invariant
            g == maze.deep_view(),
            d == dist.deep_view(),
            search_grid(g, goal),
            table_fits(g, d),
            1 <= j <= frontier@.len(),
            forall|k: int| 0 <= k < frontier@.len() ==> in_bounds(g, #[trigger] frontier@[k]),
            best == best_index(d, goal, frontier@, j as nat),
            best < j,
            best_key == priority(d, goal, frontier@[best as int]),
        decreases frontier@.len() - j,
    {
        let q = frontier[j];
        let b = frontier[best];
        let key = priority_of(maze, dist, q, goal);
        if key < best_key || (key == best_key && (q.0 > b.0 || (q.0 == b.0 && q.1 > b.1))) {
            best = j;
            best_key = key;
        }
        j += 1;
    }
    best
}

/// The A* priority of a cell of the grid.
fn priority_of(maze: &Vec<Vec<char>>, dist: &Vec<Vec<i32>>, q: Pos, goal: Pos) -> (k: i64)
    requires
        search_grid(maze.deep_view(), goal),
        table_fits(maze.deep_view(), dist.deep_view()),
        in_bounds(maze.deep_view(), q),
    ensures
        k == priority(dist.deep_view(), goal, q),
{
    let ghost g = maze.deep_view();
    proof {
        lemma_in_bounds_range(g, q);
        lemma_in_bounds_range(g, goal);
        let h = g.len() as int;
        let w = g[0].len() as int;
        assert(h * w >= h + w - 1) by (nonlinear_arith)
            requires h >= 1, w >= 1;
    }
    assert(dist@[q.0 as int]@ == dist.deep_view()[q.0 as int]);
    let hc = heuristic_cost(&q, &goal);
    dist[q.0 as usize][q.1 as usize] as i64 + hc as i64
}

/// Records cost `v` for the cell `p`.
fn set_cell(maze: &Vec<Vec<char>>, dist: &mut Vec<Vec<i32>>, p: Pos, v: i32)
    requires
        table_fits(maze.deep_view(), old(dist).deep_view()),
        in_bounds(maze.deep_view(), p),
    ensures
        final(dist).deep_view() == set_dist(old(dist).deep_view(), p, v),
{
    let ghost before = dist.deep_view();
    let r = p.0 as usize;
    let col = p.1 as usize;
    assert(dist@[r as int]@ == before[r as int]);
    dist[r][col] = v;
    assert(dist.deep_view() =~= set_dist(before, p, v)) by {
        assert(dist.deep_view()[r as int] =~= set_dist(before, p, v)[r as int]);
        assert forall|i: int| 0 <= i < dist.deep_view().len() && i != r implies
            dist.deep_view()[i] =~= before[i] by {}
    }
}

/// Runs one search to its end: breadth-first when `a_star` is false.
fn search(maze: &Vec<Vec<char>>, h: i32, w: i32, start: Pos, goal: Pos, a_star: bool) -> (r: (i32, u32))
    requires
        search_inputs(maze.deep_view(), h, w, start, goal),
    ensures
        r.0 == outcome(maze.deep_view(), start, goal, a_star).0,
        r.1 == outcome(maze.deep_view(), start, goal, a_star).1,
{
    let ghost g = maze.deep_view();
    proof {
        assert(h * w == cell_count(g));
        assert(h <= h * w && w <= h * w) by (nonlinear_arith)
            requires h >= 1, w >= 1;
    }
    let mut dist = unreached_dist_table(maze);
    set_cell(maze, &mut dist, start, 0);
    let mut frontier: VecDeque<Pos> = VecDeque::new();
    frontier.push_back(start);
    let mut visited: u32 = 0;
    let mut done = false;
    let ghost init = initial(g, start);
    assert(frontier@ =~= seq![start]);
    while !done && frontier.len() > 0
        invariant
            g == maze.deep_view(),
            search_inputs(g, h, w, start, goal),
            search_grid(g, start),
            search_grid(g, goal),
            (SearchState { dist: dist.deep_view(), frontier: frontier@, visited: visited as nat, done })
                == run(g, goal, a_star, init, visited as nat),
            init == initial(g, start),
        decreases cell_count(g) - visited,
    {
        let ghost s = SearchState { dist: dist.deep_view(), frontier: frontier@, visited: visited as nat, done };
        proof {
            lemma_run_inv(g, start, goal, a_star, visited as nat);
            lemma_run_counts(g, start, goal, a_star, visited as nat);
        }
        let i: usize = if a_star { best_in_frontier(maze, &dist, &frontier, goal) } else { 0 };
        assert(i == select(s, goal, a_star));
        let p = frontier.remove(i).unwrap();
        visited += 1;
        proof { lemma_in_bounds_range(g, p); }
        assert(dist@[p.0 as int]@ == dist.deep_view()[p.0 as int]);
        let cost = dist[p.0 as usize][p.1 as usize];
        if p.0 == goal.0 && p.1 == goal.1 {
            done = true;
        } else {
            let c = cost + 1;
            relax_cell(maze, h, w, &mut dist, &mut frontier, (p.0 + 1, p.1), c, a_star);
            relax_cell(maze, h, w, &mut dist, &mut frontier, (p.0 - 1, p.1), c, a_star);
            relax_cell(maze, h, w, &mut dist, &mut frontier, (p.0, p.1 + 1), c, a_star);
            relax_cell(maze, h, w, &mut dist, &mut frontier, (p.0, p.1 - 1), c, a_star);
        }
        assert((SearchState { dist: dist.deep_view(), frontier: frontier@, visited: visited as nat, done })
            == step(g, goal, a_star, s));
    }
    proof {
        lemma_run_inv(g, start, goal, a_star, visited as nat);
        lemma_run_stays(g, goal, a_star, init, visited as nat, cell_count(g));
    }
    assert(dist@[goal.0 as int]@ == dist.deep_view()[goal.0 as int]);
    (dist[goal.0 as usize][goal.1 as usize], visited)
}


/// Breadth-first search from `start_pos` to `goal_pos`: the least number of
/// moves to the goal (`-1` when it cannot be reached) and the number of
/// cells taken out of the queue.
pub fn normal_bfs(maze: &Vec<Vec<char>>, h: i32, w: i32, start_pos: Pos, goal_pos: Pos) -> (r: (i32, u32))
    requires
        search_inputs(maze.deep_view(), h, w, start_pos, goal_pos),
    ensures
        (r.0 as int, r.1 as nat) == bfs_outcome(maze.deep_view(), start_pos, goal_pos),
        is_shortest_cost(maze.deep_view(), start_pos, goal_pos, r.0 as int),
        r.1 <= h * w,
        start_pos == goal_pos ==> r == (0i32, 1u32),
{
    proof {
        let g = maze.deep_view();
        lemma_outcome(g, start_pos, goal_pos, false);
        if start_pos == goal_pos {
            lemma_start_is_goal(g, start_pos, false);
        }
    }
    search(maze, h, w, start_pos, goal_pos, false)
}

/// A* search from `start_pos` to `goal_pos`, taking out first the cell of
/// least cost plus Manhattan distance to the goal, and among equal ones the
/// greatest `(row, column)`. A cheaper route to a cell in the frontier lowers
/// its recorded cost. Returns the least number of moves to the goal (`-1`
/// when it cannot be reached) and the number of cells taken out.
pub fn a_star_bfs(maze: &Vec<Vec<char>>, h: i32, w: i32, start_pos: Pos, goal_pos: Pos) -> (r: (i32, u32))
    requires
        search_inputs(maze.deep_view(), h, w, start_pos, goal_pos),
    ensures
        (r.0 as int, r.1 as nat) == a_star_outcome(maze.deep_view(), start_pos, goal_pos),
        is_shortest_cost(maze.deep_view(), start_pos, goal_pos, r.0 as int),
        r.1 <= h * w,
        start_pos == goal_pos ==> r == (0i32, 1u32),
{
    proof {
        let g = maze.deep_view();
        lemma_outcome(g, start_pos, goal_pos, true);
        if start_pos == goal_pos {
            lemma_start_is_goal(g, start_pos, true);
        }
    }
    search(maze, h, w, start_pos, goal_pos, true)
}

} // verus!
