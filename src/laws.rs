//! Facts that relate the two searches to each other and to the maze.

use vstd::prelude::*;
use crate::grid::{
    Pos, adjacent, in_bounds, is_open, is_shortest, is_shortest_cost, is_walk, reachable, reachable_in,
};
use crate::model::{a_star_outcome, bfs_outcome};
use crate::search_facts::{lemma_exhausted_counts, lemma_outcome, lemma_start_is_goal, search_grid};

verus! {

/// Breadth-first search and A* report the same cost: the least number of
/// moves from the start to the goal, or `-1` when there is none.
pub proof fn lemma_searches_agree_on_cost(g: Seq<Seq<char>>, start: Pos, goal: Pos)
    requires
        search_grid(g, start),
        in_bounds(g, goal),
    ensures
        bfs_outcome(g, start, goal).0 == a_star_outcome(g, start, goal).0,
        is_shortest_cost(g, start, goal, bfs_outcome(g, start, goal).0),
{
    lemma_outcome(g, start, goal, false);
    lemma_outcome(g, start, goal, true);
    let b = bfs_outcome(g, start, goal).0;
    let a = a_star_outcome(g, start, goal).0;
    if a >= 0 && a < b {
        assert(is_shortest(g, start, goal, b as nat));
        assert(reachable_in(g, start, goal, a as nat));
    }
    if b >= 0 && b < a {
        assert(is_shortest(g, start, goal, a as nat));
        assert(reachable_in(g, start, goal, b as nat));
    }
}

/// When no walk leads from the start to the goal, both searches report `-1`,
/// and both take out the same number of cells: every cell reachable from the
/// start.
pub proof fn lemma_unreachable_goal(g: Seq<Seq<char>>, start: Pos, goal: Pos)
    requires
        search_grid(g, start),
        in_bounds(g, goal),
        !reachable(g, start, goal),
    ensures
        bfs_outcome(g, start, goal).0 == -1,
        a_star_outcome(g, start, goal).0 == -1,
        bfs_outcome(g, start, goal).1 == a_star_outcome(g, start, goal).1,
{
    lemma_outcome(g, start, goal, false);
    lemma_outcome(g, start, goal, true);
    lemma_exhausted_counts(g, start, goal);
}

/// When the start is the goal, both searches report cost 0 after taking out
/// one cell.
pub proof fn lemma_start_equals_goal(g: Seq<Seq<char>>, start: Pos)
    requires
        search_grid(g, start),
    ensures
        bfs_outcome(g, start, start) == (0int, 1nat),
        a_star_outcome(g, start, start) == (0int, 1nat),
{
    lemma_start_is_goal(g, start, false);
    lemma_start_is_goal(g, start, true);
}

/// Closing cells never shortens the search: when every cell open in `g2` is
/// open in `g`, a cost A* finds in `g2` is at least the cost in `g`.
pub proof fn lemma_more_walls_never_shorten(g: Seq<Seq<char>>, g2: Seq<Seq<char>>, start: Pos, goal: Pos)
    requires
        search_grid(g, start),
        search_grid(g2, start),
        in_bounds(g, goal),
        in_bounds(g2, goal),
        forall|p: Pos| #[trigger] is_open(g2, p) ==> is_open(g, p),
    ensures
        a_star_outcome(g2, start, goal).0 >= 0 ==>
            0 <= a_star_outcome(g, start, goal).0 <= a_star_outcome(g2, start, goal).0,
{
    lemma_outcome(g, start, goal, true);
    lemma_outcome(g2, start, goal, true);
    let a2 = a_star_outcome(g2, start, goal).0;
    let a1 = a_star_outcome(g, start, goal).0;
    if a2 >= 0 {
        let w = choose|w: Seq<Pos>| is_walk(g2, w) && w.len() == a2 + 1 && w[0] == start && w.last() == goal;
        assert forall|i: int| 1 <= i < w.len() implies #[trigger] is_open(g, w[i]) && adjacent(w[i - 1], w[i]) by {
            assert(is_open(g2, w[i]));
        }
        assert(is_walk(g, w));
        assert(reachable_in(g, start, goal, a2 as nat));
        if a1 > a2 {
            assert(is_shortest(g, start, goal, a1 as nat));
        }
    }
}

} // verus!
