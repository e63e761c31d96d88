//! What holds of every state the search machine passes through, and what
//! that gives for its results.

use vstd::prelude::*;
use crate::grid::{
    manhattan,
    Pos, adjacent, in_bounds, is_open, is_rectangular, is_shortest_cost, is_walk, reachable,
    reachable_in,
};
use crate::model::{
    priority,
    relax_by, relax_lower,
    SearchState, dist_at, set_dist, table_fits, neighbor, can_enter, relax, best_index, select,
    step, finished, run, unreached_table, initial, cell_count, outcome,
};

verus! {

// ---- the count of unreached cells ----

pub open spec fn row_unreached(r: Seq<i32>) -> nat
    decreases r.len(),
{
    if r.len() == 0 {
        0
    } else {
        row_unreached(r.drop_last()) + if r.last() == -1 { 1nat } else { 0nat }
    }
}

pub open spec fn table_unreached(d: Seq<Seq<i32>>) -> nat
    decreases d.len(),
{
    if d.len() == 0 {
        0
    } else {
        table_unreached(d.drop_last()) + row_unreached(d.last())
    }
}

pub(crate) proof fn lemma_row_update(r: Seq<i32>, i: int, v: i32)
    requires
        0 <= i < r.len(),
    ensures
        row_unreached(r.update(i, v)) + (if r[i] == -1 { 1int } else { 0int })
            == row_unreached(r) + (if v == -1 { 1int } else { 0int }),
    decreases r.len(),
{
    let u = r.update(i, v);
    if i < r.len() - 1 {
        assert(u.drop_last() =~= r.drop_last().update(i, v));
        lemma_row_update(r.drop_last(), i, v);
    } else {
        assert(u.drop_last() =~= r.drop_last());
    }
}

pub(crate) proof fn lemma_table_update(d: Seq<Seq<i32>>, i: int, row: Seq<i32>)
    requires
        0 <= i < d.len(),
    ensures
        table_unreached(d.update(i, row)) + row_unreached(d[i]) == table_unreached(d) + row_unreached(row),
    decreases d.len(),
{
    let u = d.update(i, row);
    if i < d.len() - 1 {
        assert(u.drop_last() =~= d.drop_last().update(i, row));
        lemma_table_update(d.drop_last(), i, row);
    } else {
        assert(u.drop_last() =~= d.drop_last());
    }
}

/// Setting an unreached entry to a cost takes one from the count.
pub(crate) proof fn lemma_set_dist_count(d: Seq<Seq<i32>>, p: Pos, v: i32)
    requires
        0 <= p.0 < d.len(),
        0 <= p.1 < d[p.0 as int].len(),
        d[p.0 as int][p.1 as int] == -1,
        v != -1,
    ensures
        table_unreached(set_dist(d, p, v)) + 1 == table_unreached(d),
{
    lemma_row_update(d[p.0 as int], p.1 as int, v);
    lemma_table_update(d, p.0 as int, d[p.0 as int].update(p.1 as int, v));
}

pub(crate) proof fn lemma_row_all_unreached(n: nat)
    ensures
        row_unreached(Seq::new(n, |c: int| -1i32)) == n,
    decreases n,
{
    if n > 0 {
        assert(Seq::new(n, |c: int| -1i32).drop_last() =~= Seq::new((n - 1) as nat, |c: int| -1i32));
        lemma_row_all_unreached((n - 1) as nat);
    }
}

pub(crate) proof fn lemma_table_all_unreached(g: Seq<Seq<char>>, n: nat)
    requires
        is_rectangular(g),
        n <= g.len(),
    ensures
        table_unreached(unreached_table(g).subrange(0, n as int)) == n * g[0].len(),
    decreases n,
{
    let t = unreached_table(g);
    if n > 0 {
        assert(t.subrange(0, n as int).drop_last() =~= t.subrange(0, n - 1));
        lemma_table_all_unreached(g, (n - 1) as nat);
        lemma_row_all_unreached(g[n - 1].len());
        assert(g[n - 1].len() == g[0].len());
        assert(n * g[0].len() == (n - 1) * g[0].len() + g[0].len()) by (nonlinear_arith);
    } else {
        assert(t.subrange(0, 0) =~= Seq::<Seq<i32>>::empty());
    }
}

// ---- running to the end ----

/// Once a run has stopped, more rounds change nothing.
pub(crate) proof fn lemma_run_stays(g: Seq<Seq<char>>, goal: Pos, a_star: bool, s: SearchState, n: nat, m: nat)
    requires
        n <= m,
        finished(run(g, goal, a_star, s, n)),
    ensures
        run(g, goal, a_star, s, m) == run(g, goal, a_star, s, n),
    decreases m,
{
    if n < m {
        lemma_run_stays(g, goal, a_star, s, n, (m - 1) as nat);
    }
}

// ---- what holds of every state a search passes through ----

pub open spec fn reached(d: Seq<Seq<i32>>, p: Pos) -> bool {
    dist_at(d, p) >= 0
}

/// Bookkeeping: the table fits the grid, the frontier holds reached cells,
/// every cell is counted once as unreached, in the frontier or taken out, and
/// every cost is below the number of cells ever reached.
pub open spec fn inv_tables(g: Seq<Seq<char>>, s: SearchState) -> bool {
    &&& table_fits(g, s.dist)
    &&& forall|i: int| 0 <= i < s.frontier.len() ==> in_bounds(g, #[trigger] s.frontier[i]) && reached(s.dist, s.frontier[i])
    &&& s.frontier.len() + s.visited + table_unreached(s.dist) == cell_count(g)
    &&& forall|p: Pos| in_bounds(g, p) ==> -1 <= #[trigger] dist_at(s.dist, p) < s.frontier.len() + s.visited
}

/// Every recorded cost is the length of a real walk from the start.
pub open spec fn inv_sound(g: Seq<Seq<char>>, start: Pos, s: SearchState) -> bool {
    forall|p: Pos| in_bounds(g, p) && reached(s.dist, p) ==> reachable_in(g, start, p, #[trigger] dist_at(s.dist, p) as nat)
}

/// A reached cell that has left the frontier has all its open neighbours
/// reached.
pub open spec fn inv_expanded(g: Seq<Seq<char>>, s: SearchState) -> bool {
    forall|p: Pos, q: Pos|
        #![trigger adjacent(p, q), dist_at(s.dist, p), dist_at(s.dist, q)]
        in_bounds(g, p) && reached(s.dist, p) && !s.frontier.contains(p) && is_open(g, q) && adjacent(p, q)
            ==> reached(s.dist, q)
}

/// Breadth-first order: frontier costs never decrease from front to back and
/// span at most one.
pub open spec fn inv_layered(s: SearchState) -> bool {
    &&& forall|i: int, j: int| 0 <= i < j < s.frontier.len() ==> dist_at(s.dist, #[trigger] s.frontier[i]) <= dist_at(s.dist, #[trigger] s.frontier[j])
    &&& forall|i: int| 0 <= i < s.frontier.len() ==> dist_at(s.dist, #[trigger] s.frontier[i]) <= dist_at(s.dist, s.frontier[0]) + 1
}

/// No recorded cost can be beaten by a shorter walk.
pub open spec fn inv_optimal(g: Seq<Seq<char>>, start: Pos, s: SearchState) -> bool {
    forall|p: Pos, j: nat| in_bounds(g, p) && reached(s.dist, p) && j < dist_at(s.dist, p) ==> !#[trigger] reachable_in(g, start, p, j)
}

/// Every cell within the cost of the frontier's front is reached.
pub open spec fn inv_level(g: Seq<Seq<char>>, start: Pos, s: SearchState) -> bool {
    s.frontier.len() > 0 ==> forall|p: Pos, k: nat|
        in_bounds(g, p) && k <= dist_at(s.dist, s.frontier[0]) && #[trigger] reachable_in(g, start, p, k) ==> reached(s.dist, p)
}

pub open spec fn inv(g: Seq<Seq<char>>, start: Pos, goal: Pos, a_star: bool, s: SearchState) -> bool {
    &&& inv_tables(g, s)
    &&& inv_sound(g, start, s)
    &&& !s.done ==> inv_expanded(g, s)
    &&& s.done ==> reached(s.dist, goal)
    &&& !a_star ==> inv_optimal(g, start, s)
    &&& !a_star && !s.done ==> inv_layered(s) && inv_level(g, start, s)
    &&& a_star ==> inv_a_star(g, start, goal, s)
    &&& dist_at(s.dist, start) == 0
}

pub(crate) proof fn lemma_set_dist(g: Seq<Seq<char>>, d: Seq<Seq<i32>>, p: Pos, v: i32)
    requires
        table_fits(g, d),
        in_bounds(g, p),
    ensures
        table_fits(g, set_dist(d, p, v)),
        forall|q: Pos| in_bounds(g, q) ==> #[trigger] dist_at(set_dist(d, p, v), q) == if q == p { v as int } else { dist_at(d, q) },
{
    let e = set_dist(d, p, v);
    assert forall|r: int| 0 <= r < g.len() implies #[trigger] e[r].len() == g[r].len() by {}
    assert forall|q: Pos| in_bounds(g, q) implies #[trigger] dist_at(e, q) == if q == p { v as int } else { dist_at(d, q) } by {
        if q.0 == p.0 && q.1 != p.1 {
            assert(e[q.0 as int][q.1 as int] == d[q.0 as int][q.1 as int]);
        }
    }
}

/// What one relaxation does to the table, the frontier and the count.
pub(crate) proof fn lemma_relax(g: Seq<Seq<char>>, s: SearchState, nb: Pos, c: i32)
    requires
        table_fits(g, s.dist),
        c >= 0,
    ensures
        ({
            let t = relax(g, s, nb, c);
            &&& table_fits(g, t.dist)
            &&& t.visited == s.visited && t.done == s.done
            &&& forall|q: Pos| in_bounds(g, q) ==> #[trigger] dist_at(t.dist, q) == if can_enter(g, s.dist, nb) && q == nb { c as int } else { dist_at(s.dist, q) }
            &&& t.frontier == if can_enter(g, s.dist, nb) { s.frontier.push(nb) } else { s.frontier }
            &&& can_enter(g, s.dist, nb) ==> table_unreached(t.dist) + 1 == table_unreached(s.dist)
            &&& !can_enter(g, s.dist, nb) ==> table_unreached(t.dist) == table_unreached(s.dist)
        }),
{
    if can_enter(g, s.dist, nb) {
        lemma_set_dist(g, s.dist, nb, c);
        assert(s.dist[nb.0 as int].len() == g[nb.0 as int].len());
        lemma_set_dist_count(s.dist, nb, c);
    }
}

/// What one relaxation of either search does to the table and the frontier.
pub(crate) proof fn lemma_relax_by(g: Seq<Seq<char>>, s: SearchState, nb: Pos, c: i32, a_star: bool)
    requires
        table_fits(g, s.dist),
        c >= 0,
    ensures
        ({
            let t = relax_by(g, s, nb, c, a_star);
            let set = is_open(g, nb) && (dist_at(s.dist, nb) == -1 || (a_star && 0 <= dist_at(s.dist, nb) && c < dist_at(s.dist, nb)));
            &&& table_fits(g, t.dist)
            &&& t.visited == s.visited && t.done == s.done
            &&& forall|q: Pos| in_bounds(g, q) ==> #[trigger] dist_at(t.dist, q) == if set && q == nb { c as int } else { dist_at(s.dist, q) }
            &&& t.frontier == if can_enter(g, s.dist, nb) { s.frontier.push(nb) } else { s.frontier }
            &&& can_enter(g, s.dist, nb) ==> table_unreached(t.dist) + 1 == table_unreached(s.dist)
            &&& !can_enter(g, s.dist, nb) ==> table_unreached(t.dist) == table_unreached(s.dist)
        }),
{
    lemma_relax(g, s, nb, c);
    if a_star && is_open(g, nb) && dist_at(s.dist, nb) >= 0 && c < dist_at(s.dist, nb) {
        lemma_set_dist(g, s.dist, nb, c);
        assert(s.dist[nb.0 as int].len() == g[nb.0 as int].len());
        lemma_row_update(s.dist[nb.0 as int], nb.1 as int, c);
        lemma_table_update(s.dist, nb.0 as int, s.dist[nb.0 as int].update(nb.1 as int, c));
    }
}

pub(crate) proof fn lemma_adjacent_neighbor(p: Pos, q: Pos)
    requires
        adjacent(p, q),
        i32::MIN < p.0 < i32::MAX,
        i32::MIN < p.1 < i32::MAX,
    ensures
        q == neighbor(p, 0) || q == neighbor(p, 1) || q == neighbor(p, 2) || q == neighbor(p, 3),
{
}

pub(crate) proof fn lemma_neighbor_adjacent(p: Pos, k: int)
    requires
        0 <= k < 4,
        i32::MIN < p.0 < i32::MAX,
        i32::MIN < p.1 < i32::MAX,
    ensures
        adjacent(p, neighbor(p, k)),
{
}

/// `b` comes from `a` by relaxations out of `p` at cost `c`: costs already
/// recorded stay, new ones are `c` for open neighbours of `p`, and each new
/// one is appended to the frontier.
pub open spec fn grows(g: Seq<Seq<char>>, a: SearchState, b: SearchState, p: Pos, c: i32) -> bool {
    &&& table_fits(g, b.dist)
    &&& b.visited == a.visited && b.done == a.done
    &&& a.frontier.len() <= b.frontier.len()
    &&& b.frontier.subrange(0, a.frontier.len() as int) == a.frontier
    &&& b.frontier.len() + table_unreached(b.dist) == a.frontier.len() + table_unreached(a.dist)
    &&& forall|k: int| a.frontier.len() <= k < b.frontier.len() ==> in_bounds(g, #[trigger] b.frontier[k])
        && dist_at(b.dist, b.frontier[k]) == c && !reached(a.dist, b.frontier[k])
    &&& forall|q: Pos| in_bounds(g, q) && reached(a.dist, q) ==> #[trigger] dist_at(b.dist, q) == dist_at(a.dist, q)
    &&& forall|q: Pos| in_bounds(g, q) && !reached(a.dist, q) ==> #[trigger] dist_at(b.dist, q) == dist_at(a.dist, q)
        || (dist_at(b.dist, q) == c && is_open(g, q) && adjacent(p, q) && a.frontier.len() < b.frontier.len()
            && b.frontier.contains(q))
}

pub(crate) proof fn lemma_grows_relax(g: Seq<Seq<char>>, a: SearchState, b: SearchState, p: Pos, k: int, c: i32)
    requires
        grows(g, a, b, p, c),
        c >= 1,
        0 <= k < 4,
        i32::MIN < p.0 < i32::MAX,
        i32::MIN < p.1 < i32::MAX,
    ensures
        grows(g, a, relax(g, b, neighbor(p, k), c), p, c),
        is_open(g, neighbor(p, k)) && dist_at(b.dist, neighbor(p, k)) >= -1 ==> reached(relax(g, b, neighbor(p, k), c).dist, neighbor(p, k)),
        forall|q: Pos| in_bounds(g, q) && reached(b.dist, q) ==> reached(#[trigger] relax(g, b, neighbor(p, k), c).dist, q),
{
    let nb = neighbor(p, k);
    let t = relax(g, b, nb, c);
    lemma_relax(g, b, nb, c);
    lemma_neighbor_adjacent(p, k);
    if can_enter(g, b.dist, nb) {
        assert(t.frontier.subrange(0, a.frontier.len() as int) =~= a.frontier) by {
            assert(b.frontier.subrange(0, a.frontier.len() as int) == a.frontier);
        }
        assert(t.frontier[b.frontier.len() as int] == nb);
        assert forall|q: Pos| in_bounds(g, q) && !reached(a.dist, q) implies #[trigger] dist_at(t.dist, q) == dist_at(a.dist, q)
            || (dist_at(t.dist, q) == c && is_open(g, q) && adjacent(p, q) && a.frontier.len() < t.frontier.len()
                && t.frontier.contains(q)) by {
            if q == nb {
                assert(t.frontier[b.frontier.len() as int] == q);
            } else if dist_at(b.dist, q) != dist_at(a.dist, q) {
                let j = choose|j: int| 0 <= j < b.frontier.len() && b.frontier[j] == q;
                assert(t.frontier[j] == q);
            }
        }
        assert forall|j: int| a.frontier.len() <= j < t.frontier.len() implies in_bounds(g, #[trigger] t.frontier[j])
            && dist_at(t.dist, t.frontier[j]) == c && !reached(a.dist, t.frontier[j]) by {
            if j < b.frontier.len() {
                assert(t.frontier[j] == b.frontier[j]);
            }
        }
    }
}

pub(crate) proof fn lemma_walk_extend(g: Seq<Seq<char>>, s: Pos, p: Pos, q: Pos, k: nat)
    requires
        reachable_in(g, s, p, k),
        is_open(g, q),
        adjacent(p, q),
    ensures
        reachable_in(g, s, q, k + 1),
{
    let w = choose|w: Seq<Pos>| is_walk(g, w) && w.len() == k + 1 && w[0] == s && w.last() == p;
    let v = w.push(q);
    assert forall|i: int| 1 <= i < v.len() implies #[trigger] is_open(g, v[i]) && adjacent(v[i - 1], v[i]) by {
        if i < w.len() {
            assert(v[i] == w[i] && v[i - 1] == w[i - 1]);
            assert(is_open(g, w[i]));
        }
    }
    assert(is_walk(g, v));
}

/// A walk of `k >= 1` moves passes, one move before its end, through a cell
/// reachable in `k - 1` moves, from which the last move enters an open cell.
pub(crate) proof fn lemma_walk_prefix(g: Seq<Seq<char>>, s: Pos, t: Pos, k: nat) -> (prev: Pos)
    requires
        reachable_in(g, s, t, k),
        k >= 1,
        in_bounds(g, s),
    ensures
        reachable_in(g, s, prev, (k - 1) as nat),
        in_bounds(g, prev),
        is_open(g, t),
        adjacent(prev, t),
{
    let w = choose|w: Seq<Pos>| is_walk(g, w) && w.len() == k + 1 && w[0] == s && w.last() == t;
    let v = w.subrange(0, k as int);
    assert forall|i: int| 1 <= i < v.len() implies #[trigger] is_open(g, v[i]) && adjacent(v[i - 1], v[i]) by {
        assert(is_open(g, w[i]));
    }
    assert(is_walk(g, v));
    assert(is_open(g, w[k as int]));
    if k >= 2 {
        assert(is_open(g, w[k - 1]));
    }
    w[k - 1]
}

pub(crate) proof fn lemma_best_index_range(d: Seq<Seq<i32>>, goal: Pos, f: Seq<Pos>, n: nat)
    requires
        1 <= n <= f.len(),
    ensures
        0 <= best_index(d, goal, f, n) < n,
    decreases n,
{
    if n > 1 {
        lemma_best_index_range(d, goal, f, (n - 1) as nat);
    }
}

/// The grid is rectangular, small enough for `i32` costs, and holds the start.
pub open spec fn search_grid(g: Seq<Seq<char>>, start: Pos) -> bool {
    &&& is_rectangular(g)
    &&& cell_count(g) <= i32::MAX
    &&& g.len() <= i32::MAX
    &&& g[0].len() <= i32::MAX
    &&& in_bounds(g, start)
}

pub(crate) proof fn lemma_in_bounds_range(g: Seq<Seq<char>>, p: Pos)
    requires
        is_rectangular(g),
        g.len() <= i32::MAX,
        g[0].len() <= i32::MAX,
        in_bounds(g, p),
    ensures
        0 <= p.0 < i32::MAX,
        0 <= p.1 < i32::MAX,
        0 <= p.1 < g[0].len(),
{
    assert(g[p.0 as int].len() == g[0].len());
}

/// Each round keeps the invariant.
pub(crate) proof fn lemma_step_inv(g: Seq<Seq<char>>, start: Pos, goal: Pos, a_star: bool, s: SearchState)
    requires
        search_grid(g, start),
        inv(g, start, goal, a_star, s),
        !finished(s),
    ensures
        inv(g, start, goal, a_star, step(g, goal, a_star, s)),
{
    let f = s.frontier;
    let i = select(s, goal, a_star);
    if a_star {
        lemma_best_index_range(s.dist, goal, f, f.len());
    }
    let p = f[i];
    let l = dist_at(s.dist, p);
    assert(in_bounds(g, p) && reached(s.dist, p));
    lemma_in_bounds_range(g, p);
    let c = (l + 1) as i32;
    let taken = SearchState { frontier: f.remove(i), visited: s.visited + 1, ..s };
    let n = step(g, goal, a_star, s);
    assert forall|j: int| 0 <= j < f.len() && j != i implies taken.frontier.contains(#[trigger] f[j]) by {
        if j < i {
            assert(taken.frontier[j] == f[j]);
        } else {
            assert(taken.frontier[j - 1] == f[j]);
        }
    }
    assert forall|j: int| 0 <= j < taken.frontier.len() implies in_bounds(g, #[trigger] taken.frontier[j])
        && reached(taken.dist, taken.frontier[j]) by {
        if j < i {
            assert(taken.frontier[j] == f[j]);
        } else {
            assert(taken.frontier[j] == f[j + 1]);
        }
    }
    if a_star {
        lemma_taken_is_least(g, start, goal, s);
    }
    if p == goal {
        assert(n == SearchState { done: true, ..taken });
        if a_star {
            assert forall|q: Pos| in_bounds(g, q) && reached(n.dist, q) && !n.frontier.contains(q)
                implies #[trigger] is_least(g, start, n.dist, q) by {
                if q != p && f.contains(q) {
                    let j = choose|j: int| 0 <= j < f.len() && f[j] == q;
                }
            }
        }
    } else if a_star {
        lemma_step_expand_a(g, start, goal, s, taken, p, c);
    } else {
        lemma_step_expand(g, start, goal, a_star, s, taken, p, c);
    }
}

/// A round that does not stop at the goal keeps the invariant.
pub(crate) proof fn lemma_step_expand(g: Seq<Seq<char>>, start: Pos, goal: Pos, a_star: bool, s: SearchState, taken: SearchState, p: Pos, c: i32)
    requires
        search_grid(g, start),
        inv(g, start, goal, a_star, s),
        !a_star,
        !finished(s),
        p != goal,
        0 <= select(s, goal, a_star) < s.frontier.len(),
        p == s.frontier[select(s, goal, a_star)],
        c == dist_at(s.dist, p) + 1,
        0 <= p.0 < i32::MAX,
        0 <= p.1 < i32::MAX,
        taken == (SearchState { frontier: s.frontier.remove(select(s, goal, a_star)), visited: s.visited + 1, ..s }),
        forall|j: int| 0 <= j < s.frontier.len() && j != select(s, goal, a_star) ==> taken.frontier.contains(#[trigger] s.frontier[j]),
        forall|j: int| 0 <= j < taken.frontier.len() ==> in_bounds(g, #[trigger] taken.frontier[j]) && reached(taken.dist, taken.frontier[j]),
    ensures
        inv(g, start, goal, a_star, step(g, goal, a_star, s)),
{
    let f = s.frontier;
    let i = select(s, goal, a_star);
    let l = dist_at(s.dist, p);
    let n = step(g, goal, a_star, s);
    let s1 = relax_by(g, taken, neighbor(p, 0), c, a_star);
    let s2 = relax_by(g, s1, neighbor(p, 1), c, a_star);
    let s3 = relax_by(g, s2, neighbor(p, 2), c, a_star);
    let s4 = relax_by(g, s3, neighbor(p, 3), c, a_star);
    assert(n == s4);
    assert(taken.frontier.subrange(0, taken.frontier.len() as int) =~= taken.frontier);
    assert(grows(g, taken, taken, p, c));
    lemma_grows_relax(g, taken, taken, p, 0, c);
    lemma_grows_relax(g, taken, s1, p, 1, c);
    lemma_grows_relax(g, taken, s2, p, 2, c);
    lemma_grows_relax(g, taken, s3, p, 3, c);
    // every open neighbour of p is now reached
    assert forall|k: int| 0 <= k < 4 && is_open(g, neighbor(p, k)) implies reached(s4.dist, #[trigger] neighbor(p, k)) by {
        assert(dist_at(s.dist, neighbor(p, k)) >= -1);
        assert(dist_at(s1.dist, neighbor(p, k)) >= -1);
        assert(dist_at(s2.dist, neighbor(p, k)) >= -1);
        assert(dist_at(s3.dist, neighbor(p, k)) >= -1);
    }
    // bookkeeping
    assert forall|j: int| 0 <= j < s4.frontier.len() implies in_bounds(g, #[trigger] s4.frontier[j])
        && reached(s4.dist, s4.frontier[j]) by {
        if j < taken.frontier.len() {
            assert(s4.frontier[j] == s4.frontier.subrange(0, taken.frontier.len() as int)[j]);
        }
    }
    assert forall|q: Pos| in_bounds(g, q) implies -1 <= #[trigger] dist_at(s4.dist, q) < s4.frontier.len() + s4.visited by {}
    assert(inv_tables(g, s4));
    // soundness
    assert forall|q: Pos| in_bounds(g, q) && reached(s4.dist, q) implies reachable_in(g, start, q, #[trigger] dist_at(s4.dist, q) as nat) by {
        if !reached(s.dist, q) {
            lemma_walk_extend(g, start, p, q, l as nat);
        }
    }
    // expanded cells
    assert forall|a: Pos, b: Pos|
        #![trigger adjacent(a, b), dist_at(s4.dist, a), dist_at(s4.dist, b)]
        in_bounds(g, a) && reached(s4.dist, a) && !s4.frontier.contains(a) && is_open(g, b) && adjacent(a, b)
        implies reached(s4.dist, b) by {
        if a == p {
            lemma_adjacent_neighbor(p, b);
        } else {
            if !reached(s.dist, a) {
                assert(s4.frontier.contains(a));
            }
            if f.contains(a) {
                let j = choose|j: int| 0 <= j < f.len() && f[j] == a;
                let m = choose|m: int| 0 <= m < taken.frontier.len() && taken.frontier[m] == a;
                assert(s4.frontier[m] == s4.frontier.subrange(0, taken.frontier.len() as int)[m]);
            }
            assert(dist_at(s.dist, a) == dist_at(s4.dist, a));
            assert(reached(s.dist, b));
        }
    }
    if !a_star {
        lemma_step_layers(g, start, goal, s, taken, s4, p, c);
    }
}

/// Breadth-first rounds keep costs minimal and layered.
pub(crate) proof fn lemma_step_layers(g: Seq<Seq<char>>, start: Pos, goal: Pos, s: SearchState, taken: SearchState, t: SearchState, p: Pos, c: i32)
    requires
        search_grid(g, start),
        inv(g, start, goal, false, s),
        !finished(s),
        p == s.frontier[0],
        c == dist_at(s.dist, p) + 1,
        taken == (SearchState { frontier: s.frontier.remove(0), visited: s.visited + 1, ..s }),
        grows(g, taken, t, p, c),
        inv_expanded(g, t),
        forall|j: int| 0 <= j < t.frontier.len() ==> in_bounds(g, #[trigger] t.frontier[j]) && reached(t.dist, t.frontier[j]),
    ensures
        inv_optimal(g, start, t),
        inv_layered(t),
        inv_level(g, start, t),
{
    let f = s.frontier;
    let l = dist_at(s.dist, p);
    let tl = taken.frontier.len();
    assert(inv_optimal(g, start, s) && inv_layered(s) && inv_level(g, start, s));
    assert forall|q: Pos, j: nat| in_bounds(g, q) && reached(t.dist, q) && j < dist_at(t.dist, q)
        implies !#[trigger] reachable_in(g, start, q, j) by {
        if !reached(s.dist, q) && reachable_in(g, start, q, j) {
            assert(j <= dist_at(s.dist, f[0]));
        }
    }
    // costs along the new frontier
    assert forall|j: int| 0 <= j < t.frontier.len() implies l <= dist_at(t.dist, #[trigger] t.frontier[j]) <= l + 1 by {
        if j < tl {
            assert(t.frontier[j] == t.frontier.subrange(0, tl as int)[j]);
            assert(taken.frontier[j] == f[j + 1]);
        }
    }
    assert forall|a: int, b: int| 0 <= a < b < t.frontier.len() implies dist_at(t.dist, #[trigger] t.frontier[a])
        <= dist_at(t.dist, #[trigger] t.frontier[b]) by {
        if b < tl {
            assert(t.frontier[a] == t.frontier.subrange(0, tl as int)[a]);
            assert(t.frontier[b] == t.frontier.subrange(0, tl as int)[b]);
            assert(taken.frontier[a] == f[a + 1]);
            assert(taken.frontier[b] == f[b + 1]);
        }
    }
    if t.frontier.len() > 0 {
        let front = dist_at(t.dist, t.frontier[0]);
        assert(l <= front <= l + 1);
        assert forall|q: Pos, k: nat| in_bounds(g, q) && k <= front && #[trigger] reachable_in(g, start, q, k)
            implies reached(t.dist, q) by {
            if k <= l {
                assert(reached(s.dist, q));
            } else {
                let prev = lemma_walk_prefix(g, start, q, k);
                assert(reached(s.dist, prev));
                assert(dist_at(s.dist, prev) <= l) by {
                    if dist_at(s.dist, prev) > l {
                        assert(!reachable_in(g, start, prev, (k - 1) as nat));
                    }
                }
                assert(!t.frontier.contains(prev)) by {
                    if t.frontier.contains(prev) {
                        let j = choose|j: int| 0 <= j < t.frontier.len() && t.frontier[j] == prev;
                        assert(dist_at(t.dist, t.frontier[j]) >= front);
                    }
                }
                assert(dist_at(t.dist, prev) == dist_at(s.dist, prev));
            }
        }
    }
}

// ---- A*: a cell leaves the frontier at its least cost ----

/// A reached cell that has left the frontier has its open neighbours reached
/// at most one more than its own cost.
pub open spec fn inv_tight(g: Seq<Seq<char>>, s: SearchState) -> bool {
    forall|p: Pos, q: Pos|
        #![trigger adjacent(p, q), dist_at(s.dist, p), dist_at(s.dist, q)]
        in_bounds(g, p) && reached(s.dist, p) && !s.frontier.contains(p) && is_open(g, q) && adjacent(p, q)
            ==> reached(s.dist, q) && dist_at(s.dist, q) <= dist_at(s.dist, p) + 1
}

/// No walk beats the cost of `p`.
pub open spec fn is_least(g: Seq<Seq<char>>, start: Pos, d: Seq<Seq<i32>>, p: Pos) -> bool {
    forall|j: nat| j < dist_at(d, p) ==> !#[trigger] reachable_in(g, start, p, j)
}

/// A reached cell that has left the frontier has its least cost.
pub open spec fn inv_closed_least(g: Seq<Seq<char>>, start: Pos, s: SearchState) -> bool {
    forall|p: Pos| in_bounds(g, p) && reached(s.dist, p) && !s.frontier.contains(p) ==> #[trigger] is_least(g, start, s.dist, p)
}

pub open spec fn inv_a_star(g: Seq<Seq<char>>, start: Pos, goal: Pos, s: SearchState) -> bool {
    &&& inv_closed_least(g, start, s)
    &&& !s.done ==> inv_tight(g, s)
    &&& s.done ==> is_least(g, start, s.dist, goal)
}

pub(crate) proof fn lemma_best_index_min(d: Seq<Seq<i32>>, goal: Pos, f: Seq<Pos>, n: nat)
    requires
        1 <= n <= f.len(),
    ensures
        forall|t: int| 0 <= t < n ==> priority(d, goal, f[best_index(d, goal, f, n)]) <= priority(d, goal, #[trigger] f[t]),
    decreases n,
{
    if n > 1 {
        lemma_best_index_min(d, goal, f, (n - 1) as nat);
        lemma_best_index_range(d, goal, f, (n - 1) as nat);
    }
}

/// Cells `k` and `m` moves into a walk are at most `m - k` apart.
pub(crate) proof fn lemma_walk_manhattan(g: Seq<Seq<char>>, w: Seq<Pos>, k: int, m: int)
    requires
        is_walk(g, w),
        0 <= k <= m < w.len(),
    ensures
        manhattan(w[k], w[m]) <= m - k,
    decreases m - k,
{
    if k < m {
        lemma_walk_manhattan(g, w, k, m - 1);
        assert(is_open(g, w[m]) && adjacent(w[m - 1], w[m]));
    }
}

/// Along a walk from the start, some cell is in the frontier at a cost no
/// more than its place in the walk, or all cells up to `m` have left it.
pub(crate) proof fn lemma_walk_meets_frontier(g: Seq<Seq<char>>, start: Pos, s: SearchState, w: Seq<Pos>, m: int) -> (k: int)
    requires
        search_grid(g, start),
        inv_tables(g, s),
        inv_tight(g, s),
        dist_at(s.dist, start) == 0,
        is_walk(g, w),
        w[0] == start,
        0 <= m < w.len(),
    ensures
        0 <= k <= m,
        in_bounds(g, w[k]),
        reached(s.dist, w[k]),
        dist_at(s.dist, w[k]) <= k,
        s.frontier.contains(w[k]) || k == m,
    decreases m,
{
    if m == 0 {
        0
    } else {
        let k1 = lemma_walk_meets_frontier(g, start, s, w, m - 1);
        if s.frontier.contains(w[k1]) {
            k1
        } else {
            assert(is_open(g, w[m]) && adjacent(w[m - 1], w[m]));
            assert(in_bounds(g, w[m]));
            assert(in_bounds(g, w[m - 1]) && reached(s.dist, w[m - 1]) && !s.frontier.contains(w[m - 1]));
            assert(reached(s.dist, w[m]) && dist_at(s.dist, w[m]) <= dist_at(s.dist, w[m - 1]) + 1);
            m
        }
    }
}

/// The cell that A* takes out has its least cost.
pub(crate) proof fn lemma_taken_is_least(g: Seq<Seq<char>>, start: Pos, goal: Pos, s: SearchState)
    requires
        search_grid(g, start),
        inv(g, start, goal, true, s),
        !finished(s),
    ensures
        is_least(g, start, s.dist, s.frontier[select(s, goal, true)]),
{
    let f = s.frontier;
    let i = select(s, goal, true);
    lemma_best_index_range(s.dist, goal, f, f.len());
    lemma_best_index_min(s.dist, goal, f, f.len());
    let x = f[i];
    assert forall|j: nat| j < dist_at(s.dist, x) implies !#[trigger] reachable_in(g, start, x, j) by {
        if reachable_in(g, start, x, j) {
            let w = choose|w: Seq<Pos>| is_walk(g, w) && w.len() == j + 1 && w[0] == start && w.last() == x;
            let k = lemma_walk_meets_frontier(g, start, s, w, j as int);
            assert(f.contains(x));
            let t = choose|t: int| 0 <= t < f.len() && f[t] == w[k];
            lemma_walk_manhattan(g, w, k, j as int);
            assert(priority(s.dist, goal, f[i]) <= priority(s.dist, goal, f[t]));
        }
    }
}

/// `b` comes from `a` by A* relaxations out of `p` at cost `c`.
pub open spec fn grows_a(g: Seq<Seq<char>>, a: SearchState, b: SearchState, p: Pos, c: i32) -> bool {
    &&& table_fits(g, b.dist)
    &&& b.visited == a.visited && b.done == a.done
    &&& a.frontier.len() <= b.frontier.len()
    &&& b.frontier.subrange(0, a.frontier.len() as int) == a.frontier
    &&& b.frontier.len() + table_unreached(b.dist) == a.frontier.len() + table_unreached(a.dist)
    &&& forall|k: int| a.frontier.len() <= k < b.frontier.len() ==> in_bounds(g, #[trigger] b.frontier[k])
        && dist_at(b.dist, b.frontier[k]) == c && !reached(a.dist, b.frontier[k])
    &&& forall|q: Pos| in_bounds(g, q) ==> #[trigger] dist_at(b.dist, q) == dist_at(a.dist, q)
        || (dist_at(b.dist, q) == c && is_open(g, q) && adjacent(p, q)
            && (reached(a.dist, q) ==> c < dist_at(a.dist, q))
            && (!reached(a.dist, q) ==> a.frontier.len() < b.frontier.len() && b.frontier.contains(q)))
}

pub(crate) proof fn lemma_grows_a_relax(g: Seq<Seq<char>>, a: SearchState, b: SearchState, p: Pos, k: int, c: i32)
    requires
        grows_a(g, a, b, p, c),
        forall|q: Pos| in_bounds(g, q) ==> #[trigger] dist_at(a.dist, q) >= -1,
        c >= 1,
        0 <= k < 4,
        i32::MIN < p.0 < i32::MAX,
        i32::MIN < p.1 < i32::MAX,
    ensures
        grows_a(g, a, relax_by(g, b, neighbor(p, k), c, true), p, c),
        is_open(g, neighbor(p, k)) ==> reached(relax_by(g, b, neighbor(p, k), c, true).dist, neighbor(p, k))
            && dist_at(relax_by(g, b, neighbor(p, k), c, true).dist, neighbor(p, k)) <= c,
        forall|q: Pos| in_bounds(g, q) && reached(b.dist, q) ==> reached(#[trigger] relax_by(g, b, neighbor(p, k), c, true).dist, q)
            && dist_at(relax_by(g, b, neighbor(p, k), c, true).dist, q) <= dist_at(b.dist, q),
{
    let nb = neighbor(p, k);
    let t = relax_by(g, b, nb, c, true);
    lemma_relax_by(g, b, nb, c, true);
    lemma_neighbor_adjacent(p, k);
    assert(forall|q: Pos| in_bounds(g, q) ==> #[trigger] dist_at(b.dist, q) >= -1);
    if can_enter(g, b.dist, nb) {
        assert(t.frontier.subrange(0, a.frontier.len() as int) =~= a.frontier) by {
            assert(b.frontier.subrange(0, a.frontier.len() as int) == a.frontier);
        }
        assert(t.frontier[b.frontier.len() as int] == nb);
        assert forall|q: Pos| in_bounds(g, q) implies #[trigger] dist_at(t.dist, q) == dist_at(a.dist, q)
            || (dist_at(t.dist, q) == c && is_open(g, q) && adjacent(p, q)
                && (reached(a.dist, q) ==> c < dist_at(a.dist, q))
                && (!reached(a.dist, q) ==> a.frontier.len() < t.frontier.len() && t.frontier.contains(q))) by {
            if q == nb {
                assert(t.frontier[b.frontier.len() as int] == q);
            } else if dist_at(b.dist, q) != dist_at(a.dist, q) && !reached(a.dist, q) {
                let j = choose|j: int| 0 <= j < b.frontier.len() && b.frontier[j] == q;
                assert(t.frontier[j] == q);
            }
        }
        assert forall|j: int| a.frontier.len() <= j < t.frontier.len() implies in_bounds(g, #[trigger] t.frontier[j])
            && dist_at(t.dist, t.frontier[j]) == c && !reached(a.dist, t.frontier[j]) by {
            if j < b.frontier.len() {
                assert(t.frontier[j] == b.frontier[j]);
            }
        }
    } else {
        assert forall|j: int| a.frontier.len() <= j < t.frontier.len() implies in_bounds(g, #[trigger] t.frontier[j])
            && dist_at(t.dist, t.frontier[j]) == c && !reached(a.dist, t.frontier[j]) by {
            assert(dist_at(b.dist, b.frontier[j]) == c);
        }
    }
}

/// An A* round that does not stop at the goal keeps the invariant.
pub(crate) proof fn lemma_step_expand_a(g: Seq<Seq<char>>, start: Pos, goal: Pos, s: SearchState, taken: SearchState, p: Pos, c: i32)
    requires
        search_grid(g, start),
        inv(g, start, goal, true, s),
        !finished(s),
        p != goal,
        0 <= select(s, goal, true) < s.frontier.len(),
        p == s.frontier[select(s, goal, true)],
        is_least(g, start, s.dist, p),
        c == dist_at(s.dist, p) + 1,
        0 <= p.0 < i32::MAX,
        0 <= p.1 < i32::MAX,
        taken == (SearchState { frontier: s.frontier.remove(select(s, goal, true)), visited: s.visited + 1, ..s }),
        forall|j: int| 0 <= j < s.frontier.len() && j != select(s, goal, true) ==> taken.frontier.contains(#[trigger] s.frontier[j]),
        forall|j: int| 0 <= j < taken.frontier.len() ==> in_bounds(g, #[trigger] taken.frontier[j]) && reached(taken.dist, taken.frontier[j]),
    ensures
        inv(g, start, goal, true, step(g, goal, true, s)),
{
    let f = s.frontier;
    let l = dist_at(s.dist, p);
    let n = step(g, goal, true, s);
    let s1 = relax_by(g, taken, neighbor(p, 0), c, true);
    let s2 = relax_by(g, s1, neighbor(p, 1), c, true);
    let s3 = relax_by(g, s2, neighbor(p, 2), c, true);
    let s4 = relax_by(g, s3, neighbor(p, 3), c, true);
    assert(n == s4);
    assert(taken.frontier.subrange(0, taken.frontier.len() as int) =~= taken.frontier);
    assert(grows_a(g, taken, taken, p, c));
    lemma_grows_a_relax(g, taken, taken, p, 0, c);
    lemma_grows_a_relax(g, taken, s1, p, 1, c);
    lemma_grows_a_relax(g, taken, s2, p, 2, c);
    lemma_grows_a_relax(g, taken, s3, p, 3, c);
    assert forall|k: int| 0 <= k < 4 && is_open(g, neighbor(p, k)) implies reached(s4.dist, #[trigger] neighbor(p, k))
        && dist_at(s4.dist, neighbor(p, k)) <= c by {
        assert(dist_at(s.dist, neighbor(p, k)) >= -1);
    }
    assert(dist_at(s4.dist, p) == l);
    assert(dist_at(s4.dist, start) == 0);
    // bookkeeping
    assert forall|j: int| 0 <= j < s4.frontier.len() implies in_bounds(g, #[trigger] s4.frontier[j])
        && reached(s4.dist, s4.frontier[j]) by {
        if j < taken.frontier.len() {
            assert(s4.frontier[j] == s4.frontier.subrange(0, taken.frontier.len() as int)[j]);
        }
    }
    assert forall|q: Pos| in_bounds(g, q) implies -1 <= #[trigger] dist_at(s4.dist, q) < s4.frontier.len() + s4.visited by {}
    assert(inv_tables(g, s4));
    assert forall|q: Pos| in_bounds(g, q) && reached(s4.dist, q) implies reachable_in(g, start, q, #[trigger] dist_at(s4.dist, q) as nat) by {
        if dist_at(s4.dist, q) != dist_at(s.dist, q) {
            lemma_walk_extend(g, start, p, q, l as nat);
        }
    }
    // a cell that has left the frontier, other than p, had left it before and keeps its cost
    assert forall|a: Pos| a != p && in_bounds(g, a) && reached(s4.dist, a) && !s4.frontier.contains(a)
        implies #[trigger] reached(s.dist, a) && !f.contains(a) && dist_at(s4.dist, a) == dist_at(s.dist, a) by {
        if !reached(s.dist, a) {
            assert(s4.frontier.contains(a));
        }
        if f.contains(a) {
            let j = choose|j: int| 0 <= j < f.len() && f[j] == a;
            let m = choose|m: int| 0 <= m < taken.frontier.len() && taken.frontier[m] == a;
            assert(s4.frontier[m] == s4.frontier.subrange(0, taken.frontier.len() as int)[m]);
        }
        assert(is_least(g, start, s.dist, a));
        if dist_at(s4.dist, a) != dist_at(s.dist, a) {
            lemma_walk_extend(g, start, p, a, l as nat);
            assert(!reachable_in(g, start, a, (l + 1) as nat));
        }
    }
    assert forall|a: Pos, b: Pos|
        #![trigger adjacent(a, b), dist_at(s4.dist, a), dist_at(s4.dist, b)]
        in_bounds(g, a) && reached(s4.dist, a) && !s4.frontier.contains(a) && is_open(g, b) && adjacent(a, b)
        implies reached(s4.dist, b) && dist_at(s4.dist, b) <= dist_at(s4.dist, a) + 1 by {
        if a == p {
            lemma_adjacent_neighbor(p, b);
        } else {
            assert(reached(s.dist, a) && !f.contains(a));
            assert(dist_at(s.dist, a) == dist_at(s4.dist, a));
            assert(reached(s.dist, b) && dist_at(s.dist, b) <= dist_at(s.dist, a) + 1);
        }
    }
    assert(inv_tight(g, s4));
    assert forall|a: Pos| in_bounds(g, a) && reached(s4.dist, a) && !s4.frontier.contains(a)
        implies #[trigger] is_least(g, start, s4.dist, a) by {
        if a != p {
            assert(reached(s.dist, a) && !f.contains(a));
            assert(is_least(g, start, s.dist, a));
        }
    }
}

pub(crate) proof fn lemma_initial_inv(g: Seq<Seq<char>>, start: Pos, goal: Pos, a_star: bool)
    requires
        search_grid(g, start),
    ensures
        inv(g, start, goal, a_star, initial(g, start)),
{
    let s = initial(g, start);
    let t = unreached_table(g);
    assert(table_fits(g, t));
    lemma_set_dist(g, t, start, 0);
    lemma_table_all_unreached(g, g.len());
    assert(t.subrange(0, g.len() as int) =~= t);
    assert(g[start.0 as int].len() == g[0].len());
    lemma_set_dist_count(t, start, 0);
    assert(g.len() * g[0].len() == cell_count(g));
    assert forall|p: Pos| in_bounds(g, p) implies -1 <= #[trigger] dist_at(s.dist, p) < s.frontier.len() + s.visited by {}
    let w0 = seq![start];
    assert(is_walk(g, w0));
    assert(reachable_in(g, start, start, 0));
    assert forall|p: Pos| in_bounds(g, p) && reached(s.dist, p) implies reachable_in(g, start, p, #[trigger] dist_at(s.dist, p) as nat) by {}
    assert forall|p: Pos, q: Pos|
        #![trigger adjacent(p, q), dist_at(s.dist, p), dist_at(s.dist, q)]
        in_bounds(g, p) && reached(s.dist, p) && !s.frontier.contains(p) && is_open(g, q) && adjacent(p, q)
        implies reached(s.dist, q) by {
        assert(s.frontier[0] == start);
    }
    assert forall|p: Pos, k: nat| in_bounds(g, p) && k <= dist_at(s.dist, s.frontier[0]) && #[trigger] reachable_in(g, start, p, k)
        implies reached(s.dist, p) by {
        let w = choose|w: Seq<Pos>| is_walk(g, w) && w.len() == k + 1 && w[0] == start && w.last() == p;
    }
}

/// Every state a search passes through keeps the invariant.
pub(crate) proof fn lemma_run_inv(g: Seq<Seq<char>>, start: Pos, goal: Pos, a_star: bool, n: nat)
    requires
        search_grid(g, start),
    ensures
        inv(g, start, goal, a_star, run(g, goal, a_star, initial(g, start), n)),
    decreases n,
{
    if n == 0 {
        lemma_initial_inv(g, start, goal, a_star);
    } else {
        lemma_run_inv(g, start, goal, a_star, (n - 1) as nat);
        let t = run(g, goal, a_star, initial(g, start), (n - 1) as nat);
        if !finished(t) {
            lemma_step_inv(g, start, goal, a_star, t);
        }
    }
}

/// When the frontier runs out, every cell reachable from the start is reached.
pub(crate) proof fn lemma_closed(g: Seq<Seq<char>>, start: Pos, s: SearchState, q: Pos, k: nat)
    requires
        search_grid(g, start),
        s.frontier.len() == 0,
        inv_expanded(g, s),
        reached(s.dist, start),
        reachable_in(g, start, q, k),
    ensures
        reached(s.dist, q),
    decreases k,
{
    if k == 0 {
        let w = choose|w: Seq<Pos>| is_walk(g, w) && w.len() == k + 1 && w[0] == start && w.last() == q;
    } else {
        let prev = lemma_walk_prefix(g, start, q, k);
        lemma_closed(g, start, s, prev, (k - 1) as nat);
        assert(!s.frontier.contains(prev));
        assert(dist_at(s.dist, prev) >= 0 && dist_at(s.dist, q) >= -1);
    }
}

/// What the final state of a search gives: the count is bounded by the
/// number of cells, and the goal cost is the least number of moves, or `-1`
/// exactly when the goal is unreachable.
pub(crate) proof fn lemma_outcome(g: Seq<Seq<char>>, start: Pos, goal: Pos, a_star: bool)
    requires
        search_grid(g, start),
        in_bounds(g, goal),
    ensures
        ({
            let (cost, visited) = outcome(g, start, goal, a_star);
            &&& visited <= cell_count(g)
            &&& cost >= -1
            &&& cost == -1 <==> !reachable(g, start, goal)
            &&& cost >= 0 ==> reachable_in(g, start, goal, cost as nat)
            &&& is_shortest_cost(g, start, goal, cost)
        }),
{
    let f = run(g, goal, a_star, initial(g, start), cell_count(g));
    lemma_run_inv(g, start, goal, a_star, cell_count(g));
    lemma_run_finishes(g, start, goal, a_star);
    assert(reached(f.dist, start)) by {
        lemma_run_reached_start(g, start, goal, a_star, cell_count(g));
    }
    let cost = dist_at(f.dist, goal);
    assert(cost >= -1);
    if reachable(g, start, goal) {
        let k = choose|k: nat| reachable_in(g, start, goal, k);
        if !f.done {
            lemma_closed(g, start, f, goal, k);
        }
    }
    if cost >= 0 {
        assert(reachable_in(g, start, goal, cost as nat));
        if a_star {
            if !f.done {
                assert(!f.frontier.contains(goal));
            }
            assert(is_least(g, start, f.dist, goal));
        }
    }
}

pub(crate) proof fn lemma_run_reached_start(g: Seq<Seq<char>>, start: Pos, goal: Pos, a_star: bool, n: nat)
    requires
        search_grid(g, start),
    ensures
        dist_at(run(g, goal, a_star, initial(g, start), n).dist, start) == 0,
    decreases n,
{
    if n == 0 {
        lemma_set_dist(g, unreached_table(g), start, 0);
    } else {
        lemma_run_reached_start(g, start, goal, a_star, (n - 1) as nat);
        lemma_run_inv(g, start, goal, a_star, (n - 1) as nat);
        let t = run(g, goal, a_star, initial(g, start), (n - 1) as nat);
        if !finished(t) {
            lemma_step_keeps_reached(g, start, goal, a_star, t, start);
        }
    }
}

pub(crate) proof fn lemma_step_keeps_reached(g: Seq<Seq<char>>, start: Pos, goal: Pos, a_star: bool, s: SearchState, q: Pos)
    requires
        search_grid(g, start),
        inv(g, start, goal, a_star, s),
        !finished(s),
        in_bounds(g, q),
        dist_at(s.dist, q) == 0,
    ensures
        dist_at(step(g, goal, a_star, s).dist, q) == 0,
{
    let i = select(s, goal, a_star);
    if a_star {
        lemma_best_index_range(s.dist, goal, s.frontier, s.frontier.len());
    }
    let p = s.frontier[i];
    lemma_in_bounds_range(g, p);
    let c = (dist_at(s.dist, p) + 1) as i32;
    let taken = SearchState { frontier: s.frontier.remove(i), visited: s.visited + 1, ..s };
    if p != goal {
        let s1 = relax_by(g, taken, neighbor(p, 0), c, a_star);
        let s2 = relax_by(g, s1, neighbor(p, 1), c, a_star);
        let s3 = relax_by(g, s2, neighbor(p, 2), c, a_star);
        lemma_relax_by(g, taken, neighbor(p, 0), c, a_star);
        lemma_relax_by(g, s1, neighbor(p, 1), c, a_star);
        lemma_relax_by(g, s2, neighbor(p, 2), c, a_star);
        lemma_relax_by(g, s3, neighbor(p, 3), c, a_star);
    }
}

/// A search stops within one round per cell.
pub(crate) proof fn lemma_run_finishes(g: Seq<Seq<char>>, start: Pos, goal: Pos, a_star: bool)
    requires
        search_grid(g, start),
    ensures
        finished(run(g, goal, a_star, initial(g, start), cell_count(g))),
{
    lemma_run_counts(g, start, goal, a_star, cell_count(g));
    let f = run(g, goal, a_star, initial(g, start), cell_count(g));
    lemma_run_inv(g, start, goal, a_star, cell_count(g));
}

/// Until it stops, a search counts one cell per round.
pub(crate) proof fn lemma_run_counts(g: Seq<Seq<char>>, start: Pos, goal: Pos, a_star: bool, n: nat)
    requires
        search_grid(g, start),
    ensures
        finished(run(g, goal, a_star, initial(g, start), n)) || run(g, goal, a_star, initial(g, start), n).visited == n,
    decreases n,
{
    if n > 0 {
        lemma_run_counts(g, start, goal, a_star, (n - 1) as nat);
        let t = run(g, goal, a_star, initial(g, start), (n - 1) as nat);
        if !finished(t) {
            lemma_run_inv(g, start, goal, a_star, (n - 1) as nat);
            lemma_step_visited(g, start, goal, a_star, t);
        }
    }
}

pub(crate) proof fn lemma_step_visited(g: Seq<Seq<char>>, start: Pos, goal: Pos, a_star: bool, s: SearchState)
    requires
        search_grid(g, start),
        inv(g, start, goal, a_star, s),
        !finished(s),
    ensures
        step(g, goal, a_star, s).visited == s.visited + 1,
{
    let i = select(s, goal, a_star);
    if a_star {
        lemma_best_index_range(s.dist, goal, s.frontier, s.frontier.len());
    }
    let p = s.frontier[i];
    lemma_in_bounds_range(g, p);
    let c = (dist_at(s.dist, p) + 1) as i32;
    let taken = SearchState { frontier: s.frontier.remove(i), visited: s.visited + 1, ..s };
    if p != goal {
        let s1 = relax_by(g, taken, neighbor(p, 0), c, a_star);
        let s2 = relax_by(g, s1, neighbor(p, 1), c, a_star);
        let s3 = relax_by(g, s2, neighbor(p, 2), c, a_star);
        lemma_relax_by(g, taken, neighbor(p, 0), c, a_star);
        lemma_relax_by(g, s1, neighbor(p, 1), c, a_star);
        lemma_relax_by(g, s2, neighbor(p, 2), c, a_star);
        lemma_relax_by(g, s3, neighbor(p, 3), c, a_star);
    }
}

/// When the start is the goal, a search takes out just that cell at cost 0.
pub(crate) proof fn lemma_start_is_goal(g: Seq<Seq<char>>, start: Pos, a_star: bool)
    requires
        search_grid(g, start),
    ensures
        outcome(g, start, start, a_star) == (0int, 1nat),
{
    let init = initial(g, start);
    lemma_set_dist(g, unreached_table(g), start, 0);
    assert(select(init, start, a_star) == 0);
    assert(init.frontier.remove(0) =~= Seq::<Pos>::empty());
    assert(run(g, start, a_star, init, 0) == init);
    assert(!finished(init));
    let one = run(g, start, a_star, init, 1);
    assert(one == step(g, start, a_star, init));
    assert(one.done && one.visited == 1 && one.dist == init.dist);
    assert(g.len() * g[0].len() >= 1) by (nonlinear_arith)
        requires g.len() >= 1, g[0].len() >= 1;
    lemma_run_stays(g, start, a_star, init, 1, cell_count(g));
}

pub(crate) proof fn lemma_row_unreached_eq(a: Seq<i32>, b: Seq<i32>)
    requires
        a.len() == b.len(),
        forall|i: int| 0 <= i < a.len() ==> (a[i] == -1) == (b[i] == -1),
    ensures
        row_unreached(a) == row_unreached(b),
    decreases a.len(),
{
    if a.len() > 0 {
        lemma_row_unreached_eq(a.drop_last(), b.drop_last());
    }
}

/// Two tables of one shape with the same unreached cells count alike.
pub(crate) proof fn lemma_table_unreached_eq(d1: Seq<Seq<i32>>, d2: Seq<Seq<i32>>)
    requires
        d1.len() == d2.len(),
        forall|r: int| 0 <= r < d1.len() ==> #[trigger] d1[r].len() == d2[r].len(),
        forall|r: int, c: int| 0 <= r < d1.len() && 0 <= c < d1[r].len() ==> (#[trigger] d1[r][c] == -1) == (d2[r][c] == -1),
    ensures
        table_unreached(d1) == table_unreached(d2),
    decreases d1.len(),
{
    if d1.len() > 0 {
        let last = d1.len() - 1;
        assert(d1[last].len() == d2[last].len());
        assert forall|i: int| 0 <= i < d1[last].len() implies (d1[last][i] == -1) == (d2[last][i] == -1) by {
            assert(d1[last][i] == -1 <==> d2[last][i] == -1);
        }
        lemma_row_unreached_eq(d1.last(), d2.last());
        let e1 = d1.drop_last();
        let e2 = d2.drop_last();
        assert forall|r: int, c: int| 0 <= r < e1.len() && 0 <= c < e1[r].len() implies (#[trigger] e1[r][c] == -1) == (e2[r][c] == -1) by {
            assert(d1[r][c] == -1 <==> d2[r][c] == -1);
        }
        lemma_table_unreached_eq(e1, e2);
    }
}

/// When the goal cannot be reached, a search reaches exactly the cells
/// reachable from the start and takes out each of them.
pub(crate) proof fn lemma_exhausted(g: Seq<Seq<char>>, start: Pos, goal: Pos, a_star: bool)
    requires
        search_grid(g, start),
        in_bounds(g, goal),
        !reachable(g, start, goal),
    ensures
        ({
            let f = run(g, goal, a_star, initial(g, start), cell_count(g));
            &&& table_fits(g, f.dist)
            &&& f.visited + table_unreached(f.dist) == cell_count(g)
            &&& forall|p: Pos| in_bounds(g, p) ==> (#[trigger] dist_at(f.dist, p) == -1 <==> !reachable(g, start, p))
        }),
{
    let f = run(g, goal, a_star, initial(g, start), cell_count(g));
    lemma_run_inv(g, start, goal, a_star, cell_count(g));
    lemma_run_finishes(g, start, goal, a_star);
    lemma_run_reached_start(g, start, goal, a_star, cell_count(g));
    assert(!f.done) by {
        if f.done {
            assert(reachable_in(g, start, goal, dist_at(f.dist, goal) as nat));
        }
    }
    assert forall|p: Pos| in_bounds(g, p) implies (#[trigger] dist_at(f.dist, p) == -1 <==> !reachable(g, start, p)) by {
        if reachable(g, start, p) {
            let k = choose|k: nat| reachable_in(g, start, p, k);
            lemma_closed(g, start, f, p, k);
        }
        if dist_at(f.dist, p) >= 0 {
            assert(reachable_in(g, start, p, dist_at(f.dist, p) as nat));
        }
    }
}

/// Both searches take out the same number of cells when the goal cannot be
/// reached.
pub(crate) proof fn lemma_exhausted_counts(g: Seq<Seq<char>>, start: Pos, goal: Pos)
    requires
        search_grid(g, start),
        in_bounds(g, goal),
        !reachable(g, start, goal),
    ensures
        outcome(g, start, goal, false).1 == outcome(g, start, goal, true).1,
{
    let f1 = run(g, goal, false, initial(g, start), cell_count(g));
    let f2 = run(g, goal, true, initial(g, start), cell_count(g));
    lemma_exhausted(g, start, goal, false);
    lemma_exhausted(g, start, goal, true);
    assert forall|r: int| 0 <= r < f1.dist.len() implies #[trigger] f1.dist[r].len() == f2.dist[r].len() by {}
    assert forall|r: int, c: int| 0 <= r < f1.dist.len() && 0 <= c < f1.dist[r].len() implies (#[trigger] f1.dist[r][c] == -1) == (f2.dist[r][c] == -1) by {
        let p = (r as i32, c as i32);
        lemma_in_bounds_range(g, (r as i32, c as i32));
        assert(dist_at(f1.dist, p) == -1 <==> !reachable(g, start, p));
        assert(dist_at(f2.dist, p) == -1 <==> !reachable(g, start, p));
    }
    lemma_table_unreached_eq(f1.dist, f2.dist);
}

} // verus!
