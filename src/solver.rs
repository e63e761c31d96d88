//! From a maze to the results of both searches, with the maze checked first.

use vstd::prelude::*;
use crate::grid::{Pos, find_position, is_first_occurrence, is_rectangular, occurs_before_row};
use crate::model::{a_star_outcome, bfs_outcome};
use crate::search::{a_star_bfs, normal_bfs};

verus! {

/// Why a maze cannot be searched.
#[derive(Debug, Clone, Copy, PartialEq, Eq)]
pub enum MazeError {
    /// No rows, or a first row without cells.
    Empty,
    /// Rows of different lengths.
    Jagged,
    /// More cells than costs in `i32` can count.
    TooLarge,
    /// No `S` in the maze.
    MissingStart,
    /// No `G` in the maze.
    MissingGoal,
}

/// The size of a maze, where its markers are, and what each search found.
#[derive(Debug, Clone, Copy, PartialEq, Eq)]
pub struct Report {
    pub height: i32,
    pub width: i32,
    pub start: Pos,
    pub goal: Pos,
    pub bfs: (i32, u32),
    pub a_star: (i32, u32),
}

pub const START_MARK: char = 'S';
pub const GOAL_MARK: char = 'G';

pub open spec fn has_mark(g: Seq<Seq<char>>, m: char) -> bool {
    occurs_before_row(g, m, g.len() as int)
}

/// The first check that a maze fails, if any: empty, jagged, too large,
/// without a start, without a goal, in that order.
pub open spec fn maze_error(g: Seq<Seq<char>>) -> Option<MazeError> {
    if g.len() == 0 || g[0].len() == 0 {
        Some(MazeError::Empty)
    } else if !is_rectangular(g) {
        Some(MazeError::Jagged)
    } else if g.len() * g[0].len() > i32::MAX {
        Some(MazeError::TooLarge)
    } else if !has_mark(g, START_MARK) {
        Some(MazeError::MissingStart)
    } else if !has_mark(g, GOAL_MARK) {
        Some(MazeError::MissingGoal)
    } else {
        None
    }
}

fn rows_of_equal_length(maze: &Vec<Vec<char>>) -> (r: bool)
    requires
        maze@.len() > 0,
    ensures
        r == forall|i: int| 0 <= i < maze@.len() ==> #[trigger] maze@[i]@.len() == maze@[0]@.len(),
{
    let w = maze[0].len();
    let mut i: usize = 1;
    while i < maze.len()
        invariant
            1 <= i <= maze@.len(),
            w == maze@[0]@.len(),
            forall|k: int| 0 <= k < i ==> #[trigger] maze@[k]@.len() == w,
        decreases maze@.len() - i,
    {
        if maze[i].len() != w {
            return false;
        }
        i += 1;
    }
    true
}

/// Checks the maze, finds the first `S` and the first `G`, and runs both
/// searches between them.
pub fn solve(maze: &Vec<Vec<char>>) -> (r: Result<Report, MazeError>)
    ensures
        match r {
            Err(e) => maze_error(maze.deep_view()) == Some(e),
            Ok(rep) => {
                let g = maze.deep_view();
                &&& maze_error(g).is_none()
                &&& rep.height == g.len() && rep.width == g[0].len()
                &&& is_first_occurrence(g, START_MARK, rep.start)
                &&& is_first_occurrence(g, GOAL_MARK, rep.goal)
                &&& (rep.bfs.0 as int, rep.bfs.1 as nat) == bfs_outcome(g, rep.start, rep.goal)
                &&& (rep.a_star.0 as int, rep.a_star.1 as nat) == a_star_outcome(g, rep.start, rep.goal)
            },
        },
{
    let ghost g = maze.deep_view();
    if maze.len() == 0 || maze[0].len() == 0 {
        return Err(MazeError::Empty);
    }
    assert(g[0] == maze@[0]@);
    let rect = rows_of_equal_length(maze);
    assert(rect == is_rectangular(g)) by {
        assert forall|i: int| 0 <= i < g.len() implies #[trigger] g[i] == maze@[i]@ by {}
        if rect {
            assert forall|i: int| 0 <= i < g.len() implies #[trigger] g[i].len() == g[0].len() by {
                assert(maze@[i]@.len() == maze@[0]@.len());
            }
        } else {
            let i = choose|i: int| 0 <= i < maze@.len() && #[trigger] maze@[i]@.len() != maze@[0]@.len();
            assert(g[i].len() != g[0].len());
        }
    }
    if !rect {
        return Err(MazeError::Jagged);
    }
    let hu = maze.len();
    let wu = maze[0].len();
    if hu > i32::MAX as usize || wu > i32::MAX as usize {
        assert(hu * wu >= hu && hu * wu >= wu) by (nonlinear_arith)
            requires hu >= 1, wu >= 1;
        return Err(MazeError::TooLarge);
    }
    assert(hu * wu <= i32::MAX * i32::MAX) by (nonlinear_arith)
        requires hu <= i32::MAX, wu <= i32::MAX;
    if (hu as u64) * (wu as u64) > i32::MAX as u64 {
        return Err(MazeError::TooLarge);
    }
    let start = match find_position(maze, &START_MARK) {
        Some(p) => p,
        None => { return Err(MazeError::MissingStart); },
    };
    let goal = match find_position(maze, &GOAL_MARK) {
        Some(p) => p,
        None => { return Err(MazeError::MissingGoal); },
    };
    let h = hu as i32;
    let w = wu as i32;
    let bfs = normal_bfs(maze, h, w, start, goal);
    let a_star = a_star_bfs(maze, h, w, start, goal);
    Ok(Report { height: h, width: w, start, goal, bfs, a_star })
}

} // verus!
