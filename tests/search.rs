use maze_search::grid::{find_position, heuristic_cost};
use maze_search::search::{a_star_bfs, normal_bfs};
use maze_search::solver::{solve, MazeError};

fn grid(rows: &[&str]) -> Vec<Vec<char>> {
    rows.iter().map(|r| r.chars().collect()).collect()
}

fn both(rows: &[&str], start: (i32, i32), goal: (i32, i32)) -> ((i32, u32), (i32, u32)) {
    let m = grid(rows);
    let h = m.len() as i32;
    let w = m[0].len() as i32;
    (normal_bfs(&m, h, w, start, goal), a_star_bfs(&m, h, w, start, goal))
}

#[test]
fn sample_maze_costs_five() {
    let (b, a) = both(&["S..#", ".#..", "...G"], (0, 0), (2, 3));
    assert_eq!(b.0, 5);
    assert_eq!(a.0, 5);
    assert!(a.1 <= b.1);
    assert_eq!(b, (5, 10));
    assert_eq!(a, (5, 6));
}

#[test]
fn start_equal_to_goal() {
    let (b, a) = both(&["...", ".S.", "..."], (1, 1), (1, 1));
    assert_eq!(b, (0, 1));
    assert_eq!(a, (0, 1));
}

#[test]
fn walled_off_goal_is_unreachable() {
    let rows = ["S..#...", "...#.G.", "...#..."];
    let (b, a) = both(&rows, (0, 0), (1, 5));
    assert_eq!(b.0, -1);
    assert_eq!(a.0, -1);
    // every open cell on the start side is taken out
    assert_eq!(b.1, 9);
    assert_eq!(a.1, 9);
}

#[test]
fn enclosed_goal_is_unreachable() {
    let (b, a) = both(&["S....", ".###.", ".#G#.", ".###.", "....."], (0, 0), (2, 2));
    assert_eq!(b.0, -1);
    assert_eq!(a.0, -1);
}

#[test]
fn searches_repeat_exactly() {
    let rows = ["S....#", ".##..#", "...#..", "#.....", "..#.#G"];
    let first = both(&rows, (0, 0), (4, 5));
    let second = both(&rows, (0, 0), (4, 5));
    assert_eq!(first, second);
}

#[test]
fn costs_agree_on_open_maze() {
    let (b, a) = both(&["S.....", "......", "......", ".....G"], (0, 0), (3, 5));
    assert_eq!(b.0, 8);
    assert_eq!(a.0, 8);
    assert!(a.1 <= b.1);
}

#[test]
fn costs_agree_around_a_wall() {
    let (b, a) = both(&["S.#..", "..#..", "..#..", ".....", "..#.G"], (0, 0), (4, 4));
    assert_eq!(b.0, 8);
    assert_eq!(a.0, 8);
    assert!(a.1 <= b.1);
}

#[test]
fn a_star_lowers_cost_on_cheaper_route() {
    let (b, a) = both(&["#.....", "..#..."], (0, 5), (1, 1));
    assert_eq!(b, (5, 9));
    assert_eq!(a, (5, 9));
}

#[test]
fn a_star_least_cost_after_equal_priority_choice() {
    let rows = ["###...G", "###.###", "##...##", "##.#.##", "##S..##"];
    let (b, a) = both(&rows, (4, 2), (0, 6));
    assert_eq!(b, (8, 13));
    assert_eq!(a, (8, 13));
}

#[test]
fn extra_wall_does_not_lower_a_star_cost() {
    let (_, open) = both(&["###...G", "###.###", "##...##", "##.#.##", "##S..##"], (4, 2), (0, 6));
    let (b, walled) = both(&["###...G", "###.###", "##...##", "##.#.##", "##S#.##"], (4, 2), (0, 6));
    assert_eq!(b, (8, 12));
    assert_eq!(walled, (8, 10));
    assert!(walled.0 >= open.0);
}

#[test]
fn single_cell_maze() {
    let (b, a) = both(&["S"], (0, 0), (0, 0));
    assert_eq!(b, (0, 1));
    assert_eq!(a, (0, 1));
}

#[test]
fn wall_start_still_searches_out() {
    let (b, a) = both(&["#.G"], (0, 0), (0, 2));
    assert_eq!(b.0, 2);
    assert_eq!(a.0, 2);
}

#[test]
fn heuristic_is_manhattan() {
    assert_eq!(heuristic_cost(&(0, 0), &(2, 3)), 5);
    assert_eq!(heuristic_cost(&(4, 1), &(1, 6)), 8);
    assert_eq!(heuristic_cost(&(3, 3), &(3, 3)), 0);
    assert_eq!(heuristic_cost(&(-2, 5), &(2, -5)), 14);
}

#[test]
fn find_position_first_in_reading_order() {
    let m = grid(&["..x.", "x...", "...x"]);
    assert_eq!(find_position(&m, &'x'), Some((0, 2)));
    let m = grid(&["....", "..Gx", "G..."]);
    assert_eq!(find_position(&m, &'G'), Some((1, 2)));
}

#[test]
fn find_position_missing() {
    let m = grid(&["S..", "..."]);
    assert_eq!(find_position(&m, &'G'), None);
    let empty: Vec<Vec<char>> = Vec::new();
    assert_eq!(find_position(&empty, &'S'), None);
}

#[test]
fn solve_sample_maze() {
    let r = solve(&grid(&["S..#", ".#..", "...G"])).unwrap();
    assert_eq!((r.height, r.width), (3, 4));
    assert_eq!(r.start, (0, 0));
    assert_eq!(r.goal, (2, 3));
    assert_eq!(r.bfs, (5, 10));
    assert_eq!(r.a_star, (5, 6));
}

#[test]
fn solve_rejects_empty() {
    let empty: Vec<Vec<char>> = Vec::new();
    assert_eq!(solve(&empty), Err(MazeError::Empty));
    assert_eq!(solve(&vec![Vec::new()]), Err(MazeError::Empty));
}

#[test]
fn solve_rejects_jagged() {
    assert_eq!(solve(&grid(&["S..", "..", "..G"])), Err(MazeError::Jagged));
}

#[test]
fn solve_rejects_missing_markers() {
    assert_eq!(solve(&grid(&["...", "..G"])), Err(MazeError::MissingStart));
    assert_eq!(solve(&grid(&["S..", "..."])), Err(MazeError::MissingGoal));
}

#[test]
fn solve_reports_unreachable_goal() {
    let r = solve(&grid(&["S#.", "##.", "..G"])).unwrap();
    assert_eq!(r.bfs.0, -1);
    assert_eq!(r.a_star.0, -1);
    assert_eq!(r.bfs.1, 1);
}
