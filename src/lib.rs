//! Shortest-path search on rectangular character mazes.
//!
//! A maze is a grid of characters in which `#` marks a wall and every other
//! character is an open tile. Two searches run from a start cell to a goal
//! cell over unit-cost moves between 4-neighbours: a breadth-first search and
//! an A* search guided by the Manhattan distance. Each reports the number of
//! moves it found (`-1` when the goal was never reached) and the number of
//! tiles it took out of its frontier.

pub mod grid;
pub mod model;
pub mod search_facts;
pub mod search;
pub mod laws;
pub mod solver;
