//! A solver for the sliding-tile puzzle on a square grid: boards and their
//! moves, the spiral goal, three distance estimates and a best-first search.

pub mod astar;
pub mod equality;
pub mod heuristic;
pub mod node;
pub mod parity;
pub mod random;
pub mod render;
pub mod spiral;
