//! Shortest paths on a uniform two-dimensional grid, with a replayable
//! record of the order in which the search explored the cells.
//!
//! `grid` numbers the cells and lists their neighbours, `frontier` holds
//! the cells that wait to be expanded, `pathfinding` is the search.
//! `model` says what a search computes, `laws` what follows for every
//! outcome, and `progress` holds the invariant from which it follows.

pub mod frontier;
pub mod grid;
pub mod laws;
pub mod model;
pub mod pathfinding;
pub mod progress;
