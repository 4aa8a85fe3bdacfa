//! A grid-based shortest-path engine with two interchangeable search
//! strategies: classic A* and Jump Point Search (JPS), over a static 2D
//! occupancy grid under four- or eight-directional movement.
//!
//! Path costs are held exactly as `straight + diag * sqrt(2)` with two
//! integer counters, so cost comparison is exact and every search is
//! deterministic; no floating point is involved anywhere in the engine.
//! Both engines are proved to terminate on every input, so no step
//! budget is needed to bound a search.

pub mod astar;
pub mod cost;
pub mod direction;
pub mod frontier;
pub mod grid;
pub mod heuristic;
pub mod jps;
pub mod model;
pub mod path;
pub mod point;
pub mod search;
