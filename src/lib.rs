//! A wave function collapse solver: a dense 3-D grid of cells, per-cell sets of
//! candidate tiles, compiled adjacency rules and the propagation loop that ties
//! them together.

pub mod cube_grid;
pub mod set_rule;
pub mod solver;
pub mod state;
