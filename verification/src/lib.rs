//! Shortest-path search on uniform two-dimensional grids.
//!
//! Two interchangeable engines search a map of the `movingai` crate: a
//! classical best-first search ([`a_star_path`]) and a jump point search
//! ([`jps_path`]). Both return a [`Route`]: the distance to travel and the
//! cells of the path, the goal first.
//!
//! Costs are fixed-point numbers with 32 fractional bits (see [`cost`]).
//!
//! The modules, leaves first: [`cost`] holds the metric, [`grid`] the map,
//! [`node`] the search nodes, [`route`] the result, [`utils`] directions and
//! the walk back along parent links, [`frontier`] the open set, [`walk`] what
//! holds of paths. [`astar`] and [`jps`] hold the engines; [`potential`],
//! [`shortest`], [`astar_state`] and [`jps_state`] hold what their proofs
//! rest on.

pub mod cost;
pub mod node;
pub mod route;
pub mod grid;
pub mod utils;
pub mod frontier;
pub mod walk;
pub mod shortest;
pub mod potential;
pub mod astar_state;
pub mod astar;
pub mod jps_state;
pub mod jps;

pub use astar::a_star_path;
pub use jps::jps_path;
pub use route::Route;
