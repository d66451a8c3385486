//! Directed graphs over string labels and all-pairs reachability.
//!
//! [`model`] holds the mathematical model: an adjacency map and the rules by
//! which edges enter it. [`graph`] is the store that keeps a graph in that
//! shape, with its vertices in the label order of [`label`]. [`reach`]
//! decides whether one vertex can be reached from another, and [`matrix`]
//! tabulates direct adjacency and reachability over all ordered pairs.
//! [`random`] fills a graph with random edges over capital letters.

pub mod graph;
pub mod label;
pub mod matrix;
pub mod model;
pub mod random;
pub mod reach;
