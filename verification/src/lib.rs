//! Bounded multi-source shortest paths on sparse directed graphs with
//! non-negative edge weights, with machine-checked contracts.
//!
//! Weights and distances are unsigned 64-bit integers.  `graph::INFINITY`
//! stands for "no path"; sums that do not fit saturate to it.
//!
//! - `graph`: the adjacency-list graph and its random generator.
//! - `paths`: walks, their lengths, shortest distances.
//! - `relaxation`: what a bounded exploration from one vertex computes.
//! - `pivots`, `recursion`: the pivot search and the recursive procedure
//!   as functions on plain values.
//! - `core_algorithm`: the procedure itself and its entry points.
//! - `params`: the tuning parameters as functions of the vertex count.
//! - `partial_sort`: the block-structured partial order.
//! - `heap`, `vertex_set`: the priority queue and the ordered vertex sets
//!   that the procedure works with.
//! - `improved_sssp`, `improved_sssp_v2`: two single-source variants.

pub mod core_algorithm;
pub mod graph;
pub mod heap;
pub mod improved_sssp;
pub mod improved_sssp_v2;
pub mod params;
pub mod partial_sort;
pub mod paths;
pub mod pivots;
pub mod recursion;
pub mod relaxation;
pub mod vertex_set;
