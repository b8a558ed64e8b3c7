//! Multi-level bi-objective routing: a CSR graph with two costs per edge,
//! Pareto-frontier utilities, the exact lexicographic label-setting searches
//! (BOA* and bi-objective Dijkstra), and the Multi-level Encoded Pareto
//! Frontier View with its online retrievals, each proved to return the
//! complete Pareto frontier of walk costs.

pub mod baseline;
pub mod boundary;
pub mod cost;
pub mod dimacs;
pub mod fragments;
pub mod graph;
pub mod label_setting;
pub mod parallel;
pub mod pareto;
pub mod precompute;
pub mod regions;
pub mod relations;
pub mod walks;
pub mod workload;

pub use baseline::{boa_star, bod};
pub use cost::Cost;
pub use graph::Graph;
pub use label_setting::{pareto_costs, pareto_search, ParetoPath};
pub use dimacs::parse_partition;
pub use pareto::{insert_nondominated, minkowski_sum, pareto_filter};
pub use precompute::{contiguous_partition, AdvStats, Mepfv};
pub use regions::bfs_partition;
