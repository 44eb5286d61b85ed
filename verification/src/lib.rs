//! K-coloring of undirected simple graphs by stochastic local search.
//!
//! A [`graph::Graph`] stores symmetric adjacency lists; the solver assigns
//! each node one of `k` colors so that no edge joins two same-colored nodes,
//! within a bounded step budget, and the validator confirms a coloring.

pub mod graph;
pub mod random;
pub mod solver;

pub use graph::Graph;
