// Structural analysis of arguments: a graph of propositions and the relationships between
// them, checked for contradictions, dependency cycles, fallacies and cognitive biases, with
// a dependency order of the propositions and the counts their robustness scores rest on.

pub mod types;
pub mod text;
pub mod parse;
pub mod variables;
pub mod cycle_detection;
pub mod topo_sort;
pub mod centrality;
pub mod contradiction;
pub mod fallacy_detector;
pub mod bias_detector;
pub mod argument_scorer;
pub mod laws;
