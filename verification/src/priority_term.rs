//! The terms that make up the priority of a node in the contraction queue.

pub mod cost_of_queries_priority;
pub mod deleted_neighbors_priority;
pub mod edge_difference_priority;
pub mod priority_terms;
pub mod voronoi_region;
