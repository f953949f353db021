//! Contraction hierarchies for shortest-path queries on static, directed road
//! networks with non-negative integer edge costs.

pub mod bi_dijkstra;
pub mod bidirectional_graph;
pub mod binary_heap;
pub mod bucket_queue;
pub mod ch_dijkstra;
pub mod clock;
pub mod contraction;
pub mod contractor;
pub mod course;
pub mod dijkstra;
pub mod dijkstra_helper;
pub mod fast_graph;
pub mod fmi_reader;
pub mod graph;
pub mod graph_cleaner;
pub mod hashing;
pub mod heuristic;
pub mod investigation;
pub mod hierarchy;
pub mod landmark;
pub mod landmark_heuristic;
pub mod laws;
pub mod paths;
pub mod planner;
pub mod priority_term;
pub mod queue;
pub mod rows;
pub mod search;
pub mod shortcut_generator;
pub mod shuffle;
pub mod state;
pub mod test_file_reader;
pub mod text;
pub mod trail;
