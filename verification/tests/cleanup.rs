use route_planner::bidirectional_graph::BidirectionalGraph;
use route_planner::graph::Edge;
use route_planner::graph_cleaner::deduplicate_row;
use route_planner::graph_cleaner::remove_edge_to_self;
use route_planner::graph_cleaner::removing_double_edges;

fn edge(source: u32, target: u32, cost: u32) -> Edge {
    Edge { source, target, cost }
}

fn store(edges: &[(u32, u32, u32)]) -> BidirectionalGraph {
    let mut graph = BidirectionalGraph::new();
    for &(source, target, cost) in edges {
        graph.add_edge(edge(source, target, cost));
    }
    graph
}

#[test]
fn parallel_edges_keep_the_minimum_cost() {
    let mut graph = store(&[(0, 1, 5), (0, 1, 3), (0, 1, 4), (1, 0, 2)]);
    removing_double_edges(&mut graph);
    assert_eq!(graph.outgoing_edges[0], vec![edge(0, 1, 3)]);
    assert_eq!(graph.incoming_edges[1], vec![edge(0, 1, 3)]);
    assert_eq!(graph.outgoing_edges[1], vec![edge(1, 0, 2)]);
    assert_eq!(graph.incoming_edges[0], vec![edge(1, 0, 2)]);
}

#[test]
fn of_equal_parallel_edges_one_stays() {
    let mut graph = store(&[(0, 1, 3), (0, 2, 1), (0, 1, 3), (0, 1, 3)]);
    removing_double_edges(&mut graph);
    assert_eq!(graph.outgoing_edges[0], vec![edge(0, 1, 3), edge(0, 2, 1)]);
    assert_eq!(graph.incoming_edges[1], vec![edge(0, 1, 3)]);
}

#[test]
fn the_first_of_the_cheapest_stays_in_its_place() {
    let mut row = vec![edge(0, 1, 4), edge(0, 2, 7), edge(0, 1, 2), edge(0, 2, 7), edge(0, 1, 2)];
    deduplicate_row(&mut row, true);
    assert_eq!(row, vec![edge(0, 2, 7), edge(0, 1, 2)]);
}

#[test]
fn no_self_loops_after_cleanup() {
    let mut graph = store(&[(0, 0, 1), (0, 1, 2), (1, 1, 0), (1, 0, 3), (2, 2, 9)]);
    remove_edge_to_self(&mut graph);
    for list in graph.outgoing_edges.iter().chain(graph.incoming_edges.iter()) {
        for e in list {
            assert_ne!(e.source, e.target);
        }
    }
    assert_eq!(graph.outgoing_edges[0], vec![edge(0, 1, 2)]);
    assert_eq!(graph.outgoing_edges[1], vec![edge(1, 0, 3)]);
    assert_eq!(graph.outgoing_edges[2], vec![]);
    assert_eq!(graph.incoming_edges[2], vec![]);
}

#[test]
fn edges_are_unique_after_cleanup() {
    let mut graph = store(&[(0, 1, 5), (0, 1, 5), (0, 2, 1), (0, 1, 6), (2, 1, 1), (2, 1, 0)]);
    removing_double_edges(&mut graph);
    remove_edge_to_self(&mut graph);
    for list in graph.outgoing_edges.iter().chain(graph.incoming_edges.iter()) {
        for (i, a) in list.iter().enumerate() {
            for (j, b) in list.iter().enumerate() {
                if i != j {
                    assert!(a.source != b.source || a.target != b.target);
                }
            }
        }
    }
}

#[test]
fn cleanup_is_idempotent() {
    let mut graph = store(&[
        (0, 1, 5),
        (0, 1, 3),
        (1, 1, 0),
        (1, 2, 4),
        (1, 2, 4),
        (2, 0, 7),
        (2, 2, 1),
        (2, 0, 6),
    ]);
    removing_double_edges(&mut graph);
    remove_edge_to_self(&mut graph);
    let once_out = graph.outgoing_edges.clone();
    let once_in = graph.incoming_edges.clone();
    removing_double_edges(&mut graph);
    remove_edge_to_self(&mut graph);
    assert_eq!(graph.outgoing_edges, once_out);
    assert_eq!(graph.incoming_edges, once_in);
    assert_eq!(once_out[0], vec![edge(0, 1, 3)]);
    assert_eq!(once_out[1], vec![edge(1, 2, 4)]);
    assert_eq!(once_out[2], vec![edge(2, 0, 6)]);
}

#[test]
fn cleanup_keeps_a_zero_cost_edge() {
    let mut graph = store(&[(0, 1, 1), (0, 1, 0), (0, 1, 2)]);
    removing_double_edges(&mut graph);
    assert_eq!(graph.outgoing_edges[0], vec![edge(0, 1, 0)]);
}

#[test]
fn the_store_tells_whether_it_is_well_formed() {
    let mut graph = store(&[(0, 1, 5), (2, 1, 1)]);
    assert!(graph.is_well_formed());
    assert_eq!(graph.node_count(), 3);
    graph.outgoing_edges[0].push(edge(1, 2, 3));
    assert!(!graph.is_well_formed());
    let mut graph = store(&[(0, 1, 5)]);
    graph.incoming_edges.pop();
    assert!(!graph.is_well_formed());
    let mut graph = store(&[(0, 1, 5)]);
    graph.outgoing_edges[1].push(edge(1, 9, 3));
    assert!(!graph.is_well_formed());
}

#[test]
fn add_edge_grows_both_structures() {
    let graph = store(&[(0, 3, 5)]);
    assert_eq!(graph.outgoing_edges.len(), 4);
    assert_eq!(graph.incoming_edges.len(), 4);
    assert_eq!(graph.outgoing_edges[0], vec![edge(0, 3, 5)]);
    assert_eq!(graph.incoming_edges[3], vec![edge(0, 3, 5)]);
    let copy = graph.clone_snapshot();
    assert_eq!(copy.outgoing_edges, graph.outgoing_edges);
    assert_eq!(copy.incoming_edges, graph.incoming_edges);
}

#[test]
fn disconnect_takes_a_node_out() {
    let mut graph = store(&[(0, 1, 1), (1, 2, 1), (2, 1, 4), (0, 2, 3), (1, 1, 9)]);
    graph.disconnect(1);
    assert_eq!(graph.outgoing_edges[0], vec![edge(0, 2, 3)]);
    assert_eq!(graph.outgoing_edges[1], vec![]);
    assert_eq!(graph.outgoing_edges[2], vec![]);
    assert_eq!(graph.incoming_edges[1], vec![]);
    assert_eq!(graph.incoming_edges[2], vec![edge(0, 2, 3)]);
    assert_eq!(graph.incoming_edges[0], vec![]);
}

#[test]
fn an_edge_walked_the_other_way() {
    assert_eq!(edge(3, 8, 5).invert(), edge(8, 3, 5));
}
