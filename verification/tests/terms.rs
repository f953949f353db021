use route_planner::bidirectional_graph::BidirectionalGraph;
use route_planner::graph::Edge;
use route_planner::priority_term::cost_of_queries_priority::CostOfQueriesPriority;
use route_planner::priority_term::deleted_neighbors_priority::DeletedNeighborsPriority;
use route_planner::priority_term::edge_difference_priority::EdgeDifferencePriority;
use route_planner::priority_term::priority_terms::clamp;
use route_planner::priority_term::priority_terms::PriorityTerm;
use route_planner::priority_term::voronoi_region::integer_sqrt;
use route_planner::priority_term::voronoi_region::VoronoiRegion;

fn store(edges: &[(u32, u32, u32)]) -> BidirectionalGraph {
    let mut graph = BidirectionalGraph::new();
    for &(source, target, cost) in edges {
        graph.add_edge(Edge { source, target, cost });
    }
    graph
}

#[test]
fn edge_difference_is_shortcuts_less_edges() {
    let graph = store(&[(0, 1, 3), (1, 2, 4), (0, 2, 9), (3, 1, 1), (1, 4, 2)]);
    let mut term = EdgeDifferencePriority::new();
    // node 1 has two edges in and two out, and asks for four shortcuts
    assert_eq!(term.priority(&graph, 1), 4 - 4);
    assert_eq!(term.priority(&graph, 0), 0 - 2);
    assert_eq!(term.priority(&graph, 2), 0 - 2);
    term.update(&graph, 1);
    assert_eq!(term.priority(&graph, 1), 0);
}

#[test]
fn cost_of_queries_pushes_the_depth_on() {
    let graph = store(&[(0, 1, 1), (1, 2, 1), (0, 2, 1), (2, 3, 1)]);
    let mut term = CostOfQueriesPriority::new(&graph);
    for v in 0..4 {
        assert_eq!(term.priority(&graph, v), 0);
    }
    term.update(&graph, 0);
    assert_eq!(term.priority(&graph, 0), 0);
    assert_eq!(term.priority(&graph, 1), 1);
    assert_eq!(term.priority(&graph, 2), 1);
    assert_eq!(term.priority(&graph, 3), 0);
    term.update(&graph, 1);
    assert_eq!(term.priority(&graph, 2), 2);
    term.update(&graph, 0);
    assert_eq!(term.priority(&graph, 1), 1);
    assert_eq!(term.priority(&graph, 2), 2);
    term.update(&graph, 2);
    assert_eq!(term.priority(&graph, 3), 3);
}

#[test]
fn deleted_neighbors_counts_the_live_ones() {
    let graph = store(&[(0, 1, 1), (1, 2, 1), (2, 1, 1), (3, 1, 1)]);
    let mut term = DeletedNeighborsPriority::new(&graph);
    // node 1: one edge out (to 2), three in (from 0, 2 and 3)
    assert_eq!(term.priority(&graph, 1), 4);
    assert_eq!(term.priority(&graph, 0), 1);
    term.update(&graph, 2);
    assert!(term.is_marked(2));
    assert!(!term.is_marked(1));
    assert_eq!(term.priority(&graph, 1), 2);
    term.update(&graph, 0);
    assert_eq!(term.priority(&graph, 1), 1);
    assert_eq!(term.priority(&graph, 3), 1);
}

#[test]
fn voronoi_region_is_the_root_of_the_region_size() {
    // node 0 has five edges out; the targets 1 to 4 have no way on that is
    // cheaper, the target 5 has one
    let graph = store(&[
        (0, 1, 2),
        (0, 2, 2),
        (0, 3, 2),
        (0, 4, 2),
        (0, 5, 2),
        (1, 0, 1),
        (2, 6, 2),
        (3, 6, 3),
        (5, 6, 1),
    ]);
    let mut term = VoronoiRegion::new();
    assert_eq!(term.priority(&graph, 0), 2);
    assert_eq!(term.priority(&graph, 5), 1);
    assert_eq!(term.priority(&graph, 6), 0);
    term.update(&graph, 0);
    assert_eq!(term.priority(&graph, 0), 2);
}

#[test]
fn the_integer_root_is_rounded_down() {
    let expected = [0, 1, 1, 1, 2, 2, 2, 2, 2, 3, 3, 3, 3, 3, 3, 3, 4];
    for (n, root) in expected.iter().enumerate() {
        assert_eq!(integer_sqrt(n), *root);
    }
    assert_eq!(integer_sqrt(99), 9);
    assert_eq!(integer_sqrt(100), 10);
    assert_eq!(integer_sqrt(1 << 40), 1 << 20);
    assert_eq!(integer_sqrt((1 << 40) - 1), (1 << 20) - 1);
    assert_eq!(integer_sqrt(usize::MAX), (1usize << (usize::BITS / 2)) - 1);
}

#[test]
fn a_priority_is_cut_to_the_width_of_its_type() {
    assert_eq!(clamp(0), 0);
    assert_eq!(clamp(-17), -17);
    assert_eq!(clamp(i32::MAX as i128), i32::MAX);
    assert_eq!(clamp(i32::MAX as i128 + 1), i32::MAX);
    assert_eq!(clamp(i32::MIN as i128 - 1), i32::MIN);
    assert_eq!(clamp(i128::MAX), i32::MAX);
}
