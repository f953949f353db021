use route_planner::bidirectional_graph::BidirectionalGraph;
use route_planner::dijkstra_helper::DijkstraHelper;
use route_planner::graph::Edge;
use route_planner::heuristic::Heuristic;
use route_planner::landmark::Landmark;
use route_planner::landmark_heuristic::LandmarkHeuristic;

fn store(edges: &[(u32, u32, u32)]) -> BidirectionalGraph {
    let mut graph = BidirectionalGraph::new();
    for &(source, target, cost) in edges {
        graph.add_edge(Edge { source, target, cost });
    }
    graph
}

fn landmark_at(graph: &BidirectionalGraph, node: u32) -> Landmark {
    let helper = DijkstraHelper::new(graph);
    Landmark::new(node, helper.single_source(node), helper.single_target(node))
}

#[test]
fn the_bounds_of_a_landmark() {
    // a ring of four nodes, one way round, each step at cost 10
    let graph = store(&[(0, 1, 10), (1, 2, 10), (2, 3, 10), (3, 0, 10)]);
    let landmark = landmark_at(&graph, 0);
    assert!(landmark.is_reachable(1, 3));
    // from 1 to the landmark costs 30, from the landmark to 3 costs 30
    assert_eq!(landmark.upper_bound(1, 3), Some(60));
    // node 3 lies 20 further from the landmark than node 1
    assert_eq!(landmark.lower_bound(1, 3), Some(20));
    assert_eq!(landmark.lower_bound(3, 1), Some(0));
    assert_eq!(landmark.upper_bound(0, 0), Some(0));
    assert_eq!(landmark.copy().upper_bound(1, 3), Some(60));
    assert_eq!(landmark.landmark(), 0);
}

#[test]
fn a_landmark_that_does_not_reach() {
    let graph = store(&[(0, 1, 10), (2, 1, 10)]);
    let landmark = landmark_at(&graph, 0);
    assert!(!landmark.is_reachable(2, 1));
    assert!(landmark.is_reachable(0, 1));
    assert_eq!(landmark.upper_bound(2, 1), None);
    assert_eq!(landmark.lower_bound(0, 1), None);
    assert_eq!(landmark.lower_bound(0, 0), Some(0));
}

#[test]
fn an_upper_bound_that_does_not_fit() {
    let graph = store(&[(1, 0, u32::MAX - 5), (0, 2, 10)]);
    let landmark = landmark_at(&graph, 0);
    assert_eq!(landmark.upper_bound(1, 2), None);
    let graph = store(&[(1, 0, u32::MAX - 10), (0, 2, 10)]);
    assert_eq!(landmark_at(&graph, 0).upper_bound(1, 2), Some(u32::MAX));
}

#[test]
fn the_best_bound_of_several_landmarks() {
    let graph = store(&[(0, 1, 10), (1, 2, 10), (2, 3, 10), (3, 0, 10), (1, 3, 12)]);
    let heuristic = LandmarkHeuristic::from_nodes(&graph, &vec![0, 2]);
    // over landmark 0: 22 + 22; over landmark 2: 10 + 10
    assert_eq!(heuristic.upper_bound(1, 3), Some(20));
    assert_eq!(heuristic.lower_bound(1, 3), Some(12));
    assert_eq!(heuristic.is_reachable(1, 3), Some(true));
    let none = LandmarkHeuristic::from_nodes(&graph, &vec![]);
    assert_eq!(none.upper_bound(1, 3), None);
    assert_eq!(none.lower_bound(1, 3), None);
    assert_eq!(none.is_reachable(1, 3), Some(false));
}

#[test]
fn tuning_keeps_the_landmarks_with_the_closest_bounds() {
    let mut edges = Vec::new();
    for v in 0..30u32 {
        edges.push((v, (v + 1) % 30, 1 + v % 3));
        edges.push(((v + 1) % 30, v, 2));
    }
    let graph = store(&edges);
    let chosen: Vec<u32> = (0..30).step_by(2).collect();
    let heuristic = LandmarkHeuristic::from_nodes(&graph, &chosen);
    let tuned = heuristic.tune(3, 17);
    assert!(heuristic.lower_bound(3, 17).unwrap() <= heuristic.upper_bound(3, 17).unwrap());
    // the landmarks that lie on a cheapest way give the closest bounds
    let reference = DijkstraHelper::new(&graph).single_pair(3, 17).unwrap();
    assert_eq!(tuned.upper_bound(3, 17), heuristic.upper_bound(3, 17));
    assert_eq!(tuned.upper_bound(3, 17), Some(reference));
    let few = LandmarkHeuristic::from_nodes(&graph, &vec![4, 8]).tune(3, 17);
    assert_eq!(few.upper_bound(3, 17), Some(reference));
    let apart = store(&[(0, 1, 1), (2, 3, 1)]);
    let empty = LandmarkHeuristic::from_nodes(&apart, &vec![0, 2]).tune(0, 3);
    assert_eq!(empty.upper_bound(0, 1), None);
}

#[test]
fn drawn_landmarks_are_nodes_of_the_graph() {
    let graph = store(&[(0, 1, 10), (1, 2, 10), (2, 0, 10)]);
    let heuristic = LandmarkHeuristic::new(&graph, 40);
    assert_eq!(heuristic.upper_bound(0, 2), Some(20));
    let seeded = LandmarkHeuristic::with_seed(&graph, 5, 77);
    assert_eq!(seeded.upper_bound(0, 2), Some(20));
    assert_eq!(seeded.lower_bound(0, 2), Some(20));
    let none = LandmarkHeuristic::new(&BidirectionalGraph::new(), 3);
    assert_eq!(none.upper_bound(0, 0), None);
}
