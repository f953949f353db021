use route_planner::bidirectional_graph::BidirectionalGraph;
use route_planner::ch_dijkstra::ChDijsktra;
use route_planner::ch_dijkstra::QueryError;
use route_planner::contractor::Contractor;
use route_planner::graph::Edge;
use std::time::Duration;

fn store(nodes: usize, edges: &[(u32, u32, u32)]) -> BidirectionalGraph {
    let mut graph = BidirectionalGraph::with_nodes(nodes);
    for &(source, target, cost) in edges {
        graph.add_edge(Edge { source, target, cost });
    }
    graph
}

fn engine(nodes: usize, edges: &[(u32, u32, u32)]) -> ChDijsktra {
    let mut contractor = Contractor::new(store(nodes, edges));
    contractor.contract(Duration::from_secs(3600));
    ChDijsktra::new(contractor.get_graph().unwrap())
}

fn cost(engine: &ChDijsktra, source: u32, target: u32) -> Option<u32> {
    engine.single_pair_shortest_path(source, target).cost
}

#[test]
fn empty_graph_answers_none() {
    let engine = engine(0, &[]);
    assert_eq!(cost(&engine, 0, 0), None);
    assert_eq!(cost(&engine, 0, 1), None);
    assert_eq!(cost(&engine, 7, 3), None);
    assert!(engine.single_pair_shortest_path(0, 0).route.is_empty());
    assert_eq!(engine.query(0, 0), Err(QueryError::OutOfRange(0)));
}

#[test]
fn single_node_graph() {
    let engine = engine(1, &[]);
    assert_eq!(cost(&engine, 0, 0), Some(0));
    assert_eq!(engine.single_pair_shortest_path(0, 0).route, vec![0]);
    assert_eq!(cost(&engine, 0, 1), None);
    assert_eq!(engine.query(0, 1), Err(QueryError::OutOfRange(1)));
    assert_eq!(engine.query(1, 0), Err(QueryError::OutOfRange(1)));
    assert_eq!(engine.query(0, 0), Ok(Some(0)));
}

#[test]
fn single_edge_graph() {
    let engine = engine(0, &[(0, 1, 5)]);
    assert_eq!(cost(&engine, 0, 1), Some(5));
    assert_eq!(cost(&engine, 1, 0), None);
    assert_eq!(engine.query(1, 0), Ok(None));
    assert_eq!(engine.single_pair_shortest_path(0, 1).route, vec![0, 1]);
}

#[test]
fn triangle_with_shortcut_opportunity() {
    let edges = [(0, 1, 3), (1, 2, 4), (0, 2, 9)];
    let mut contractor = Contractor::new(store(0, &edges));
    let shortcuts = contractor.contract_node(1);
    assert_eq!(shortcuts, vec![Edge { source: 0, target: 2, cost: 7 }]);
    let engine = engine(0, &edges);
    assert_eq!(cost(&engine, 0, 2), Some(7));
    assert_eq!(cost(&engine, 0, 1), Some(3));
    assert_eq!(cost(&engine, 1, 2), Some(4));
}

#[test]
fn no_shortcut_where_a_witness_is_cheaper() {
    let edges = [(0, 1, 3), (1, 2, 4), (0, 2, 5)];
    let mut contractor = Contractor::new(store(0, &edges));
    assert_eq!(contractor.contract_node(1), vec![]);
    let engine = engine(0, &edges);
    assert_eq!(cost(&engine, 0, 2), Some(5));
}

#[test]
fn no_shortcut_where_a_witness_costs_the_same() {
    let edges = [(0, 1, 3), (1, 2, 4), (0, 2, 7)];
    let mut contractor = Contractor::new(store(0, &edges));
    assert_eq!(contractor.contract_node(1), vec![]);
    let engine = engine(0, &edges);
    assert_eq!(cost(&engine, 0, 2), Some(7));
}

#[test]
fn asymmetric_graph() {
    let engine = engine(0, &[(0, 1, 1), (1, 2, 1)]);
    assert_eq!(cost(&engine, 0, 2), Some(2));
    assert_eq!(cost(&engine, 2, 0), None);
    assert_eq!(cost(&engine, 1, 0), None);
    assert_eq!(engine.single_pair_shortest_path(0, 2).route, vec![0, 1, 2]);
}

#[test]
fn disconnected_components() {
    let edges = [
        (0, 1, 1),
        (1, 2, 1),
        (2, 0, 1),
        (3, 4, 2),
        (4, 5, 2),
        (5, 3, 2),
    ];
    let engine = engine(0, &edges);
    for a in 0..3 {
        for b in 3..6 {
            assert_eq!(cost(&engine, a, b), None);
            assert_eq!(cost(&engine, b, a), None);
        }
    }
    assert_eq!(cost(&engine, 0, 2), Some(2));
    assert_eq!(cost(&engine, 2, 1), Some(2));
    assert_eq!(cost(&engine, 5, 4), Some(4));
}

#[test]
fn zero_cost_edges() {
    let engine = engine(0, &[(0, 1, 0), (1, 2, 0), (0, 2, 1)]);
    assert_eq!(cost(&engine, 0, 2), Some(0));
    assert_eq!(cost(&engine, 0, 1), Some(0));
    assert_eq!(cost(&engine, 2, 0), None);
}

#[test]
fn no_node_budget_leaves_the_graph_as_it_is() {
    let edges = [(0, 1, 3), (1, 2, 4), (0, 2, 9), (2, 3, 1), (3, 0, 2)];
    let mut contractor = Contractor::new(store(0, &edges));
    let shortcuts = contractor.contract_nodes(0);
    assert!(shortcuts.is_empty());
    assert_eq!(contractor.node_levels(), &vec![u32::MAX; 4]);
    let engine = ChDijsktra::new(contractor.get_graph().unwrap());
    assert_eq!(cost(&engine, 0, 2), Some(7));
    assert_eq!(cost(&engine, 0, 3), Some(8));
    assert_eq!(cost(&engine, 2, 1), Some(6));
    assert_eq!(cost(&engine, 1, 0), Some(7));
}

#[test]
fn no_time_budget_still_answers_right() {
    let edges = [(0, 1, 3), (1, 2, 4), (0, 2, 9), (2, 3, 1), (3, 0, 2)];
    let mut contractor = Contractor::new(store(0, &edges));
    contractor.contract(Duration::from_secs(0));
    let levels = contractor.node_levels().clone();
    assert!(levels.iter().any(|&level| level == 0));
    let engine = ChDijsktra::new(contractor.get_graph().unwrap());
    assert_eq!(cost(&engine, 0, 2), Some(7));
    assert_eq!(cost(&engine, 0, 3), Some(8));
    assert_eq!(cost(&engine, 2, 1), Some(6));
    assert_eq!(cost(&engine, 1, 0), Some(7));
}

#[test]
fn a_long_time_budget_contracts_every_node() {
    let edges = [(0, 1, 3), (1, 2, 4), (0, 2, 9), (2, 3, 1), (3, 0, 2)];
    let mut contractor = Contractor::new(store(0, &edges));
    contractor.contract(Duration::from_secs(3600));
    assert_eq!(contractor.waiting(), 0);
    assert_eq!(contractor.count_contracted(), 4);
    let mut levels = contractor.node_levels().clone();
    levels.sort();
    assert_eq!(levels, vec![0, 1, 2, 3]);
}

#[test]
fn the_contracted_nodes_hold_the_lowest_levels() {
    let edges = [(0, 1, 3), (1, 2, 4), (0, 2, 9), (2, 3, 1), (3, 0, 2)];
    for budget in 0..6usize {
        let mut contractor = Contractor::new(store(0, &edges));
        assert_eq!(contractor.waiting(), 4);
        assert_eq!(contractor.count_contracted(), 0);
        contractor.contract_nodes(budget);
        let done = budget.min(4);
        assert_eq!(contractor.count_contracted(), done);
        assert_eq!(contractor.waiting(), 4 - done);
        let mut levels = contractor.node_levels().clone();
        levels.sort();
        let mut expected: Vec<u32> = (0..done as u32).collect();
        expected.resize(4, u32::MAX);
        assert_eq!(levels, expected);
    }
}

#[test]
fn no_time_budget_contracts_a_node_all_the_same() {
    let edges = [(0, 1, 3), (1, 2, 4), (0, 2, 9), (2, 3, 1), (3, 0, 2)];
    let mut timed = Contractor::new(store(0, &edges));
    let found = timed.contract(Duration::from_secs(0));
    let done = timed.count_contracted();
    assert!(done >= 1);
    assert_eq!(timed.waiting(), 4 - done);
    let mut counted = Contractor::new(store(0, &edges));
    let expected = counted.contract_nodes(done);
    assert_eq!(found, expected);
    assert_eq!(timed.node_levels(), counted.node_levels());
    let left = timed.get_graph().unwrap();
    let right = counted.get_graph().unwrap();
    assert_eq!(left.outgoing_edges, right.outgoing_edges);
    assert_eq!(left.incoming_edges, right.incoming_edges);
}

#[test]
fn a_graph_without_nodes_contracts_to_nothing() {
    let mut contractor = Contractor::new(store(0, &[]));
    let found = contractor.contract(Duration::from_secs(3600));
    assert!(found.is_empty());
    assert_eq!(contractor.waiting(), 0);
    assert_eq!(contractor.count_contracted(), 0);
    assert!(contractor.node_levels().is_empty());
}

#[test]
fn costs_at_the_limit_of_the_cost_type() {
    let far = u32::MAX - 1;
    let engine1 = engine(0, &[(0, 1, far)]);
    assert_eq!(cost(&engine1, 0, 1), Some(far));
    let engine2 = engine(0, &[(0, 1, far), (1, 2, 1)]);
    assert_eq!(cost(&engine2, 0, 2), None);
    assert_eq!(cost(&engine2, 1, 2), Some(1));
}
