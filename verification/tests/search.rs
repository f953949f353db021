use route_planner::bidirectional_graph::BidirectionalGraph;
use route_planner::dijkstra_helper::DijkstraHelper;
use route_planner::graph::Edge;
use route_planner::shortcut_generator::ShortcutGenerator;

fn edge(source: u32, target: u32, cost: u32) -> Edge {
    Edge { source, target, cost }
}

fn store(edges: &[(u32, u32, u32)]) -> BidirectionalGraph {
    let mut graph = BidirectionalGraph::new();
    for &(source, target, cost) in edges {
        graph.add_edge(edge(source, target, cost));
    }
    graph
}

#[test]
fn witness_search_keeps_clear_of_the_banned_node() {
    let graph = store(&[(0, 1, 3), (1, 2, 4), (0, 2, 9)]);
    let helper = DijkstraHelper::new(&graph);
    let costs = helper.single_source_cost_without(0, 1, 20);
    assert_eq!(costs.len(), 2);
    assert_eq!(costs.get(&0), Some(&0));
    assert_eq!(costs.get(&1), None);
    assert_eq!(costs.get(&2), Some(&9));
    let costs = helper.single_source_cost_without(0, 5, 20);
    assert_eq!(costs.get(&1), Some(&3));
    assert_eq!(costs.get(&2), Some(&7));
}

#[test]
fn witness_search_stops_at_the_ceiling() {
    let graph = store(&[(0, 1, 3), (1, 2, 4), (2, 3, 5)]);
    let helper = DijkstraHelper::new(&graph);
    let costs = helper.single_source_cost_without(0, 9, 7);
    assert_eq!(costs.get(&2), Some(&7));
    assert_eq!(costs.get(&3), None);
    let costs = helper.single_source_cost_without(0, 9, 6);
    assert_eq!(costs.get(&1), Some(&3));
    assert_eq!(costs.get(&2), None);
    let costs = helper.single_source_cost_without(0, 9, 0);
    assert_eq!(costs.len(), 1);
    assert_eq!(costs.get(&0), Some(&0));
}

#[test]
fn witness_search_from_a_node_without_edges() {
    let graph = BidirectionalGraph::with_nodes(3);
    let helper = DijkstraHelper::new(&graph);
    let costs = helper.single_source_cost_without(1, 0, 100);
    assert_eq!(costs.len(), 1);
    assert_eq!(costs.get(&1), Some(&0));
}

#[test]
fn witness_search_for_one_target() {
    let graph = store(&[(0, 1, 3), (1, 2, 4), (0, 2, 9), (2, 3, 1)]);
    let helper = DijkstraHelper::new(&graph);
    assert_eq!(helper.single_pair_with_max_cost_without_node(0, 2, 5, 20), Some(7));
    assert_eq!(helper.single_pair_with_max_cost_without_node(0, 2, 1, 20), Some(9));
    assert_eq!(helper.single_pair_with_max_cost_without_node(0, 2, 1, 8), None);
    assert_eq!(helper.single_pair_with_max_cost_without_node(0, 3, 2, 20), None);
    assert_eq!(helper.single_pair_with_max_cost_without_node(0, 0, 2, 0), Some(0));
    assert_eq!(helper.single_pair_with_max_cost_without_node(3, 0, 9, 20), None);
}

#[test]
fn plain_searches_forward_and_backward() {
    let graph = store(&[(0, 1, 3), (1, 2, 4), (0, 2, 9), (2, 3, 1)]);
    let helper = DijkstraHelper::new(&graph);
    assert_eq!(helper.single_pair(0, 3), Some(8));
    assert_eq!(helper.single_pair(3, 0), None);
    let from = helper.single_source(1);
    assert_eq!(from.len(), 3);
    assert_eq!(from.get(&3), Some(&5));
    assert_eq!(from.get(&0), None);
    let to = helper.single_target(2);
    assert_eq!(to.len(), 3);
    assert_eq!(to.get(&0), Some(&7));
    assert_eq!(to.get(&1), Some(&4));
    assert_eq!(to.get(&3), None);
}

#[test]
fn a_shortcut_only_where_every_other_way_costs_more() {
    let graph = store(&[(0, 1, 3), (1, 2, 4), (0, 2, 9), (1, 3, 1), (0, 3, 4), (4, 1, 2)]);
    let generator = ShortcutGenerator::new(&graph);
    // through node 1: from 0 to 2 at 7 (the edge costs 9), from 0 to 3 at 4
    // (the edge costs as much: no shortcut), from 4 to 2 and to 3
    assert_eq!(
        generator.naive_shortcuts(1),
        vec![edge(0, 2, 7), edge(4, 2, 6), edge(4, 3, 3)]
    );
    assert_eq!(generator.shortcuts_from(1, edge(0, 1, 3)), vec![edge(0, 2, 7)]);
    assert_eq!(generator.naive_shortcuts(0), vec![]);
    assert_eq!(generator.naive_shortcuts(2), vec![]);
}

#[test]
fn no_shortcut_for_a_cost_that_does_not_fit() {
    let graph = store(&[(0, 1, u32::MAX - 2), (1, 2, 2), (1, 3, 1)]);
    let generator = ShortcutGenerator::new(&graph);
    assert_eq!(generator.naive_shortcuts(1), vec![edge(0, 3, u32::MAX - 1)]);
}

#[test]
fn no_shortcut_from_a_node_to_itself() {
    let graph = store(&[(0, 1, 1), (1, 0, 1)]);
    let generator = ShortcutGenerator::new(&graph);
    assert_eq!(generator.naive_shortcuts(1), vec![]);
}

#[test]
fn a_beaten_shortcut_is_dropped() {
    // node 9 is the one that is being contracted
    let graph = store(&[(0, 9, 5), (9, 1, 5), (2, 9, 1), (9, 3, 1), (0, 2, 1), (3, 1, 1)]);
    let generator = ShortcutGenerator::new(&graph);
    let candidates = vec![edge(0, 1, 10), edge(2, 3, 2)];
    // from 0 to 2, over the shortcut from 2 to 3, and on to 1: 1 + 2 + 1 < 10
    assert_eq!(
        generator.remove_unnecessary_shortcuts(candidates.clone(), 9),
        vec![edge(2, 3, 2)]
    );
    let graph = store(&[(0, 9, 5), (9, 1, 5), (2, 9, 1), (9, 3, 1), (0, 2, 7), (3, 1, 1)]);
    let generator = ShortcutGenerator::new(&graph);
    // 7 + 2 + 1 is no less than 10
    assert_eq!(generator.remove_unnecessary_shortcuts(candidates.clone(), 9), candidates);
    assert_eq!(generator.remove_unnecessary_shortcuts(vec![], 9), vec![]);
}
