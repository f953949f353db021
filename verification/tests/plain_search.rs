use route_planner::bi_dijkstra::BiDijkstra;
use route_planner::bidirectional_graph::BidirectionalGraph;
use route_planner::dijkstra::dijkstra;
use route_planner::dijkstra::get_route;
use route_planner::dijkstra_helper::DijkstraHelper;
use route_planner::fast_graph::FastGraph;
use route_planner::graph::invert_graph;
use route_planner::graph::Edge;
use route_planner::graph::Graph;
use route_planner::investigation::count_neighbors;
use route_planner::investigation::find_intersections;
use route_planner::investigation::find_reachable;
use route_planner::investigation::find_unreachable;

fn edges() -> Vec<Edge> {
    [(0, 1, 4), (1, 2, 3), (2, 3, 6), (3, 0, 2), (0, 2, 9), (2, 0, 1), (3, 4, 5), (5, 4, 1)]
        .iter()
        .map(|&(source, target, cost)| Edge { source, target, cost })
        .collect()
}

#[test]
fn the_plain_search_names_the_way_back() {
    let graph = FastGraph::new(&edges());
    let (before, cost) = dijkstra(&graph, 0, 4);
    assert_eq!(cost, 18);
    assert_eq!(before.len(), 6);
    assert_eq!(before[4], Some(3));
    assert_eq!(before[3], Some(2));
    assert_eq!(before[2], Some(1));
    assert_eq!(before[1], Some(0));
    assert_eq!(before[0], None);
    assert_eq!(before[5], None);
    let (before, cost) = dijkstra(&graph, 4, 0);
    assert_eq!(cost, u32::MAX);
    assert_eq!(before, vec![None; 6]);
    let (_, cost) = dijkstra(&graph, 2, 2);
    assert_eq!(cost, 0);
    let (_, cost) = dijkstra(&graph, 0, 77);
    assert_eq!(cost, u32::MAX);
}

#[test]
fn the_search_from_both_ends_matches_the_plain_one() {
    let mut store = BidirectionalGraph::new();
    for e in edges() {
        store.add_edge(e);
    }
    let fast = FastGraph::new(&edges());
    let both = BiDijkstra::new(store.clone_snapshot());
    let helper = DijkstraHelper::new(&store);
    for s in 0..6 {
        for t in 0..6 {
            let cost = both.single_pair_shortest_path(s, t);
            assert_eq!(cost, dijkstra(&fast, s, t).1);
            assert_eq!(cost, helper.single_pair(s, t).unwrap_or(u32::MAX));
        }
    }
    assert_eq!(both.single_pair_shortest_path(0, 4), 18);
    assert_eq!(both.single_pair_shortest_path(5, 4), 1);
    assert_eq!(both.single_pair_shortest_path(4, 5), u32::MAX);
    assert_eq!(both.single_pair_shortest_path(9, 0), u32::MAX);
}

#[test]
fn a_route_names_its_nodes() {
    let graph = FastGraph::new(&edges());
    let route = get_route(&graph, 0, 4).unwrap();
    assert_eq!(route.source, 0);
    assert_eq!(route.target, 4);
    assert_eq!(route.cost, Some(18));
    assert_eq!(route.route, vec![0, 1, 2, 3, 4]);
    let route = get_route(&graph, 3, 3).unwrap();
    assert_eq!(route.cost, Some(0));
    assert_eq!(route.route, vec![3]);
    assert!(get_route(&graph, 4, 0).is_none());
    assert!(get_route(&graph, 0, 5).is_none());
    assert!(get_route(&graph, 0, 500).is_none());
}

#[test]
fn a_graph_with_every_edge_walked_the_other_way() {
    let mut graph = Graph::new();
    for e in edges() {
        graph.add_edge(e);
    }
    let inverted = invert_graph(&graph);
    assert_eq!(inverted.outgoing_edges.len(), 6);
    assert_eq!(
        inverted.outgoing_edges[0],
        vec![Edge { source: 0, target: 2, cost: 1 }, Edge { source: 0, target: 3, cost: 2 }]
    );
    assert_eq!(
        inverted.outgoing_edges[4],
        vec![Edge { source: 4, target: 3, cost: 5 }, Edge { source: 4, target: 5, cost: 1 }]
    );
    assert_eq!(inverted.outgoing_edges[5], vec![]);
    assert_eq!(invert_graph(&inverted).outgoing_edges[5], graph.outgoing_edges[5]);
    assert_eq!(invert_graph(&Graph::new()).outgoing_edges.len(), 0);
}

#[test]
fn crossings_and_what_can_be_reached() {
    let mut store = BidirectionalGraph::new();
    for e in edges() {
        store.add_edge(e);
    }
    // node 0 is joined to 1, 2 and 3; node 2 to 0, 1 and 3; node 3 to 0, 2 and 4
    assert_eq!(count_neighbors(&store, 0), 3);
    assert_eq!(count_neighbors(&store, 1), 2);
    assert_eq!(count_neighbors(&store, 4), 2);
    assert_eq!(count_neighbors(&store, 5), 1);
    assert_eq!(find_intersections(&store, 3), vec![0, 2, 3]);
    assert_eq!(find_intersections(&store, 2), vec![0, 1, 2, 3, 4]);
    assert_eq!(find_intersections(&store, 4), vec![]);
    assert_eq!(find_intersections(&store, 0), vec![0, 1, 2, 3, 4, 5]);
    assert_eq!(find_reachable(&store, 0), vec![0, 1, 2, 3, 4]);
    assert_eq!(find_unreachable(&store, 0), vec![5]);
    assert_eq!(find_reachable(&store, 4), vec![4]);
    assert_eq!(find_unreachable(&store, 5), vec![0, 1, 2, 3]);
}
