use route_planner::bidirectional_graph::BidirectionalGraph;
use route_planner::ch_dijkstra::ChDijsktra;
use route_planner::fast_graph::FastEdge;
use route_planner::fast_graph::FastGraph;
use route_planner::rows::flatten_rows;
use route_planner::graph::Edge;
use route_planner::graph::Graph;
use route_planner::rows::Retain;

fn edge(source: u32, target: u32, cost: u32) -> Edge {
    Edge { source, target, cost }
}

#[test]
fn the_edges_of_each_node_lie_side_by_side() {
    let edges = vec![edge(2, 0, 5), edge(0, 1, 1), edge(2, 3, 2), edge(0, 2, 4), edge(2, 0, 7)];
    let graph = FastGraph::new(&edges);
    assert_eq!(graph.node_count(), 4);
    assert_eq!(
        graph.edges_from(0),
        &[FastEdge { target: 1, cost: 1 }, FastEdge { target: 2, cost: 4 }]
    );
    assert_eq!(graph.edges_from(1), &[]);
    assert_eq!(
        graph.edges_from(2),
        &[
            FastEdge { target: 0, cost: 5 },
            FastEdge { target: 3, cost: 2 },
            FastEdge { target: 0, cost: 7 },
        ]
    );
    assert_eq!(graph.edges_from(3), &[]);
    assert_eq!(graph.edges_from(4), &[]);
    assert_eq!(graph.edges_from(u32::MAX), &[]);
}

#[test]
fn a_graph_without_edges() {
    let graph = FastGraph::new(&vec![]);
    assert_eq!(graph.node_count(), 0);
    assert_eq!(graph.edges_from(0), &[]);
    let graph = FastGraph::with_nodes(&vec![], 3);
    assert_eq!(graph.node_count(), 3);
    assert_eq!(graph.edges_from(2), &[]);
}

#[test]
fn the_plain_graph_grows_with_its_edges() {
    let mut graph = Graph::new();
    graph.add_edge(edge(1, 3, 2));
    graph.add_edge(edge(1, 0, 5));
    assert_eq!(graph.outgoing_edges.len(), 4);
    assert_eq!(graph.outgoing_edges[1], vec![edge(1, 3, 2), edge(1, 0, 5)]);
    assert_eq!(graph.outgoing_edges[3], vec![]);
    let store = BidirectionalGraph::from_graph(&graph);
    assert_eq!(store.outgoing_edges[1], vec![edge(1, 3, 2), edge(1, 0, 5)]);
    assert_eq!(store.incoming_edges[0], vec![edge(1, 0, 5)]);
    assert_eq!(store.incoming_edges[3], vec![edge(1, 3, 2)]);
    assert_eq!(Graph::default().outgoing_edges.len(), 0);
}

#[test]
fn rows_are_flattened_in_their_order() {
    let rows = vec![vec![edge(0, 1, 1), edge(0, 2, 2)], vec![], vec![edge(2, 0, 3)]];
    assert_eq!(flatten_rows(&rows, false), vec![edge(0, 1, 1), edge(0, 2, 2), edge(2, 0, 3)]);
    assert_eq!(flatten_rows(&rows, true), vec![edge(1, 0, 1), edge(2, 0, 2), edge(0, 2, 3)]);
}

#[test]
fn the_query_engine_counts_its_nodes() {
    let mut graph = BidirectionalGraph::with_nodes(5);
    graph.add_edge(edge(0, 1, 1));
    let engine = ChDijsktra::new(graph);
    assert_eq!(engine.node_count(), 5);
    assert_eq!(engine.single_pair_shortest_path(4, 4).cost, Some(0));
    assert_eq!(engine.single_pair_shortest_path(4, 0).cost, None);
}

#[test]
fn lists_of_the_store_are_read_and_changed() {
    let mut store = BidirectionalGraph::new();
    for e in [edge(0, 1, 1), edge(0, 2, 2), edge(1, 2, 3), edge(0, 1, 4)] {
        store.add_edge(e);
    }
    assert_eq!(store.outgoing(0), &vec![edge(0, 1, 1), edge(0, 2, 2), edge(0, 1, 4)]);
    assert_eq!(store.incoming(2), &vec![edge(0, 2, 2), edge(1, 2, 3)]);
    store.retain_outgoing(0, &Retain::NotInto(1));
    assert_eq!(store.outgoing(0), &vec![edge(0, 2, 2)]);
    store.retain_incoming(2, &Retain::NotOutOf(0));
    assert_eq!(store.incoming(2), &vec![edge(1, 2, 3)]);
    assert_eq!(store.pop_incoming(1), Some(edge(0, 1, 4)));
    assert_eq!(store.pop_incoming(1), Some(edge(0, 1, 1)));
    assert_eq!(store.pop_incoming(1), None);
    assert_eq!(store.pop_outgoing(1), Some(edge(1, 2, 3)));
    assert_eq!(store.pop_outgoing(2), None);
    let levels = vec![5, 3, u32::MAX];
    store.add_edge(edge(0, 1, 1));
    store.add_edge(edge(1, 0, 1));
    store.add_edge(edge(2, 2, 1));
    store.add_edge(edge(0, 7, 1));
    store.retain_outgoing(0, &Retain::Upward(&levels));
    assert_eq!(store.outgoing(0), &vec![edge(0, 2, 2), edge(0, 7, 1)]);
    store.retain_outgoing(1, &Retain::Downward(&levels));
    assert_eq!(store.outgoing(1), &vec![]);
    store.retain_outgoing(2, &Retain::NoLoops);
    assert_eq!(store.outgoing(2), &vec![]);
    assert!(Retain::Upward(&levels).applies(&edge(1, 0, 9)));
    assert!(Retain::Downward(&levels).applies(&edge(2, 9, 9)));
}
