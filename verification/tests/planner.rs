use route_planner::bidirectional_graph::BidirectionalGraph;
use route_planner::ch_dijkstra::QueryError;
use route_planner::dijkstra_helper::DijkstraHelper;
use route_planner::fmi_reader::ParseError;
use route_planner::graph::Edge;
use route_planner::planner::contract;
use route_planner::planner::load_graph;
use route_planner::planner::query;
use route_planner::planner::try_contract;
use std::time::Duration;

const TOWN: &str = "\n\n\n\n\n5\n7\n0 0 1.0 1.0 0\n1 1 1.0 2.0 0\n2 2 2.0 2.0 0\n3 3 2.0 1.0 0\n4 4 3.0 3.0 0\n0 1 4\n1 2 3\n2 3 6\n3 0 2\n0 2 9\n2 0 1\n3 4 5\n";

#[test]
fn load_contract_query() {
    let store = load_graph(TOWN.as_bytes()).unwrap();
    assert_eq!(store.node_count(), 5);
    assert_eq!(
        store.outgoing_edges[0],
        vec![Edge { source: 0, target: 1, cost: 4 }, Edge { source: 0, target: 2, cost: 9 }]
    );
    assert_eq!(store.incoming_edges[4], vec![Edge { source: 3, target: 4, cost: 5 }]);
    let ch = contract(store, Duration::from_secs(3600));
    assert_eq!(ch.count_contracted(), 5);
    let mut levels = ch.levels().clone();
    levels.sort();
    assert_eq!(levels, vec![0, 1, 2, 3, 4]);
    assert_eq!(query(&ch, 0, 2), Ok(Some(7)));
    assert_eq!(query(&ch, 0, 4), Ok(Some(18)));
    assert_eq!(query(&ch, 1, 0), Ok(Some(4)));
    assert_eq!(query(&ch, 4, 0), Ok(None));
    assert_eq!(query(&ch, 4, 4), Ok(Some(0)));
    assert_eq!(query(&ch, 5, 0), Err(QueryError::OutOfRange(5)));
    assert_eq!(query(&ch, 0, 9), Err(QueryError::OutOfRange(9)));
    assert_eq!(query(&ch, 8, 9), Err(QueryError::OutOfRange(8)));
    let mut levels = ch.levels().clone();
    levels.sort();
    assert_eq!(levels, vec![0, 1, 2, 3, 4]);
    for s in ch.shortcuts() {
        assert_ne!(s.source, s.target);
    }
    assert_eq!(ch.engine().node_count(), 5);
}

#[test]
fn a_malformed_file_is_not_loaded() {
    assert_eq!(
        load_graph(b"\n\n\n\n\n1\n1\n0 0 0 0 0\n0 x 1\n").map(|store| store.node_count()),
        Err(ParseError { line: 8 })
    );
    assert_eq!(load_graph(b"").map(|store| store.node_count()), Err(ParseError { line: 0 }));
}

#[test]
fn queries_match_a_plain_search() {
    let mut store = BidirectionalGraph::new();
    let mut state: u64 = 5;
    for _ in 0..90 {
        state = state.wrapping_mul(6364136223846793005).wrapping_add(1442695040888963407);
        let source = (state >> 33) as u32 % 30;
        let target = (state >> 13) as u32 % 30;
        let cost = (state >> 50) as u32 % 40;
        store.add_edge(Edge { source, target, cost });
    }
    let nodes = store.node_count() as u32;
    let original = store.clone_snapshot();
    let reference = DijkstraHelper::new(&original);
    let ch = contract(store, Duration::from_secs(3600));
    for s in 0..nodes {
        for t in 0..nodes {
            assert_eq!(query(&ch, s, t), Ok(reference.single_pair(s, t)));
        }
    }
}

#[test]
fn a_store_that_is_not_mirrored_is_handed_back() {
    let mut store = BidirectionalGraph::new();
    store.add_edge(Edge { source: 0, target: 1, cost: 2 });
    store.add_edge(Edge { source: 1, target: 0, cost: 3 });
    assert!(store.is_mirrored());
    let ch = try_contract(store.clone_snapshot(), Duration::from_secs(3600)).ok().unwrap();
    assert_eq!(query(&ch, 1, 0), Ok(Some(3)));
    store.outgoing_edges[1].pop();
    assert!(store.is_well_formed());
    assert!(!store.is_mirrored());
    let back = try_contract(store, Duration::from_secs(3600)).err().unwrap();
    assert_eq!(back.outgoing_edges[1], vec![]);
    let mut store = BidirectionalGraph::new();
    store.add_edge(Edge { source: 0, target: 1, cost: 2 });
    store.incoming_edges[1][0].cost = 5;
    assert!(!store.is_mirrored());
    store.incoming_edges.pop();
    assert!(try_contract(store, Duration::from_secs(3600)).is_err());
}

#[test]
fn nodes_without_edges_are_loaded() {
    let store = load_graph(b"\n\n\n\n\n4\n1\n0 0 0 0 0\n1 1 0 0 0\n2 2 0 0 0\n3 3 0 0 0\n1 0 6\n").unwrap();
    assert_eq!(store.node_count(), 4);
    let ch = contract(store, Duration::from_secs(3600));
    assert_eq!(query(&ch, 3, 3), Ok(Some(0)));
    assert_eq!(query(&ch, 1, 0), Ok(Some(6)));
    assert_eq!(query(&ch, 3, 0), Ok(None));
    assert_eq!(query(&ch, 4, 0), Err(QueryError::OutOfRange(4)));
    let store = load_graph(b"\n\n\n\n\n0\n1\n1 5 6\n").unwrap();
    assert_eq!(store.node_count(), 6);
}
