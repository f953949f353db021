use route_planner::bidirectional_graph::BidirectionalGraph;
use route_planner::ch_dijkstra::ChDijsktra;
use route_planner::contractor::Contractor;
use route_planner::dijkstra_helper::DijkstraHelper;
use route_planner::graph::Edge;
use route_planner::queue::Weights;
use std::time::Duration;

fn edge(source: u32, target: u32, cost: u32) -> Edge {
    Edge { source, target, cost }
}

fn store(edges: &[Edge]) -> BidirectionalGraph {
    let mut graph = BidirectionalGraph::new();
    for e in edges {
        graph.add_edge(*e);
    }
    graph
}

fn scattered(nodes: u32, edges: usize, top_cost: u32, seed: u64) -> Vec<Edge> {
    let mut state = seed;
    let mut draw = move |bound: u32| {
        state = state.wrapping_mul(6364136223846793005).wrapping_add(1442695040888963407);
        ((state >> 33) as u32) % bound
    };
    let mut list = Vec::new();
    for v in 0..nodes {
        list.push(edge(v, (v + 1) % nodes, 1 + draw(top_cost)));
    }
    for _ in 0..edges {
        list.push(edge(draw(nodes), draw(nodes), draw(top_cost)));
    }
    list
}

#[test]
fn query_matches_plain_search_on_scattered_graphs() {
    for seed in 0..6 {
        let edges = scattered(24, 60, 20, seed);
        let original = store(&edges);
        let reference = DijkstraHelper::new(&original);
        let mut contractor = Contractor::new(original.clone());
        contractor.contract(Duration::from_secs(3600));
        let engine = ChDijsktra::new(contractor.get_graph().unwrap());
        for s in 0..24 {
            for t in 0..24 {
                assert_eq!(
                    engine.single_pair_shortest_path(s, t).cost,
                    reference.single_pair(s, t),
                    "seed {} from {} to {}",
                    seed,
                    s,
                    t
                );
            }
        }
    }
}

#[test]
fn query_matches_plain_search_where_not_all_is_connected() {
    let mut edges = scattered(10, 12, 9, 3);
    for e in scattered(8, 10, 9, 4) {
        edges.push(edge(e.source + 10, e.target + 10, e.cost));
    }
    edges.push(edge(3, 14, 2));
    let original = store(&edges);
    let reference = DijkstraHelper::new(&original);
    let mut contractor = Contractor::new(original.clone());
    contractor.contract(Duration::from_secs(3600));
    let engine = ChDijsktra::new(contractor.get_graph().unwrap());
    for s in 0..18 {
        for t in 0..18 {
            assert_eq!(engine.single_pair_shortest_path(s, t).cost, reference.single_pair(s, t));
        }
    }
    assert_eq!(engine.single_pair_shortest_path(14, 3).cost, None);
}

#[test]
fn query_matches_plain_search_after_any_number_of_nodes() {
    let edges = scattered(16, 40, 12, 11);
    let original = store(&edges);
    let reference = DijkstraHelper::new(&original);
    for budget in 0..18 {
        let mut contractor = Contractor::new(original.clone());
        contractor.contract_nodes(budget);
        let done = contractor.node_levels().iter().filter(|&&l| l != u32::MAX).count();
        assert_eq!(done, budget.min(16));
        let engine = ChDijsktra::new(contractor.get_graph().unwrap());
        for s in 0..16 {
            for t in 0..16 {
                assert_eq!(
                    engine.single_pair_shortest_path(s, t).cost,
                    reference.single_pair(s, t)
                );
            }
        }
    }
}

#[test]
fn the_route_is_a_way_of_the_cost_that_is_found() {
    let edges = scattered(20, 50, 15, 5);
    let original = store(&edges);
    let mut contractor = Contractor::new(original.clone());
    let shortcuts = contractor.contract(Duration::from_secs(3600));
    let engine = ChDijsktra::new(contractor.get_graph().unwrap());
    let cheapest = |a: u32, b: u32| {
        edges
            .iter()
            .chain(shortcuts.iter())
            .filter(|e| e.source == a && e.target == b)
            .map(|e| e.cost)
            .min()
    };
    for s in 0..20 {
        for t in 0..20 {
            let found = engine.single_pair_shortest_path(s, t);
            assert_eq!(found.source, s);
            assert_eq!(found.target, t);
            match found.cost {
                None => assert!(found.route.is_empty()),
                Some(cost) => {
                    assert_eq!(found.route.first(), Some(&s));
                    assert_eq!(found.route.last(), Some(&t));
                    let mut sum = 0;
                    for pair in found.route.windows(2) {
                        sum += cheapest(pair[0], pair[1]).expect("an edge of the hierarchy");
                    }
                    assert_eq!(sum, cost);
                },
            }
        }
    }
}

#[test]
fn levels_are_monotone_along_the_edges_that_stay() {
    let edges = scattered(20, 50, 15, 9);
    let mut contractor = Contractor::new(store(&edges));
    contractor.contract(Duration::from_secs(3600));
    let levels = contractor.node_levels().clone();
    let graph = contractor.get_graph().unwrap();
    for list in &graph.outgoing_edges {
        for e in list {
            assert!(levels[e.source as usize] <= levels[e.target as usize]);
        }
    }
    for list in &graph.incoming_edges {
        for e in list {
            assert!(levels[e.source as usize] >= levels[e.target as usize]);
        }
    }
    let mut sorted = levels.clone();
    sorted.sort();
    assert_eq!(sorted, (0..20).collect::<Vec<u32>>());
}

#[test]
fn every_shortcut_bridges_a_node_that_was_contracted_before_its_ends() {
    let edges = scattered(20, 50, 15, 13);
    let mut contractor = Contractor::new(store(&edges));
    let shortcuts = contractor.contract(Duration::from_secs(3600));
    let levels = contractor.node_levels().clone();
    assert!(!shortcuts.is_empty());
    let all: Vec<Edge> = edges.iter().chain(shortcuts.iter()).copied().collect();
    for s in &shortcuts {
        assert_ne!(s.source, s.target);
        let bridged = all.iter().any(|a| {
            a.source == s.source
                && levels[a.target as usize] < levels[s.source as usize]
                && levels[a.target as usize] < levels[s.target as usize]
                && all.iter().any(|b| {
                    b.source == a.target
                        && b.target == s.target
                        && a.cost as u64 + b.cost as u64 == s.cost as u64
                })
        });
        assert!(bridged, "{:?}", s);
    }
}

#[test]
fn contraction_repeats_whatever_the_seed() {
    let edges = scattered(20, 50, 15, 21);
    let weights = Weights {
        deleted_neighbors: 1,
        cost_of_queries: 1,
        edge_difference: 1,
        voronoi_region: 1,
    };
    let mut first = Contractor::with_seed(store(&edges), weights, 1);
    let mut second = Contractor::with_seed(store(&edges), weights, 2);
    let mut third = Contractor::new(store(&edges));
    let a = first.contract_nodes(20);
    let b = second.contract_nodes(20);
    let c = third.contract(Duration::from_secs(3600));
    assert_eq!(a, b);
    assert_eq!(a, c);
    assert_eq!(first.node_levels(), second.node_levels());
    assert_eq!(first.node_levels(), third.node_levels());
    let g1 = first.get_graph().unwrap();
    let g2 = second.get_graph().unwrap();
    assert_eq!(g1.outgoing_edges, g2.outgoing_edges);
    assert_eq!(g1.incoming_edges, g2.incoming_edges);
}

#[test]
fn weights_change_the_order_not_the_answers() {
    let edges = scattered(16, 40, 12, 17);
    let original = store(&edges);
    let reference = DijkstraHelper::new(&original);
    let weights = Weights {
        deleted_neighbors: 3,
        cost_of_queries: 0,
        edge_difference: 5,
        voronoi_region: -2,
    };
    let mut contractor = Contractor::with_seed(original.clone(), weights, 7);
    contractor.contract(Duration::from_secs(3600));
    let engine = ChDijsktra::new(contractor.get_graph().unwrap());
    for s in 0..16 {
        for t in 0..16 {
            assert_eq!(engine.single_pair_shortest_path(s, t).cost, reference.single_pair(s, t));
        }
    }
}

#[test]
fn contract_node_inserts_shortcuts_and_takes_the_node_out() {
    let mut contractor = Contractor::new(store(&[
        edge(0, 1, 3),
        edge(1, 2, 4),
        edge(3, 1, 1),
        edge(1, 4, 2),
        edge(0, 2, 9),
    ]));
    let shortcuts = contractor.contract_node(1);
    assert_eq!(
        shortcuts,
        vec![edge(0, 2, 7), edge(0, 4, 5), edge(3, 2, 5), edge(3, 4, 3)]
    );
    let graph = contractor.get_graph().unwrap();
    assert_eq!(graph.outgoing_edges[1], vec![]);
    assert_eq!(graph.incoming_edges[1], vec![]);
    assert_eq!(graph.outgoing_edges[0], vec![edge(0, 2, 9), edge(0, 2, 7), edge(0, 4, 5)]);
    assert_eq!(graph.outgoing_edges[3], vec![edge(3, 2, 5), edge(3, 4, 3)]);
    assert_eq!(graph.incoming_edges[4], vec![edge(0, 4, 5), edge(3, 4, 3)]);
}

#[test]
fn the_level_property_keeps_upward_and_downward_edges() {
    let mut contractor = Contractor::new(store(&[edge(0, 1, 1), edge(1, 0, 2), edge(1, 2, 3)]));
    contractor.contract_nodes(1);
    let levels = contractor.node_levels().clone();
    let first = levels.iter().position(|&l| l == 0).unwrap() as u32;
    let graph = contractor.get_graph().unwrap();
    for list in &graph.outgoing_edges {
        for e in list {
            assert_ne!(e.target, first);
        }
    }
    for list in &graph.incoming_edges {
        for e in list {
            assert_ne!(e.source, first);
        }
    }
}
