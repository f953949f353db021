use rand::rngs::StdRng;
use rand::Rng;
use rand::SeedableRng;
use route_planner::bidirectional_graph::BidirectionalGraph;
use route_planner::ch_dijkstra::ChDijsktra;
use route_planner::contractor::Contractor;
use route_planner::dijkstra_helper::DijkstraHelper;
use route_planner::fmi_reader::GraphFileReader;
use route_planner::heuristic::Heuristic;
use route_planner::landmark_heuristic::LandmarkHeuristic;
use route_planner::test_file_reader::get_test_cases;
use std::time::Duration;

/// A graph file of a ring of `nodes` nodes with `chords` chords between
/// nodes drawn by chance.
fn graph_file(nodes: u32, chords: u32, seed: u64) -> String {
    let mut rng = StdRng::seed_from_u64(seed);
    let mut text = String::from("# ring\n# with chords\n\n\n\n");
    text.push_str(&format!("{}\n{}\n", nodes, 2 * nodes + chords));
    for v in 0..nodes {
        text.push_str(&format!("{} {} 48.{} 9.{} 0\n", v, v, v, v));
    }
    for v in 0..nodes {
        let next = (v + 1) % nodes;
        text.push_str(&format!("{} {} {} 3 50\n", v, next, rng.gen_range(1..30)));
        text.push_str(&format!("{} {} {} 3 50\n", next, v, rng.gen_range(1..30)));
    }
    for _ in 0..chords {
        let a = rng.gen_range(0..nodes);
        let b = rng.gen_range(0..nodes);
        text.push_str(&format!("{} {} {} 3 50\n", a, b, rng.gen_range(1..60)));
    }
    text
}

/// A test file for `graph`: pairs drawn by chance, with the cost that a
/// plain search finds.
fn test_file(graph: &BidirectionalGraph, pairs: u32, seed: u64) -> String {
    let mut rng = StdRng::seed_from_u64(seed);
    let nodes = graph.node_count() as u32;
    let reference = DijkstraHelper::new(graph);
    let mut text = String::new();
    for _ in 0..pairs {
        let source = rng.gen_range(0..nodes);
        let target = rng.gen_range(0..nodes);
        let cost = match reference.single_pair(source, target) {
            Some(cost) => cost as i32,
            None => -1,
        };
        text.push_str(&format!("{} {} {}\n", source, target, cost));
    }
    text
}

#[test]
fn test_landmark() {
    let graph_file_reader = GraphFileReader::new();
    let graph = graph_file_reader.from_text(graph_file(120, 80, 1).as_bytes()).unwrap();
    let graph = BidirectionalGraph::from_graph(&graph);
    let number_nodes = graph.outgoing_edges.len();

    let i = 150;
    let heuristic = LandmarkHeuristic::new(&graph, i);

    let dijskstra = DijkstraHelper::new(&graph);

    let mut rng = rand::thread_rng();
    let mut lower_percentages = Vec::new();
    let mut upper_percentages = Vec::new();

    for _ in 0..1000 {
        let source = rng.gen_range(0..number_nodes) as u32;
        let target = rng.gen_range(0..number_nodes) as u32;
        let lower_bound = heuristic.lower_bound(source, target).unwrap_or(0);
        let true_cost = dijskstra.single_pair(source, target).unwrap_or(0);
        let upper_bound = heuristic.upper_bound(source, target).unwrap_or(0);

        let mut lower_percentage = 100.0 - (lower_bound as f32 / (true_cost as f32 / 100.0));
        if lower_percentage.is_nan() {
            lower_percentage = 0.0;
        }
        lower_percentages.push(lower_percentage);

        let mut upper_percentage = (upper_bound as f32 / (true_cost as f32 / 100.0)) - 100.0;
        if upper_percentage.is_nan() {
            upper_percentage = 0.0;
        }
        upper_percentages.push(upper_percentage);

        assert!(lower_bound <= true_cost);
        assert!(true_cost <= upper_bound);
    }

    let lower: f32 = lower_percentages.iter().sum();
    let lower = lower / (lower_percentages.len() as f32);

    let upper: f32 = upper_percentages.iter().sum();
    let upper = upper / (upper_percentages.len() as f32);
    println!("{} {} {}", i, lower, upper);
}

#[test]
fn test_route_correctness() {
    let graph_file_reader = GraphFileReader::new();
    let graph = graph_file_reader.from_text(graph_file(60, 50, 2).as_bytes()).unwrap();
    let graph = BidirectionalGraph::from_graph(&graph);
    let tests = test_file(&graph, 25, 3);

    let mut contractor = Contractor::new(graph);

    let shortcuts = contractor.contract(Duration::from_secs(3600));
    println!("there are {} shortcuts", shortcuts.len());
    let graph = contractor.get_graph().unwrap();

    let dijskstra = ChDijsktra::new(graph);

    println!("contracting graph took {:?}, there are {} shortcuts", Duration::ZERO, shortcuts.len());

    let test_cases = get_test_cases(tests.as_bytes()).unwrap();
    assert_eq!(test_cases.len(), 25);
    for _ in 0..1_000 {
        for test in &test_cases {
            let route = dijskstra.single_pair_shortest_path(test.source, test.target);

            let cost = match route.cost {
                Some(cost) => cost as i32,
                None => -1,
            };

            // test sum of cost
            assert_eq!(
                cost, test.cost,
                "cost {} -> {} should be {} but is {}",
                test.source, test.target, test.cost, cost
            );
        }
    }

    println!("sum of time is {:?}", Duration::ZERO);
    println!("average time was {:?}", Duration::ZERO);
}

#[test]
fn unreachable_pairs_are_marked_in_a_test_file() {
    let graph_file_reader = GraphFileReader::new();
    let text = "\n\n\n\n\n4\n3\n0 0 0 0 0\n1 1 0 0 0\n2 2 0 0 0\n3 3 0 0 0\n0 1 5 0 0\n1 2 5 0 0\n3 2 1 0 0\n";
    let graph = BidirectionalGraph::from_graph(&graph_file_reader.from_text(text.as_bytes()).unwrap());
    let tests = test_file(&graph, 60, 9);
    assert!(tests.contains("-1"));
    let mut contractor = Contractor::new(graph);
    contractor.contract(Duration::from_secs(3600));
    let engine = ChDijsktra::new(contractor.get_graph().unwrap());
    for test in get_test_cases(tests.as_bytes()).unwrap() {
        let cost = match engine.single_pair_shortest_path(test.source, test.target).cost {
            Some(cost) => cost as i32,
            None => -1,
        };
        assert_eq!(cost, test.cost);
    }
}
