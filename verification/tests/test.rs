use route_planner::bidirectional_graph::BidirectionalGraph;
use route_planner::ch_dijkstra::ChDijsktra;
use route_planner::contractor::Contractor;
use route_planner::dijkstra_helper::DijkstraHelper;
use route_planner::fmi_reader::GraphFileReader;
use route_planner::test_file_reader::get_test_cases;
use std::time::Duration;

const GRAPH_TEXT: &str = "# a town\n# of eight crossings\n\n\n\n8\n14\n0 0 48.70 9.10 250\n1 1 48.71 9.11 251\n2 2 48.72 9.12 252\n3 3 48.73 9.13 253\n4 4 48.74 9.14 254\n5 5 48.75 9.15 255\n6 6 48.76 9.16 256\n7 7 48.77 9.17 257\n0 1 4 5 50\n1 0 4 5 50\n1 2 3 5 50\n2 1 3 5 50\n2 3 6 5 50\n3 2 6 5 50\n3 4 2 5 30\n4 5 7 5 30\n5 0 1 5 30\n0 4 20 5 100\n1 5 9 5 100\n5 6 3 5 50\n6 5 3 5 50\n2 6 11 5 50\n";

#[test]
fn main() {
    let graph_file_reader = GraphFileReader::new();
    let graph = graph_file_reader.from_text(GRAPH_TEXT.as_bytes()).unwrap();
    let graph = BidirectionalGraph::from_graph(&graph);

    let mut tests = String::new();
    {
        let reference = DijkstraHelper::new(&graph);
        let nodes = graph.node_count() as u32;
        assert_eq!(nodes, 7);
        for source in 0..nodes {
            for target in 0..nodes {
                let cost = match reference.single_pair(source, target) {
                    Some(cost) => cost as i32,
                    None => -1,
                };
                tests.push_str(&format!("{} {} {}\n", source, target, cost));
            }
        }
    }

    let mut contractor = Contractor::new(graph);
    contractor.contract(Duration::from_secs(3600));
    let graph = contractor.get_graph().unwrap();

    let dijskstra = ChDijsktra::new(graph);

    let test_cases = get_test_cases(tests.as_bytes()).unwrap();
    assert_eq!(test_cases.len(), 49);
    for test in &test_cases {
        let cost = dijskstra.single_pair_shortest_path(test.source, test.target).cost;
        let cost = match cost {
            Some(cost) => cost as i32,
            None => -1,
        };

        assert_eq!(cost, test.cost);
    }
    assert_eq!(dijskstra.single_pair_shortest_path(0, 3).cost, Some(13));
    assert_eq!(dijskstra.single_pair_shortest_path(3, 0).cost, Some(10));
    assert_eq!(dijskstra.single_pair_shortest_path(7, 0).cost, None);
    assert_eq!(dijskstra.single_pair_shortest_path(0, 7).cost, None);
}
