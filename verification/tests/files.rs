use route_planner::fmi_reader::parse_graph;
use route_planner::fmi_reader::read_edge;
use route_planner::fmi_reader::read_node;
use route_planner::fmi_reader::GraphFileReader;
use route_planner::fmi_reader::ParseError;
use route_planner::graph::Edge;
use route_planner::graph::Graph;
use route_planner::graph::Node;
use route_planner::test_file_reader::get_test_cases;
use route_planner::test_file_reader::TestRoute;
use route_planner::text::read_number;
use route_planner::text::read_number_at;
use route_planner::text::read_signed_number;
use route_planner::text::Lines;

const SMALL: &str = "# a graph\n# of three nodes\n\n#\n#\n3\n4\n0 0 48.1 9.2 300\n1 1 48.2 9.3 310 7\n2 2 48.3 9.4 0\n0 1 3 5 50\n1 2 4 5 50\n0 2 9 5 50\n2 0 1\n";

#[test]
fn a_graph_file_is_read() {
    let file = parse_graph(SMALL.as_bytes()).unwrap();
    assert_eq!(file.nodes, vec![Node { level: 0 }, Node { level: 7 }, Node { level: 0 }]);
    assert_eq!(
        file.edges,
        vec![
            Edge { source: 0, target: 1, cost: 3 },
            Edge { source: 1, target: 2, cost: 4 },
            Edge { source: 0, target: 2, cost: 9 },
            Edge { source: 2, target: 0, cost: 1 },
        ]
    );
    let graph = GraphFileReader::new().from_text(SMALL.as_bytes()).unwrap();
    assert_eq!(graph.outgoing_edges.len(), 3);
    assert_eq!(
        graph.outgoing_edges[0],
        vec![Edge { source: 0, target: 1, cost: 3 }, Edge { source: 0, target: 2, cost: 9 }]
    );
}

#[test]
fn a_graph_file_with_carriage_returns_and_without_a_last_line_feed() {
    let text = "\r\n\r\n\r\n\r\n\r\n1\r\n1\r\n5 5 1.0 2.0 3\r\n0\t0   12\r\n";
    let file = parse_graph(text.as_bytes()).unwrap();
    assert_eq!(file.nodes.len(), 1);
    assert_eq!(file.edges, vec![Edge { source: 0, target: 0, cost: 12 }]);
    let text = "\n\n\n\n\n0\n1\n4 5 6";
    let file = parse_graph(text.as_bytes()).unwrap();
    assert_eq!(file.edges, vec![Edge { source: 4, target: 5, cost: 6 }]);
}

#[test]
fn a_malformed_graph_file_names_its_line() {
    let line_of = |text: &str| match parse_graph(text.as_bytes()) {
        Ok(_) => None,
        Err(ParseError { line }) => Some(line),
    };
    assert_eq!(line_of(""), Some(0));
    assert_eq!(line_of("a\nb\nc\n"), Some(3));
    assert_eq!(line_of("\n\n\n\n\n"), Some(5));
    assert_eq!(line_of("\n\n\n\n\nthree\n1\n"), Some(5));
    assert_eq!(line_of("\n\n\n\n\n3\n"), Some(6));
    assert_eq!(line_of("\n\n\n\n\n3\n-1\n"), Some(6));
    assert_eq!(line_of("\n\n\n\n\n0\n0\n"), None);
    assert_eq!(line_of("\n\n\n\n\n1\n0\n"), Some(7));
    assert_eq!(line_of("\n\n\n\n\n1\n0\n0 0 1.0 2.0\n"), Some(7));
    assert_eq!(line_of("\n\n\n\n\n1\n0\n0 0 1.0 2.0 3 x\n"), Some(7));
    assert_eq!(line_of("\n\n\n\n\n1\n1\n0 0 1.0 2.0 3\n0 1\n"), Some(8));
    assert_eq!(line_of("\n\n\n\n\n1\n2\n0 0 1.0 2.0 3\n0 1 2\n0 1 4294967296\n"), Some(9));
    assert_eq!(line_of("\n\n\n\n\n1\n2\n0 0 1.0 2.0 3\n0 1 2\n0 1 4294967295\n"), None);
    assert_eq!(
        GraphFileReader::new().from_text(b"\n\n\n\n\n0\n1\n1 2\n").map(|g: Graph| g.outgoing_edges.len()),
        Err(ParseError { line: 7 })
    );
}

#[test]
fn lines_of_a_graph_file() {
    assert_eq!(read_edge(b"  7 8   9 1 2"), Some(Edge { source: 7, target: 8, cost: 9 }));
    assert_eq!(read_edge(b"7 8"), None);
    assert_eq!(read_edge(b"7 8 x"), None);
    assert_eq!(read_edge(b"7 -8 9"), None);
    assert_eq!(read_node(b"1 1 0.5 0.25 100"), Some(Node { level: 0 }));
    assert_eq!(read_node(b"1 1 0.5 0.25 100 12"), Some(Node { level: 12 }));
    assert_eq!(read_node(b"1 1 0.5 0.25"), None);
    assert_eq!(read_node(b"x 1 0.5 0.25 100"), None);
}

#[test]
fn numbers_in_a_text() {
    assert_eq!(read_number(b"0"), Some(0));
    assert_eq!(read_number(b"007"), Some(7));
    assert_eq!(read_number(b"4294967295"), Some(u32::MAX));
    assert_eq!(read_number(b"4294967296"), None);
    assert_eq!(read_number(b"99999999999999999999999"), None);
    assert_eq!(read_number(b""), None);
    assert_eq!(read_number(b"12a"), None);
    assert_eq!(read_number(b"+5"), None);
    assert_eq!(read_signed_number(b"-1"), Some(-1));
    assert_eq!(read_signed_number(b"2147483647"), Some(i32::MAX));
    assert_eq!(read_signed_number(b"2147483648"), None);
    assert_eq!(read_signed_number(b"-2147483648"), Some(i32::MIN));
    assert_eq!(read_signed_number(b"-2147483649"), None);
    assert_eq!(read_signed_number(b"-"), None);
    assert_eq!(read_signed_number(b"--1"), None);
    assert_eq!(read_number_at(b" 1  22\t333 ", 0), Some(1));
    assert_eq!(read_number_at(b" 1  22\t333 ", 2), Some(333));
    assert_eq!(read_number_at(b" 1  22\t333 ", 3), None);
}

#[test]
fn lines_are_handed_out_one_by_one() {
    let mut lines = Lines::new(b"ab\n\ncd");
    assert_eq!(lines.line_number(), 0);
    assert_eq!(lines.next_line(), Some(&b"ab"[..]));
    assert_eq!(lines.next_line(), Some(&b""[..]));
    assert_eq!(lines.line_number(), 2);
    assert_eq!(lines.next_line(), Some(&b"cd"[..]));
    assert_eq!(lines.next_line(), None);
    assert_eq!(lines.line_number(), 3);
    let mut lines = Lines::new(b"ab\n");
    assert_eq!(lines.next_line(), Some(&b"ab"[..]));
    assert_eq!(lines.next_line(), None);
    let mut lines = Lines::new(b"");
    assert_eq!(lines.next_line(), None);
}

#[test]
fn a_test_file_is_read() {
    let cases = get_test_cases(b"0 2 7\n2 0 -1\n 5   5\t0 \n").unwrap();
    assert_eq!(
        cases,
        vec![
            TestRoute { source: 0, target: 2, cost: 7 },
            TestRoute { source: 2, target: 0, cost: -1 },
            TestRoute { source: 5, target: 5, cost: 0 },
        ]
    );
    assert_eq!(get_test_cases(b""), Ok(vec![]));
    assert_eq!(get_test_cases(b"0 2 7\n\n1 1 1\n"), Err(ParseError { line: 1 }));
    assert_eq!(get_test_cases(b"0 2 7\n1 x 1\n"), Err(ParseError { line: 1 }));
    assert_eq!(get_test_cases(b"0 2\n"), Err(ParseError { line: 0 }));
}
