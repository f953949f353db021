//! The graph file format: five lines that are skipped, a line with the
//! number of nodes, a line with the number of edges, then a line for each
//! node and a line for each edge.
//!
//! A node line holds at least five fields, of which the first is the id; a
//! sixth, if there is one, is the level. An edge line starts with the
//! source, the target and the cost. Coordinates and whatever else a line
//! holds are not looked at.

use crate::graph::Edge;
use crate::graph::Graph;
use crate::graph::Node;
use crate::text::Lines;
use crate::text::has_field;
use crate::text::has_line;
use crate::text::line;
use crate::text::line_has_field;
use crate::text::number_at;
use crate::text::read_number_at;
use vstd::prelude::*;

verus! {

/// The number of lines at the head of a graph file that are skipped.
pub const SKIP_LINES: usize = 5;

/// The line of a file that could not be read, counting from zero: it is
/// missing, or it does not hold what the format asks for.
#[derive(Debug, Clone, Copy, PartialEq, Eq, Structural)]
pub struct ParseError {
    pub line: usize,
}

/// What a graph file holds.
#[derive(Debug)]
pub struct GraphFile {
    pub nodes: Vec<Node>,
    pub edges: Vec<Edge>,
}

/// The node that a line of the file describes.
pub open spec fn node_of(l: Seq<u8>) -> Option<Node> {
    if number_at(l, 0) is Some && has_field(l, 4) {
        if has_field(l, 5) {
            match number_at(l, 5) {
                Some(level) => Some(Node { level }),
                None => None,
            }
        } else {
            Some(Node { level: 0 })
        }
    } else {
        None
    }
}

/// The edge that a line of the file describes.
pub open spec fn edge_of(l: Seq<u8>) -> Option<Edge> {
    match (number_at(l, 0), number_at(l, 1), number_at(l, 2)) {
        (Some(source), Some(target), Some(cost)) => Some(Edge { source, target, cost }),
        _ => None,
    }
}

/// The number of nodes that the file announces.
pub open spec fn node_count(s: Seq<u8>) -> nat {
    number_at(line(s, 5), 0)->0 as nat
}

/// The number of edges that the file announces.
pub open spec fn edge_count(s: Seq<u8>) -> nat {
    number_at(line(s, 6), 0)->0 as nat
}

/// The two lines with the numbers of nodes and edges are there and hold
/// numbers.
pub open spec fn counts_ok(s: Seq<u8>) -> bool {
    &&& has_line(s, 5)
    &&& number_at(line(s, 5), 0) is Some
    &&& has_line(s, 6)
    &&& number_at(line(s, 6), 0) is Some
}

/// Line `k` of the file, counting from zero, is as the format asks: there
/// if it is needed, and holding what its place calls for.
pub open spec fn line_ok(s: Seq<u8>, k: nat) -> bool {
    if k < 5 {
        has_line(s, k)
    } else if k < 7 {
        has_line(s, k) && number_at(line(s, k), 0) is Some
    } else if !counts_ok(s) {
        true
    } else if k < 7 + node_count(s) {
        has_line(s, k) && node_of(line(s, k)) is Some
    } else if k < 7 + node_count(s) + edge_count(s) {
        has_line(s, k) && edge_of(line(s, k)) is Some
    } else {
        true
    }
}

/// `file` holds what the text `s` describes.
pub open spec fn holds(file: GraphFile, s: Seq<u8>) -> bool {
    &&& file.nodes@.len() == node_count(s)
    &&& file.edges@.len() == edge_count(s)
    &&& forall|k: int|
        0 <= k < file.nodes@.len() ==> node_of(line(s, (7 + k) as nat)) == Some(
            #[trigger] file.nodes@[k],
        )
    &&& forall|k: int|
        0 <= k < file.edges@.len() ==> edge_of(line(s, (7 + node_count(s) + k) as nat)) == Some(
            #[trigger] file.edges@[k],
        )
}

/// The node that the line describes.
pub fn read_node(l: &[u8]) -> (node: Option<Node>)
    ensures
        node == node_of(l@),
{
    if read_number_at(l, 0).is_none() || !line_has_field(l, 4) {
        return None;
    }
    if line_has_field(l, 5) {
        match read_number_at(l, 5) {
            Some(level) => Some(Node { level }),
            None => None,
        }
    } else {
        Some(Node { level: 0 })
    }
}

/// The edge that the line describes.
pub fn read_edge(l: &[u8]) -> (edge: Option<Edge>)
    ensures
        edge == edge_of(l@),
{
    let source = match read_number_at(l, 0) {
        Some(v) => v,
        None => {
            return None;
        },
    };
    let target = match read_number_at(l, 1) {
        Some(v) => v,
        None => {
            return None;
        },
    };
    let cost = match read_number_at(l, 2) {
        Some(v) => v,
        None => {
            return None;
        },
    };
    Some(Edge { source, target, cost })
}

/// Reads a graph file: the nodes and edges that it holds, or the first line
/// that is missing or not as the format asks.
pub fn parse_graph(text: &[u8]) -> (parsed: Result<GraphFile, ParseError>)
    ensures
        match parsed {
            Ok(file) => counts_ok(text@) && holds(file, text@) && forall|k: nat| line_ok(text@, k),
            Err(error) => !line_ok(text@, error.line as nat) && forall|k: nat|
                k < error.line ==> line_ok(text@, k),
        },
{
    let ghost s = text@;
    let mut lines = Lines::new(text);
    let mut skipped: usize = 0;
    while skipped < SKIP_LINES
        invariant
            0 <= skipped <= SKIP_LINES,
            s == text@,
            lines.wf(),
            lines.text() == s,
            lines.count() == skipped,
            forall|k: nat| k < skipped ==> line_ok(s, k),
        decreases SKIP_LINES - skipped,
    {
        match lines.next_line() {
            None => {
                return Err(ParseError { line: skipped });
            },
            Some(_) => {},
        }
        skipped += 1;
    }
    let nodes_wanted = match lines.next_line() {
        None => {
            return Err(ParseError { line: 5 });
        },
        Some(l) => match read_number_at(l, 0) {
            None => {
                return Err(ParseError { line: 5 });
            },
            Some(n) => n,
        },
    };
    let edges_wanted = match lines.next_line() {
        None => {
            return Err(ParseError { line: 6 });
        },
        Some(l) => match read_number_at(l, 0) {
            None => {
                return Err(ParseError { line: 6 });
            },
            Some(m) => m,
        },
    };
    assert(counts_ok(s));
    assert(nodes_wanted == node_count(s) && edges_wanted == edge_count(s));
    let mut nodes: Vec<Node> = Vec::new();
    let mut i: u32 = 0;
    while i < nodes_wanted
        invariant
            0 <= i <= nodes_wanted,
            counts_ok(s),
            nodes_wanted == node_count(s),
            edges_wanted == edge_count(s),
            s == text@,
            lines.wf(),
            lines.text() == s,
            lines.count() == 7 + i,
            nodes@.len() == i,
            forall|k: nat| k < 7 + i ==> line_ok(s, k),
            forall|k: int|
                0 <= k < i ==> node_of(line(s, (7 + k) as nat)) == Some(#[trigger] nodes@[k]),
        decreases nodes_wanted - i,
    {
        let number = lines.line_number();
        let found = match lines.next_line() {
            None => None,
            Some(l) => read_node(l),
        };
        match found {
            None => {
                return Err(ParseError { line: number });
            },
            Some(node) => {
                nodes.push(node);
            },
        }
        i += 1;
    }
    let mut edges: Vec<Edge> = Vec::new();
    let mut j: u32 = 0;
    while j < edges_wanted
        invariant
            0 <= j <= edges_wanted,
            counts_ok(s),
            nodes_wanted == node_count(s),
            edges_wanted == edge_count(s),
            s == text@,
            lines.wf(),
            lines.text() == s,
            lines.count() == 7 + nodes_wanted + j,
            nodes@.len() == nodes_wanted,
            edges@.len() == j,
            forall|k: nat| k < 7 + nodes_wanted + j ==> line_ok(s, k),
            forall|k: int|
                0 <= k < nodes_wanted ==> node_of(line(s, (7 + k) as nat)) == Some(
                    #[trigger] nodes@[k],
                ),
            forall|k: int|
                0 <= k < j ==> edge_of(line(s, (7 + nodes_wanted + k) as nat)) == Some(
                    #[trigger] edges@[k],
                ),
        decreases edges_wanted - j,
    {
        let number = lines.line_number();
        let found = match lines.next_line() {
            None => None,
            Some(l) => read_edge(l),
        };
        match found {
            None => {
                return Err(ParseError { line: number });
            },
            Some(edge) => {
                edges.push(edge);
            },
        }
        j += 1;
    }
    Ok(GraphFile { nodes, edges })
}

/// Reads graph files.
pub struct GraphFileReader {}

impl GraphFileReader {
    pub fn new() -> (reader: Self) {
        GraphFileReader {  }
    }

    /// The graph of the edges that the text of a graph file holds, each
    /// added in the order of the file; or the first line of the text that
    /// is missing or not as the format asks.
    pub fn from_text(&self, text: &[u8]) -> (read: Result<Graph, ParseError>)
        ensures
            match read {
                Ok(graph) => counts_ok(text@) && graph.rows() == crate::rows::bucketed(
                    edges_of(text@, edge_count(text@)),
                    0,
                ) && forall|k: nat| line_ok(text@, k),
                Err(error) => !line_ok(text@, error.line as nat) && forall|k: nat|
                    k < error.line ==> line_ok(text@, k),
            },
    {
        match parse_graph(text) {
            Err(error) => Err(error),
            Ok(file) => {
                let mut graph = Graph::new();
                let mut i: usize = 0;
                let ghost s = text@;
                assert(edges_of(s, 0) =~= Seq::<Edge>::empty());
                assert(graph.rows() =~= crate::rows::bucketed(Seq::<Edge>::empty(), 0));
                while i < file.edges.len()
                    invariant
                        0 <= i <= file.edges@.len(),
                        holds(file, s),
                        graph.rows() == crate::rows::bucketed(edges_of(s, i as nat), 0),
                    decreases file.edges@.len() - i,
                {
                    graph.add_edge(file.edges[i]);
                    proof {
                        assert(edges_of(s, (i + 1) as nat).drop_last() =~= edges_of(s, i as nat));
                        assert(edges_of(s, (i + 1) as nat).last() == file.edges@[i as int]);
                    }
                    i += 1;
                }
                Ok(graph)
            },
        }
    }
}

/// The first `n` edges that the text of a graph file describes.
pub open spec fn edges_of(s: Seq<u8>, n: nat) -> Seq<Edge> {
    Seq::new(n, |k: int| edge_of(line(s, (7 + node_count(s) + k) as nat))->0)
}

} // verus!
