//! The edge type shared by every graph store, the adjacency list that a
//! loader fills, and the result of a query.

use crate::rows::all_inverted;
use crate::rows::append_to_row;
use crate::rows::bucket_edges;
use crate::rows::bucketed;
use crate::rows::flat;
use crate::rows::flatten_rows;
use crate::rows::appended;
use crate::rows::grow_rows;
use crate::rows::grown;
use crate::rows::lists;
use crate::rows::top_node;
use vstd::prelude::*;

verus! {

/// A directed edge with a non-negative cost.
#[derive(Debug, Clone, Copy, PartialEq, Eq, Hash, Structural)]
pub struct Edge {
    pub source: u32,
    pub target: u32,
    pub cost: u32,
}

impl Edge {
    /// The same edge walked the other way.
    pub fn invert(&self) -> (inverted: Self)
        ensures
            inverted == (Edge { source: self.target, target: self.source, cost: self.cost }),
    {
        Edge { source: self.target, target: self.source, cost: self.cost }
    }
}

/// A node of a hierarchy: the rank at which it was contracted.
#[derive(Debug, Clone, Copy, PartialEq, Eq, Structural)]
pub struct Node {
    pub level: u32,
}

/// The answer to a query: the cost of a cheapest path, if there is a path,
/// and the nodes of the hierarchy that it passes through, from `source` to
/// `target`.
#[derive(Debug, Clone)]
pub struct Route {
    pub source: u32,
    pub target: u32,
    pub cost: Option<u32>,
    pub route: Vec<u32>,
}

/// Adjacency lists of outgoing edges, indexed by source node.
#[derive(Debug, Clone)]
pub struct Graph {
    pub outgoing_edges: Vec<Vec<Edge>>,
}

impl Graph {
    /// The rows of the graph.
    pub open spec fn rows(&self) -> Seq<Seq<Edge>> {
        lists(self.outgoing_edges@)
    }

    pub fn new() -> (graph: Self)
        ensures
            graph.rows() == Seq::<Seq<Edge>>::empty(),
    {
        let graph = Graph { outgoing_edges: Vec::new() };
        assert(graph.rows() =~= Seq::<Seq<Edge>>::empty());
        graph
    }

    /// Appends `edge` to the list of its source, after growing the node range
    /// so that both endpoints are nodes of the graph.
    pub fn add_edge(&mut self, edge: Edge)
        ensures
            final(self).rows() == appended(
                grown(old(self).rows(), (top_node(edge) + 1) as nat),
                edge.source as int,
                edge,
            ),
    {
        let top = if edge.source >= edge.target {
            edge.source
        } else {
            edge.target
        };
        grow_rows(&mut self.outgoing_edges, top);
        append_to_row(&mut self.outgoing_edges, edge.source as usize, edge);
    }
}

impl Default for Graph {
    fn default() -> (graph: Self)
        ensures
            graph.rows() == Seq::<Seq<Edge>>::empty(),
    {
        Graph::new()
    }
}

/// The graph of the edges of `graph`, each walked the other way, in the
/// order of its lists, over the same nodes.
pub fn invert_graph(graph: &Graph) -> (inverted: Graph)
    requires
        graph.rows().len() <= u32::MAX + 1,
    ensures
        inverted.rows() == bucketed(all_inverted(flat(graph.rows())), graph.rows().len()),
{
    let edges = flatten_rows(&graph.outgoing_edges, true);
    Graph { outgoing_edges: bucket_edges(&edges, graph.outgoing_edges.len()) }
}

} // verus!
