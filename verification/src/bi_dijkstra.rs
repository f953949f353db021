//! The search from both ends over a graph as it is, without a hierarchy.

use crate::bidirectional_graph::BidirectionalGraph;
use crate::ch_dijkstra::ChDijsktra;
use crate::contraction::has_up_down;
use crate::contraction::hierarchy_of;
use crate::graph::Edge;
use crate::laws::lemma_query_finds_distance;
use crate::laws::lemma_query_finds_none;
use crate::paths::inverted;
use crate::paths::is_distance;
use crate::paths::is_path;
use crate::paths::lemma_empty_path;
use crate::paths::lemma_inverted_twice;
use crate::paths::lemma_single_edge;
use crate::paths::path_cost;
use vstd::prelude::*;

verus! {

/// A forward search from the source and a backward search from the target
/// that meet in the middle, over every edge of the graph.
pub struct BiDijkstra {
    engine: ChDijsktra,
    edges: Ghost<Set<Edge>>,
}

/// A graph is a hierarchy over itself: every path goes up all the way.
pub proof fn lemma_flat_hierarchy(es: Set<Edge>)
    ensures
        hierarchy_of(es, es, es),
{
    assert forall|e: Edge| #[trigger] es.contains(e) implies crate::paths::reaches(
        es,
        e.source,
        e.target,
        e.cost as nat,
    ) by {
        lemma_single_edge(es, e);
    }
    assert forall|s: u32, t: u32, p: Seq<Edge>| #[trigger]
        is_path(es, p, s, t) && path_cost(p) < u32::MAX implies has_up_down(
        es,
        es,
        s,
        t,
        path_cost(p),
    ) by {
        lemma_empty_path(es, t);
        assert(is_path(es, p, s, t) && is_path(es, Seq::<Edge>::empty(), t, t));
    }
}

impl BiDijkstra {
    /// The edges of the graph.
    pub closed spec fn edges(&self) -> Set<Edge> {
        self.edges@
    }

    /// The number of nodes.
    pub closed spec fn nodes(&self) -> nat {
        self.engine.nodes()
    }

    /// Both searches run over the edges of the graph.
    pub closed spec fn wf(&self) -> bool {
        &&& self.engine.wf()
        &&& self.engine.forward() == self.edges@
        &&& self.engine.backward() == inverted(self.edges@)
    }

    pub fn new(graph: BidirectionalGraph) -> (search: BiDijkstra)
        requires
            graph.wf(),
            graph.mirrored(),
        ensures
            search.wf(),
            search.edges() == graph.out_edges(),
            search.nodes() == graph.nodes(),
    {
        let ghost edges = graph.out_edges();
        BiDijkstra { engine: ChDijsktra::new(graph), edges: Ghost(edges) }
    }

    /// The cost of a cheapest path from `start_node_id` to `end_node_id`, or
    /// `u32::MAX` if one of the two is no node of the graph or there is no
    /// path at a cost below `u32::MAX`.
    pub fn single_pair_shortest_path(&self, start_node_id: u32, end_node_id: u32) -> (cost: u32)
        requires
            self.wf(),
        ensures
            cost < u32::MAX ==> is_distance(self.edges(), start_node_id, end_node_id, cost as nat),
            cost == u32::MAX ==> start_node_id >= self.nodes() || end_node_id >= self.nodes()
                || forall|p: Seq<Edge>| #[trigger]
                is_path(self.edges(), p, start_node_id, end_node_id) ==> path_cost(p) >= u32::MAX,
    {
        let route = self.engine.single_pair_shortest_path(start_node_id, end_node_id);
        proof {
            lemma_flat_hierarchy(self.edges@);
            lemma_inverted_twice(self.edges@);
            match route.cost {
                Some(c) => {
                    lemma_query_finds_distance(
                        self.edges@,
                        self.edges@,
                        self.edges@,
                        start_node_id,
                        end_node_id,
                        c as nat,
                    );
                },
                None => {
                    if start_node_id < self.nodes() && end_node_id < self.nodes() {
                        lemma_query_finds_none(
                            self.edges@,
                            self.edges@,
                            self.edges@,
                            start_node_id,
                            end_node_id,
                        );
                    }
                },
            }
        }
        match route.cost {
            Some(cost) => cost,
            None => u32::MAX,
        }
    }
}

} // verus!
