//! The deleted-neighbors term: how many neighbors of a node are still there.

use crate::bidirectional_graph::BidirectionalGraph;
use crate::graph::Edge;
use crate::priority_term::priority_terms::PriorityTerm;
use crate::priority_term::priority_terms::clamp;
use vstd::prelude::*;

verus! {

/// Whether `node` is marked in `deleted`. A node without a mark is not.
pub open spec fn is_deleted(deleted: Seq<bool>, node: u32) -> bool {
    node < deleted.len() && deleted[node as int]
}

/// How many edges of `row` end in a node that is not deleted.
pub open spec fn live_targets(row: Seq<Edge>, deleted: Seq<bool>) -> nat
    decreases row.len(),
{
    if row.len() == 0 {
        0
    } else {
        live_targets(row.drop_last(), deleted) + (if is_deleted(deleted, row.last().target) {
            0nat
        } else {
            1nat
        })
    }
}

/// How many edges of `row` start at a node that is not deleted.
pub open spec fn live_sources(row: Seq<Edge>, deleted: Seq<bool>) -> nat
    decreases row.len(),
{
    if row.len() == 0 {
        0
    } else {
        live_sources(row.drop_last(), deleted) + (if is_deleted(deleted, row.last().source) {
            0nat
        } else {
            1nat
        })
    }
}

/// The count of a node's neighbors, over its outgoing and its incoming
/// edges, that have not been contracted yet.
pub struct DeletedNeighborsPriority {
    deleted: Vec<bool>,
}

impl DeletedNeighborsPriority {
    /// The mark of each node: whether it has been contracted.
    pub closed spec fn deleted(&self) -> Seq<bool> {
        self.deleted@
    }

    pub fn new(graph: &BidirectionalGraph) -> (term: Self)
        ensures
            term.deleted() == Seq::new(graph.nodes(), |i: int| false),
    {
        let n = graph.outgoing_edges.len();
        let mut deleted: Vec<bool> = Vec::with_capacity(n);
        let mut i: usize = 0;
        while i < n
            invariant
                0 <= i <= n,
                deleted@.len() == i,
                forall|v: int| 0 <= v < i ==> !#[trigger] deleted@[v],
            decreases n - i,
        {
            deleted.push(false);
            i += 1;
        }
        assert(deleted@ =~= Seq::new(graph.nodes(), |i: int| false));
        Self { deleted }
    }

    /// Whether `v` has been contracted.
    pub fn is_marked(&self, v: u32) -> (marked: bool)
        ensures
            marked == is_deleted(self.deleted(), v),
    {
        (v as usize) < self.deleted.len() && self.deleted[v as usize]
    }
}

impl PriorityTerm for DeletedNeighborsPriority {
    open spec fn fits(&self, graph: &BidirectionalGraph) -> bool {
        self.deleted().len() == graph.nodes()
    }

    open spec fn value(&self, graph: &BidirectionalGraph, v: u32) -> int {
        (live_targets(graph.out()[v as int], self.deleted()) + live_sources(
            graph.inc()[v as int],
            self.deleted(),
        )) as int
    }

    fn priority(&self, graph: &BidirectionalGraph, v: u32) -> (p: i32) {
        let outgoing = &graph.outgoing_edges[v as usize];
        let mut live_out: usize = 0;
        let mut i: usize = 0;
        assert(outgoing@.take(0) =~= Seq::<Edge>::empty());
        while i < outgoing.len()
            invariant
                0 <= i <= outgoing@.len(),
                live_out <= i,
                live_out == live_targets(outgoing@.take(i as int), self.deleted()),
            decreases outgoing@.len() - i,
        {
            let edge = outgoing[i];
            proof {
                let next = outgoing@.take(i + 1);
                assert(next.drop_last() =~= outgoing@.take(i as int));
                assert(next.last() == edge);
            }
            if !self.is_marked(edge.target) {
                live_out += 1;
            }
            i += 1;
        }
        assert(outgoing@.take(i as int) =~= outgoing@);
        let incoming = &graph.incoming_edges[v as usize];
        let mut live_in: usize = 0;
        let mut i: usize = 0;
        assert(incoming@.take(0) =~= Seq::<Edge>::empty());
        while i < incoming.len()
            invariant
                0 <= i <= incoming@.len(),
                live_in <= i,
                live_in == live_sources(incoming@.take(i as int), self.deleted()),
            decreases incoming@.len() - i,
        {
            let edge = incoming[i];
            proof {
                let next = incoming@.take(i + 1);
                assert(next.drop_last() =~= incoming@.take(i as int));
                assert(next.last() == edge);
            }
            if !self.is_marked(edge.source) {
                live_in += 1;
            }
            i += 1;
        }
        assert(incoming@.take(i as int) =~= incoming@);
        clamp(live_out as i128 + live_in as i128)
    }

    /// Marks `v` as contracted.
    fn update(&mut self, graph: &BidirectionalGraph, v: u32)
        ensures
            final(self).deleted() == old(self).deleted().update(v as int, true),
    {
        self.deleted[v as usize] = true;
    }
}

} // verus!
