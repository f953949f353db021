//! The cost-of-queries term: a running depth that is pushed on to the
//! neighbors of each contracted node.

use crate::bidirectional_graph::BidirectionalGraph;
use crate::graph::Edge;
use crate::priority_term::priority_terms::PriorityTerm;
use crate::priority_term::priority_terms::clamp;
use vstd::prelude::*;

verus! {

/// One more than `depth`, where that fits.
pub open spec fn one_deeper(depth: u32) -> u32 {
    if depth == u32::MAX {
        depth
    } else {
        (depth + 1) as u32
    }
}

/// `depth` after the edges of `row`, one after the other, have each raised
/// the depth of their target to one more than the depth of `v`, where it
/// was lower. An edge to a node without a depth changes nothing.
pub open spec fn deepened(depth: Seq<u32>, v: int, row: Seq<Edge>) -> Seq<u32>
    decreases row.len(),
{
    if row.len() == 0 {
        depth
    } else {
        let before = deepened(depth, v, row.drop_last());
        let w = row.last().target as int;
        if w < before.len() && before[w] < one_deeper(before[v]) {
            before.update(w, one_deeper(before[v]))
        } else {
            before
        }
    }
}

/// The depth of each node: the longest chain of contractions that led up to
/// it, counted in nodes.
pub struct CostOfQueriesPriority {
    cost_of_queries: Vec<u32>,
}

impl CostOfQueriesPriority {
    /// The depth of each node.
    pub closed spec fn depth(&self) -> Seq<u32> {
        self.cost_of_queries@
    }

    pub fn new(graph: &BidirectionalGraph) -> (term: Self)
        ensures
            term.depth() == Seq::new(graph.nodes(), |i: int| 0u32),
    {
        let n = graph.outgoing_edges.len();
        let mut cost_of_queries: Vec<u32> = Vec::with_capacity(n);
        let mut i: usize = 0;
        while i < n
            invariant
                0 <= i <= n,
                cost_of_queries@.len() == i,
                forall|v: int| 0 <= v < i ==> #[trigger] cost_of_queries@[v] == 0,
            decreases n - i,
        {
            cost_of_queries.push(0);
            i += 1;
        }
        assert(cost_of_queries@ =~= Seq::new(graph.nodes(), |i: int| 0u32));
        Self { cost_of_queries }
    }
}

pub proof fn lemma_deepened_len(depth: Seq<u32>, v: int, row: Seq<Edge>)
    ensures
        deepened(depth, v, row).len() == depth.len(),
    decreases row.len(),
{
    if row.len() > 0 {
        lemma_deepened_len(depth, v, row.drop_last());
    }
}

impl PriorityTerm for CostOfQueriesPriority {
    open spec fn fits(&self, graph: &BidirectionalGraph) -> bool {
        self.depth().len() == graph.nodes()
    }

    open spec fn value(&self, graph: &BidirectionalGraph, v: u32) -> int {
        self.depth()[v as int] as int
    }

    fn priority(&self, graph: &BidirectionalGraph, v: u32) -> (p: i32) {
        clamp(self.cost_of_queries[v as usize] as i128)
    }

    /// Raises the depth of each node that an edge leads to from `v` to one
    /// more than the depth of `v`, where it was lower.
    fn update(&mut self, graph: &BidirectionalGraph, v: u32)
        ensures
            final(self).depth() == deepened(old(self).depth(), v as int, graph.out()[v as int]),
    {
        let row = &graph.outgoing_edges[v as usize];
        let ghost start = self.cost_of_queries@;
        let mut i: usize = 0;
        assert(row@.take(0) =~= Seq::<Edge>::empty());
        while i < row.len()
            invariant
                0 <= i <= row@.len(),
                v < start.len(),
                self.cost_of_queries@.len() == start.len(),
                self.cost_of_queries@ == deepened(start, v as int, row@.take(i as int)),
            decreases row@.len() - i,
        {
            let edge = row[i];
            let w = edge.target as usize;
            proof {
                let next = row@.take(i + 1);
                assert(next.drop_last() =~= row@.take(i as int));
                assert(next.last() == edge);
            }
            let here = self.cost_of_queries[v as usize];
            let deeper = if here == u32::MAX {
                here
            } else {
                here + 1
            };
            if w < self.cost_of_queries.len() && self.cost_of_queries[w] < deeper {
                self.cost_of_queries[w] = deeper;
            }
            i += 1;
        }
        assert(row@.take(i as int) =~= row@);
    }
}

} // verus!
