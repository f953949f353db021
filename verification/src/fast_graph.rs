//! A frozen graph in one flat array: the edges of each node lie side by side,
//! and a second array says where each node's edges start.

use crate::graph::Edge;
use crate::rows::bucket_edges;
use crate::rows::bucketed;
use crate::rows::edges_by_source;
use crate::rows::lemma_bucketed;
use crate::rows::lists;
use crate::rows::rows_by_source;
use vstd::prelude::*;
use vstd::slice::slice_subrange;

verus! {

/// An edge whose source is known from where it is stored.
#[derive(Debug, Clone, Copy, PartialEq, Eq, Hash, Structural)]
pub struct FastEdge {
    pub target: u32,
    pub cost: u32,
}

/// `edge` as an edge that leaves `source`.
pub open spec fn leaving(source: int, edge: FastEdge) -> Edge {
    Edge { source: source as u32, target: edge.target, cost: edge.cost }
}

/// The edges of `row`, each as an edge that leaves `source`.
pub open spec fn row_leaving(source: int, row: Seq<FastEdge>) -> Seq<Edge> {
    Seq::new(row.len(), |i: int| leaving(source, row[i]))
}

pub struct FastGraph {
    edges: Vec<FastEdge>,
    edges_start_at: Vec<usize>,
}

impl FastGraph {
    /// The number of nodes.
    pub closed spec fn nodes(&self) -> nat {
        (self.edges_start_at@.len() - 1) as nat
    }

    /// The list of edges of each node.
    pub closed spec fn rows(&self) -> Seq<Seq<Edge>> {
        Seq::new(
            self.nodes(),
            |v: int|
                row_leaving(
                    v,
                    self.edges@.subrange(
                        self.edges_start_at@[v] as int,
                        self.edges_start_at@[v + 1] as int,
                    ),
                ),
        )
    }

    /// The offsets rise from zero to the number of edges, node ids fit the id
    /// type, and every edge ends at a node of the graph.
    pub closed spec fn wf(&self) -> bool {
        &&& self.edges_start_at@.len() >= 1
        &&& self.edges_start_at@.len() <= u32::MAX + 2
        &&& self.edges_start_at@[0] == 0
        &&& self.edges_start_at@.last() == self.edges@.len()
        &&& forall|u: int, v: int|
            0 <= u <= v < self.edges_start_at@.len() ==> self.edges_start_at@[u]
                <= self.edges_start_at@[v]
        &&& forall|i: int| 0 <= i < self.edges@.len() ==> (#[trigger] self.edges@[i]).target
            < self.nodes()
    }

    /// The edges of the graph.
    pub open spec fn edge_set(&self) -> Set<Edge> {
        edges_by_source(self.rows())
    }

    /// What `wf` says of the rows.
    pub proof fn lemma_wf(&self)
        requires
            self.wf(),
        ensures
            self.rows().len() == self.nodes(),
            self.nodes() <= u32::MAX + 1,
            rows_by_source(self.rows()),
    {
        let rows = self.rows();
        assert forall|u: int, i: int| 0 <= u < rows.len() && 0 <= i < rows[u].len() implies (
        #[trigger] rows[u][i]).source == u && rows[u][i].target < rows.len() by {
            let a = self.edges_start_at@[u] as int;
            let b = self.edges_start_at@[u + 1] as int;
            assert(b <= self.edges_start_at@[self.nodes() as int]);
            assert(rows[u][i] == leaving(u, self.edges@.subrange(a, b)[i]));
            assert(self.edges@.subrange(a, b)[i] == self.edges@[a + i]);
        }
    }

    /// The graph of `edges`, over as many nodes as their endpoints ask for.
    pub fn new(edges: &Vec<Edge>) -> (graph: Self)
        ensures
            graph.wf(),
            graph.rows() == bucketed(edges@, 0),
            graph.edge_set() == edges@.to_set(),
    {
        FastGraph::with_nodes(edges, 0)
    }

    /// The graph of `edges`, over at least `nodes` nodes.
    pub fn with_nodes(edges: &Vec<Edge>, nodes: usize) -> (graph: Self)
        requires
            nodes <= u32::MAX + 1,
        ensures
            graph.wf(),
            graph.rows() == bucketed(edges@, nodes as nat),
            graph.edge_set() == edges@.to_set(),
            graph.nodes() >= nodes,
    {
        let buckets = bucket_edges(edges, nodes);
        let ghost rows = lists(buckets@);
        proof {
            lemma_bucketed(edges@, nodes as nat);
            lemma_bucketed_len(edges@, nodes as nat);
        }
        let mut flat: Vec<FastEdge> = Vec::new();
        let mut starts: Vec<usize> = Vec::new();
        starts.push(0);
        let mut v: usize = 0;
        while v < buckets.len()
            invariant
                0 <= v <= buckets@.len(),
                rows == lists(buckets@),
                rows_by_source(rows),
                starts@.len() == v + 1,
                starts@[0] == 0,
                starts@[v as int] == flat@.len(),
                forall|a: int, b: int| 0 <= a <= b <= v ==> starts@[a] <= starts@[b],
                forall|u: int|
                    0 <= u < v ==> #[trigger] starts@[u + 1] - starts@[u] == rows[u].len(),
                forall|u: int, i: int|
                    0 <= u < v && 0 <= i < rows[u].len() ==> leaving(
                        u,
                        #[trigger] flat@[starts@[u] + i],
                    ) == rows[u][i],
            decreases buckets@.len() - v,
        {
            let row = &buckets[v];
            let mut i: usize = 0;
            while i < row.len()
                invariant
                    0 <= i <= row@.len(),
                    v < buckets@.len(),
                    row@ == rows[v as int],
                    rows == lists(buckets@),
                    rows_by_source(rows),
                    starts@.len() == v + 1,
                    starts@[0] == 0,
                    starts@[v as int] + i == flat@.len(),
                    forall|a: int, b: int| 0 <= a <= b <= v ==> starts@[a] <= starts@[b],
                    forall|u: int|
                        0 <= u < v ==> #[trigger] starts@[u + 1] - starts@[u] == rows[u].len(),
                    forall|u: int, j: int|
                        0 <= u < v && 0 <= j < rows[u].len() ==> leaving(
                            u,
                            #[trigger] flat@[starts@[u] + j],
                        ) == rows[u][j],
                    forall|j: int|
                        0 <= j < i ==> leaving(v as int, #[trigger] flat@[starts@[v as int] + j])
                            == row@[j],
                decreases row@.len() - i,
            {
                let edge = row[i];
                let ghost before = flat@;
                flat.push(FastEdge { target: edge.target, cost: edge.cost });
                proof {
                    assert(rows[v as int][i as int].source == v);
                    assert forall|u: int, j: int|
                        0 <= u < v && 0 <= j < rows[u].len() implies leaving(
                        u,
                        #[trigger] flat@[starts@[u] + j],
                    ) == rows[u][j] by {
                        assert(starts@[u + 1] - starts@[u] == rows[u].len());
                        assert(starts@[u + 1] <= starts@[v as int]);
                        assert(flat@[starts@[u] + j] == before[starts@[u] + j]);
                    }
                    assert forall|j: int| 0 <= j < i + 1 implies leaving(
                        v as int,
                        #[trigger] flat@[starts@[v as int] + j],
                    ) == row@[j] by {
                        if j < i {
                            assert(flat@[starts@[v as int] + j] == before[starts@[v as int] + j]);
                        }
                    }
                }
                i += 1;
            }
            let ghost before = starts@;
            starts.push(flat.len());
            proof {
                assert forall|u: int| 0 <= u < v + 1 implies #[trigger] starts@[u + 1] - starts@[u]
                    == rows[u].len() by {
                    if u < v {
                        assert(before[u + 1] - before[u] == rows[u].len());
                    }
                }
                assert forall|u: int, j: int|
                    0 <= u < v + 1 && 0 <= j < rows[u].len() implies leaving(
                    u,
                    #[trigger] flat@[starts@[u] + j],
                ) == rows[u][j] by {
                    assert(starts@[u] == before[u]);
                }
            }
            v += 1;
        }
        let graph = FastGraph { edges: flat, edges_start_at: starts };
        proof {
            assert(graph.nodes() == rows.len());
            assert forall|i: int| 0 <= i < graph.edges@.len() implies (
            #[trigger] graph.edges@[i]).target < graph.nodes() by {
                lemma_offset_row(graph.edges_start_at@, i);
                let u = choose|u: int|
                    0 <= u < graph.edges_start_at@.len() - 1 && #[trigger] graph.edges_start_at@[u]
                        <= i < graph.edges_start_at@[u + 1];
                let j = i - graph.edges_start_at@[u];
                assert(graph.edges_start_at@[u + 1] - graph.edges_start_at@[u] == rows[u].len());
                assert(leaving(u, graph.edges@[graph.edges_start_at@[u] + j]) == rows[u][j]);
                assert(rows[u][j].target < rows.len());
            }
            assert(graph.rows() =~~= rows) by {
                assert forall|u: int| 0 <= u < rows.len() implies #[trigger] graph.rows()[u]
                    =~= rows[u] by {
                    let a = graph.edges_start_at@[u] as int;
                    let b = graph.edges_start_at@[u + 1] as int;
                    assert(b - a == rows[u].len());
                    assert(b <= graph.edges_start_at@[rows.len() as int]);
                    assert forall|j: int| 0 <= j < rows[u].len() implies graph.rows()[u][j]
                        == rows[u][j] by {
                        assert(graph.edges@.subrange(a, b)[j] == graph.edges@[a + j]);
                        assert(leaving(u, graph.edges@[graph.edges_start_at@[u] + j])
                            == rows[u][j]);
                    }
                }
            }
        }
        graph
    }

    /// The number of nodes.
    pub fn node_count(&self) -> (n: usize)
        requires
            self.wf(),
        ensures
            n == self.nodes(),
    {
        self.edges_start_at.len() - 1
    }

    /// The edges that leave `source`; none if `source` is no node of the
    /// graph.
    pub fn edges_from(&self, source: u32) -> (row: &[FastEdge])
        requires
            self.wf(),
        ensures
            source < self.nodes() ==> row_leaving(source as int, row@)
                == self.rows()[source as int],
            source >= self.nodes() ==> row@.len() == 0,
            forall|i: int| 0 <= i < row@.len() ==> (#[trigger] row@[i]).target < self.nodes(),
    {
        let n = self.edges_start_at.len() - 1;
        if (source as usize) < n {
            let start = self.edges_start_at[source as usize];
            let end = self.edges_start_at[source as usize + 1];
            proof {
                assert(end <= self.edges_start_at@[n as int]);
            }
            let row = slice_subrange(self.edges.as_slice(), start, end);
            proof {
                assert forall|i: int| 0 <= i < row@.len() implies (#[trigger] row@[i]).target
                    < self.nodes() by {
                    assert(row@[i] == self.edges@[start + i]);
                }
            }
            row
        } else {
            slice_subrange(self.edges.as_slice(), 0, 0)
        }
    }
}

/// Bucketed rows cover no more nodes than node ids can name.
pub proof fn lemma_bucketed_len(edges: Seq<Edge>, nodes: nat)
    requires
        nodes <= u32::MAX + 1,
    ensures
        bucketed(edges, nodes).len() <= u32::MAX + 1,
    decreases edges.len(),
{
    if edges.len() > 0 {
        lemma_bucketed_len(edges.drop_last(), nodes);
    }
}

/// An index below the last of rising offsets lies in the range of one row.
pub proof fn lemma_offset_row(starts: Seq<usize>, i: int)
    requires
        starts.len() >= 1,
        starts[0] == 0,
        forall|a: int, b: int| 0 <= a <= b < starts.len() ==> starts[a] <= starts[b],
        0 <= i < starts.last(),
    ensures
        exists|u: int| 0 <= u < starts.len() - 1 && #[trigger] starts[u] <= i < starts[u + 1],
    decreases starts.len(),
{
    let n = starts.len() - 1;
    if n == 0 {
    } else if starts[n - 1] <= i {
        assert(0 <= n - 1 < starts.len() - 1 && starts[n - 1] <= i < starts[n - 1 + 1]);
    } else {
        let shorter = starts.drop_last();
        lemma_offset_row(shorter, i);
        let u = choose|u: int|
            0 <= u < shorter.len() - 1 && #[trigger] shorter[u] <= i < shorter[u + 1];
        assert(starts[u] <= i < starts[u + 1]);
    }
}

} // verus!
