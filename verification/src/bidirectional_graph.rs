//! The graph store: for every node the list of its outgoing edges and the
//! list of its incoming edges.

use crate::graph::Edge;
use crate::graph::Graph;
use crate::rows::Retain;
use crate::rows::append_to_row;
use crate::rows::appended;
use crate::rows::edges_by_source;
use crate::rows::edges_by_target;
use crate::rows::flat;
use crate::rows::flatten_rows;
use crate::rows::grow_rows;
use crate::rows::grown;
use crate::rows::kept;
use crate::rows::lemma_kept;
use crate::rows::lemma_kept_all;
use crate::rows::lemma_kept_twice;
use crate::rows::lists;
use crate::rows::pop_from_row;
use crate::rows::retain_in_row;
use crate::rows::rows_by_source;
use crate::rows::rows_by_target;
use crate::rows::top_node;
use vstd::prelude::*;

verus! {

/// Two adjacency structures over the same nodes: `outgoing_edges[v]` holds
/// edges with source `v`, `incoming_edges[v]` holds edges with target `v`.
#[derive(Debug)]
pub struct BidirectionalGraph {
    pub outgoing_edges: Vec<Vec<Edge>>,
    pub incoming_edges: Vec<Vec<Edge>>,
}

impl BidirectionalGraph {
    /// The lists of outgoing edges.
    pub open spec fn out(&self) -> Seq<Seq<Edge>> {
        lists(self.outgoing_edges@)
    }

    /// The lists of incoming edges.
    pub open spec fn inc(&self) -> Seq<Seq<Edge>> {
        lists(self.incoming_edges@)
    }

    /// The number of nodes.
    pub open spec fn nodes(&self) -> nat {
        self.outgoing_edges@.len()
    }

    /// Both structures cover the same nodes, whose ids fit the id type, and
    /// every edge is in the list of its node and joins two nodes of the
    /// graph.
    pub open spec fn wf(&self) -> bool {
        &&& self.outgoing_edges@.len() == self.incoming_edges@.len()
        &&& self.outgoing_edges@.len() <= u32::MAX + 1
        &&& rows_by_source(self.out())
        &&& rows_by_target(self.inc())
    }

    /// The edges in the lists of outgoing edges.
    pub open spec fn out_edges(&self) -> Set<Edge> {
        edges_by_source(self.out())
    }

    /// The edges in the lists of incoming edges.
    pub open spec fn in_edges(&self) -> Set<Edge> {
        edges_by_target(self.inc())
    }

    /// The two structures hold the same edges.
    pub open spec fn mirrored(&self) -> bool {
        self.out_edges() == self.in_edges()
    }

    pub fn new() -> (graph: Self)
        ensures
            graph.wf(),
            graph.mirrored(),
            graph.nodes() == 0,
            graph.out() == Seq::<Seq<Edge>>::empty(),
            graph.inc() == Seq::<Seq<Edge>>::empty(),
    {
        let graph = BidirectionalGraph { outgoing_edges: Vec::new(), incoming_edges: Vec::new() };
        assert(graph.out() =~= Seq::<Seq<Edge>>::empty());
        assert(graph.inc() =~= Seq::<Seq<Edge>>::empty());
        assert(graph.out_edges() =~= graph.in_edges());
        graph
    }

    /// A store of `nodes` nodes without edges.
    pub fn with_nodes(nodes: usize) -> (graph: Self)
        requires
            nodes <= u32::MAX + 1,
        ensures
            graph.wf(),
            graph.mirrored(),
            graph.nodes() == nodes,
            graph.out() == Seq::new(nodes as nat, |u: int| Seq::<Edge>::empty()),
            graph.inc() == Seq::new(nodes as nat, |u: int| Seq::<Edge>::empty()),
    {
        let mut graph = BidirectionalGraph::new();
        if nodes > 0 {
            grow_rows(&mut graph.outgoing_edges, (nodes - 1) as u32);
            grow_rows(&mut graph.incoming_edges, (nodes - 1) as u32);
        }
        proof {
            assert(graph.out() =~~= Seq::new(nodes as nat, |u: int| Seq::<Edge>::empty()));
            assert(graph.inc() =~~= Seq::new(nodes as nat, |u: int| Seq::<Edge>::empty()));
            assert(graph.out_edges() =~= graph.in_edges());
        }
        graph
    }

    /// The number of nodes.
    pub fn node_count(&self) -> (n: usize)
        ensures
            n == self.nodes(),
    {
        self.outgoing_edges.len()
    }

    /// The outgoing edges of `v`.
    pub fn outgoing(&self, v: u32) -> (list: &Vec<Edge>)
        requires
            v < self.nodes(),
        ensures
            list@ == self.out()[v as int],
    {
        &self.outgoing_edges[v as usize]
    }

    /// The incoming edges of `v`.
    pub fn incoming(&self, v: u32) -> (list: &Vec<Edge>)
        requires
            self.wf(),
            v < self.nodes(),
        ensures
            list@ == self.inc()[v as int],
    {
        &self.incoming_edges[v as usize]
    }

    /// Takes the last edge out of the outgoing list of `v`. The incoming
    /// lists stay as they are.
    pub fn pop_outgoing(&mut self, v: u32) -> (last: Option<Edge>)
        requires
            old(self).wf(),
            v < old(self).nodes(),
        ensures
            final(self).wf(),
            final(self).inc() == old(self).inc(),
            match last {
                Some(e) => old(self).out()[v as int].len() > 0 && e
                    == old(self).out()[v as int].last()
                    && final(self).out() == old(self).out().update(
                    v as int,
                    old(self).out()[v as int].drop_last(),
                ),
                None => old(self).out()[v as int].len() == 0 && final(self).out()
                    == old(self).out(),
            },
    {
        let last = pop_from_row(&mut self.outgoing_edges, v as usize);
        proof {
            let now = self.out();
            let before = old(self).out();
            assert forall|u: int, i: int| 0 <= u < now.len() && 0 <= i < now[u].len() implies (
            #[trigger] now[u][i]).source == u && now[u][i].target < now.len() by {
                assert(now[u][i] == before[u][i]);
            }
        }
        last
    }

    /// Takes the last edge out of the incoming list of `v`. The outgoing
    /// lists stay as they are.
    pub fn pop_incoming(&mut self, v: u32) -> (last: Option<Edge>)
        requires
            old(self).wf(),
            v < old(self).nodes(),
        ensures
            final(self).wf(),
            final(self).out() == old(self).out(),
            match last {
                Some(e) => old(self).inc()[v as int].len() > 0 && e
                    == old(self).inc()[v as int].last()
                    && final(self).inc() == old(self).inc().update(
                    v as int,
                    old(self).inc()[v as int].drop_last(),
                ),
                None => old(self).inc()[v as int].len() == 0 && final(self).inc()
                    == old(self).inc(),
            },
    {
        let last = pop_from_row(&mut self.incoming_edges, v as usize);
        proof {
            let now = self.inc();
            let before = old(self).inc();
            assert forall|u: int, i: int| 0 <= u < now.len() && 0 <= i < now[u].len() implies (
            #[trigger] now[u][i]).target == u && now[u][i].source < now.len() by {
                assert(now[u][i] == before[u][i]);
            }
        }
        last
    }

    /// Keeps in the outgoing list of `v` the edges that `rule` holds of.
    /// The incoming lists stay as they are.
    pub fn retain_outgoing(&mut self, v: u32, rule: &Retain)
        requires
            old(self).wf(),
            v < old(self).nodes(),
        ensures
            final(self).wf(),
            final(self).inc() == old(self).inc(),
            final(self).out() == old(self).out().update(
                v as int,
                kept(old(self).out()[v as int], rule.as_spec()),
            ),
    {
        retain_in_row(&mut self.outgoing_edges, v as usize, rule);
        proof {
            let now = self.out();
            let before = old(self).out();
            lemma_kept(before[v as int], rule.as_spec());
            assert forall|u: int, i: int| 0 <= u < now.len() && 0 <= i < now[u].len() implies (
            #[trigger] now[u][i]).source == u && now[u][i].target < now.len() by {
                if u == v {
                    assert(now[u].contains(now[u][i]));
                    let j = choose|j: int| 0 <= j < before[u].len() && before[u][j] == now[u][i];
                    assert(before[u][j].source == u);
                } else {
                    assert(now[u][i] == before[u][i]);
                }
            }
        }
    }

    /// Keeps in the incoming list of `v` the edges that `rule` holds of.
    /// The outgoing lists stay as they are.
    pub fn retain_incoming(&mut self, v: u32, rule: &Retain)
        requires
            old(self).wf(),
            v < old(self).nodes(),
        ensures
            final(self).wf(),
            final(self).out() == old(self).out(),
            final(self).inc() == old(self).inc().update(
                v as int,
                kept(old(self).inc()[v as int], rule.as_spec()),
            ),
    {
        retain_in_row(&mut self.incoming_edges, v as usize, rule);
        proof {
            let now = self.inc();
            let before = old(self).inc();
            lemma_kept(before[v as int], rule.as_spec());
            assert forall|u: int, i: int| 0 <= u < now.len() && 0 <= i < now[u].len() implies (
            #[trigger] now[u][i]).target == u && now[u][i].source < now.len() by {
                if u == v {
                    assert(now[u].contains(now[u][i]));
                    let j = choose|j: int| 0 <= j < before[u].len() && before[u][j] == now[u][i];
                    assert(before[u][j].target == u);
                } else {
                    assert(now[u][i] == before[u][i]);
                }
            }
        }
    }

    /// Whether the store is well formed.
    pub fn is_well_formed(&self) -> (b: bool)
        ensures
            b == self.wf(),
    {
        let n = self.outgoing_edges.len();
        if n != self.incoming_edges.len() {
            return false;
        }
        if n > 0 && n - 1 > u32::MAX as usize {
            return false;
        }
        let mut u: usize = 0;
        while u < n
            invariant
                0 <= u <= n,
                n == self.outgoing_edges@.len(),
                n == self.incoming_edges@.len(),
                forall|a: int, i: int|
                    0 <= a < u && 0 <= i < self.out()[a].len()
                        ==> (#[trigger] self.out()[a][i]).source
                        == a && self.out()[a][i].target < n,
                forall|a: int, i: int|
                    0 <= a < u && 0 <= i < self.inc()[a].len()
                        ==> (#[trigger] self.inc()[a][i]).target
                        == a && self.inc()[a][i].source < n,
            decreases n - u,
        {
            let row = &self.outgoing_edges[u];
            let mut i: usize = 0;
            while i < row.len()
                invariant
                    0 <= i <= row@.len(),
                    u < n,
                    n == self.outgoing_edges@.len(),
                    row@ == self.out()[u as int],
                    forall|j: int|
                        0 <= j < i ==> (#[trigger] row@[j]).source == u && row@[j].target < n,
                decreases row@.len() - i,
            {
                let e = row[i];
                if e.source as usize != u || e.target as usize >= n {
                    assert(!(self.out()[u as int][i as int].source == u
                        && self.out()[u as int][i as int].target < n));
                    return false;
                }
                i += 1;
            }
            let row = &self.incoming_edges[u];
            let mut i: usize = 0;
            while i < row.len()
                invariant
                    0 <= i <= row@.len(),
                    u < n,
                    n == self.incoming_edges@.len(),
                    row@ == self.inc()[u as int],
                    forall|j: int|
                        0 <= j < i ==> (#[trigger] row@[j]).target == u && row@[j].source < n,
                decreases row@.len() - i,
            {
                let e = row[i];
                if e.target as usize != u || e.source as usize >= n {
                    assert(!(self.inc()[u as int][i as int].target == u
                        && self.inc()[u as int][i as int].source < n));
                    return false;
                }
                i += 1;
            }
            u += 1;
        }
        true
    }

    /// Whether both structures hold the same edges.
    pub fn is_mirrored(&self) -> (b: bool)
        requires
            self.wf(),
        ensures
            b == self.mirrored(),
    {
        let n = self.outgoing_edges.len();
        let mut u: usize = 0;
        while u < n
            invariant
                0 <= u <= n,
                self.wf(),
                n == self.nodes(),
                forall|a: int, i: int|
                    0 <= a < u && 0 <= i < self.out()[a].len() ==> self.in_edges().contains(
                        #[trigger] self.out()[a][i],
                    ),
                forall|a: int, i: int|
                    0 <= a < u && 0 <= i < self.inc()[a].len() ==> self.out_edges().contains(
                        #[trigger] self.inc()[a][i],
                    ),
            decreases n - u,
        {
            let row = &self.outgoing_edges[u];
            let mut i: usize = 0;
            while i < row.len()
                invariant
                    0 <= i <= row@.len(),
                    self.wf(),
                    u < n,
                    n == self.nodes(),
                    row@ == self.out()[u as int],
                    forall|j: int| 0 <= j < i ==> self.in_edges().contains(#[trigger] row@[j]),
                decreases row@.len() - i,
            {
                let e = row[i];
                proof {
                    assert(self.out()[u as int][i as int] == e);
                    assert(e.target < n);
                }
                if !row_contains(&self.incoming_edges[e.target as usize], e) {
                    proof {
                        assert(self.out()[u as int].contains(e));
                        assert(self.out_edges().contains(e));
                        assert(!self.in_edges().contains(e));
                    }
                    return false;
                }
                i += 1;
            }
            let row = &self.incoming_edges[u];
            let mut i: usize = 0;
            while i < row.len()
                invariant
                    0 <= i <= row@.len(),
                    self.wf(),
                    u < n,
                    n == self.nodes(),
                    row@ == self.inc()[u as int],
                    forall|j: int| 0 <= j < i ==> self.out_edges().contains(#[trigger] row@[j]),
                decreases row@.len() - i,
            {
                let e = row[i];
                proof {
                    assert(self.inc()[u as int][i as int] == e);
                    assert(e.source < n);
                }
                if !row_contains(&self.outgoing_edges[e.source as usize], e) {
                    proof {
                        assert(self.inc()[u as int].contains(e));
                        assert(self.in_edges().contains(e));
                        assert(!self.out_edges().contains(e));
                    }
                    return false;
                }
                i += 1;
            }
            u += 1;
        }
        proof {
            assert(self.out_edges() =~= self.in_edges()) by {
                assert forall|e: Edge| self.out_edges().contains(e) == self.in_edges().contains(
                    e,
                ) by {
                    if self.out_edges().contains(e) {
                        let a = e.source as int;
                        let i = choose|i: int| 0 <= i < self.out()[a].len() && self.out()[a][i] == e;
                        assert(self.in_edges().contains(self.out()[a][i]));
                    }
                    if self.in_edges().contains(e) {
                        let a = e.target as int;
                        let i = choose|i: int| 0 <= i < self.inc()[a].len() && self.inc()[a][i] == e;
                        assert(self.out_edges().contains(self.inc()[a][i]));
                    }
                }
            }
        }
        true
    }

    /// Appends `edge` to the outgoing list of its source and to the incoming
    /// list of its target, after growing the node range so that both
    /// endpoints are nodes of the graph.
    pub fn add_edge(&mut self, edge: Edge)
        requires
            old(self).wf(),
        ensures
            final(self).wf(),
            final(self).out() == appended(
                grown(old(self).out(), (top_node(edge) + 1) as nat),
                edge.source as int,
                edge,
            ),
            final(self).inc() == appended(
                grown(old(self).inc(), (top_node(edge) + 1) as nat),
                edge.target as int,
                edge,
            ),
            final(self).out_edges() == old(self).out_edges().insert(edge),
            final(self).in_edges() == old(self).in_edges().insert(edge),
            old(self).mirrored() ==> final(self).mirrored(),
    {
        let top = if edge.source >= edge.target {
            edge.source
        } else {
            edge.target
        };
        let ghost out0 = self.out();
        let ghost inc0 = self.inc();
        grow_rows(&mut self.outgoing_edges, top);
        grow_rows(&mut self.incoming_edges, top);
        let ghost out1 = self.out();
        let ghost inc1 = self.inc();
        append_to_row(&mut self.outgoing_edges, edge.source as usize, edge);
        append_to_row(&mut self.incoming_edges, edge.target as usize, edge);
        proof {
            let out2 = self.out();
            let inc2 = self.inc();
            let n = out2.len();
            assert(out1.len() == inc1.len());
            assert forall|u: int, i: int| 0 <= u < n && 0 <= i < out2[u].len() implies (
            #[trigger] out2[u][i]).source == u && out2[u][i].target < n by {
                if u < out0.len() {
                    assert(out1[u] == out0[u]);
                    if i < out0[u].len() {
                        assert(out0[u][i].source == u);
                    }
                } else {
                    assert(out1[u] =~= Seq::<Edge>::empty());
                }
            }
            assert forall|v: int, i: int| 0 <= v < n && 0 <= i < inc2[v].len() implies (
            #[trigger] inc2[v][i]).target == v && inc2[v][i].source < n by {
                if v < inc0.len() {
                    assert(inc1[v] == inc0[v]);
                    if i < inc0[v].len() {
                        assert(inc0[v][i].target == v);
                    }
                } else {
                    assert(inc1[v] =~= Seq::<Edge>::empty());
                }
            }
            lemma_appended_by_source(out0, edge);
            lemma_appended_by_target(inc0, edge);
        }
    }

    /// The store that holds the edges of `graph`, each added in the order
    /// of its lists. The store has as many nodes as the edges ask for.
    pub fn from_graph(graph: &Graph) -> (store: Self)
        ensures
            store.wf(),
            store.mirrored(),
            store.out() == rows_with(Seq::empty(), flat(graph.rows()), true),
            store.inc() == rows_with(Seq::empty(), flat(graph.rows()), false),
            store.out_edges() == flat(graph.rows()).to_set(),
    {
        let mut store = BidirectionalGraph::new();
        let edges = flatten_rows(&graph.outgoing_edges, false);
        store.add_edges(&edges);
        proof {
            assert(store.out_edges() =~= flat(graph.rows()).to_set());
        }
        store
    }

    /// Appends each of `edges` to the outgoing list of its source and to the
    /// incoming list of its target.
    pub fn add_edges(&mut self, edges: &Vec<Edge>)
        requires
            old(self).wf(),
        ensures
            final(self).wf(),
            final(self).out() == rows_with(old(self).out(), edges@, true),
            final(self).inc() == rows_with(old(self).inc(), edges@, false),
            final(self).out_edges() == old(self).out_edges() + edges@.to_set(),
            final(self).in_edges() == old(self).in_edges() + edges@.to_set(),
            old(self).mirrored() ==> final(self).mirrored(),
            final(self).nodes() >= old(self).nodes(),
            (forall|k: int|
                0 <= k < edges@.len() ==> (#[trigger] edges@[k]).source < old(self).nodes()
                    && edges@[k].target < old(self).nodes()) ==> final(self).nodes()
                        == old(self).nodes(),
    {
        let ghost out0 = self.out_edges();
        let ghost in0 = self.in_edges();
        let ghost n0 = self.nodes();
        let ghost rows0 = self.out();
        let ghost rows0_in = self.inc();
        let mut i: usize = 0;
        assert(edges@.take(0).to_set() =~= Set::<Edge>::empty());
        assert(out0 + Set::<Edge>::empty() =~= out0);
        assert(in0 + Set::<Edge>::empty() =~= in0);
        while i < edges.len()
            invariant
                0 <= i <= edges@.len(),
                self.wf(),
                self.out() == rows_with(rows0, edges@.take(i as int), true),
                self.inc() == rows_with(rows0_in, edges@.take(i as int), false),
                self.out_edges() == out0 + edges@.take(i as int).to_set(),
                self.in_edges() == in0 + edges@.take(i as int).to_set(),
                out0 == in0 ==> self.mirrored(),
                self.nodes() >= n0,
                (forall|k: int|
                    0 <= k < i ==> (#[trigger] edges@[k]).source < n0 && edges@[k].target < n0)
                    ==> self.nodes() == n0,
            decreases edges@.len() - i,
        {
            let ghost before = self.out();
            self.add_edge(edges[i]);
            proof {
                let done = edges@.take(i as int);
                let next = edges@.take(i + 1);
                assert(next =~= done.push(edges@[i as int]));
                assert(next.drop_last() =~= done);
                assert(next.to_set() =~= done.to_set().insert(edges@[i as int])) by {
                    assert forall|e: Edge| next.to_set().contains(e) == done.to_set().insert(
                        edges@[i as int],
                    ).contains(e) by {
                        if next.contains(e) {
                            let k = choose|k: int| 0 <= k < next.len() && next[k] == e;
                            if k < done.len() {
                                assert(done[k] == e);
                            }
                        }
                        if done.contains(e) {
                            let k = choose|k: int| 0 <= k < done.len() && done[k] == e;
                            assert(next[k] == e);
                        }
                        assert(next[i as int] == edges@[i as int]);
                    }
                }
                assert(self.out_edges() =~= out0 + next.to_set());
                assert(self.in_edges() =~= in0 + next.to_set());
                crate::bidirectional_graph::lemma_grown_row(
                    before,
                    (top_node(edges@[i as int]) + 1) as nat,
                    0,
                );
            }
            i += 1;
        }
        assert(edges@.take(i as int) =~= edges@);
    }

    /// Takes `v` out of the graph: empties both of its lists, and takes
    /// every edge that ends in `v` or starts at `v` out of the lists of the
    /// other nodes.
    pub fn disconnect(&mut self, v: u32)
        requires
            old(self).wf(),
            old(self).mirrored(),
            v < old(self).nodes(),
        ensures
            final(self).wf(),
            final(self).mirrored(),
            final(self).nodes() == old(self).nodes(),
            final(self).out()
                == rows_cleared(old(self).out(), v as int, Retain::NotInto(v).as_spec()),
            final(self).inc() == rows_cleared(
                old(self).inc(),
                v as int,
                Retain::NotOutOf(v).as_spec(),
            ),
            final(self).out_edges() == without_node(old(self).out_edges(), v),
    {
        let ghost out0 = self.out();
        let ghost inc0 = self.inc();
        let ghost n = self.nodes();
        let ghost not_into = Retain::NotInto(v).as_spec();
        let ghost not_out_of = Retain::NotOutOf(v).as_spec();
        let ghost done: Set<int> = Set::empty();
        assert(self.out() =~~= rows_kept_where(out0, not_into, done));
        assert(self.inc()
            =~~= inc0.update(v as int, inc0[v as int].take(inc0[v as int].len() as int))) by {
            assert(inc0[v as int].take(inc0[v as int].len() as int) =~= inc0[v as int]);
        }
        loop
            invariant
                n == out0.len(),
                n == inc0.len(),
                v < n,
                rows_by_target(inc0),
                not_into == Retain::NotInto(v).as_spec(),
                self.outgoing_edges@.len() == n,
                self.incoming_edges@.len() == n,
                self.inc()[v as int].len() <= inc0[v as int].len(),
                self.inc() == inc0.update(
                    v as int,
                    inc0[v as int].take(self.inc()[v as int].len() as int),
                ),
                self.out() == rows_kept_where(out0, not_into, done),
                forall|j: int|
                    self.inc()[v as int].len() <= j < inc0[v as int].len() ==> done.contains(
                        (#[trigger] inc0[v as int][j]).source as int,
                    ),
            ensures
                self.outgoing_edges@.len() == n,
                self.incoming_edges@.len() == n,
                self.inc() == inc0.update(v as int, Seq::<Edge>::empty()),
                self.out() == rows_kept_where(out0, not_into, done),
                forall|j: int|
                    0 <= j < inc0[v as int].len() ==> done.contains(
                        (#[trigger] inc0[v as int][j]).source as int,
                    ),
            decreases self.inc()[v as int].len(),
        {
            let ghost k = self.inc()[v as int].len();
            match pop_from_row(&mut self.incoming_edges, v as usize) {
                None => {
                    proof {
                        assert(inc0[v as int].take(0) =~= Seq::<Edge>::empty());
                    }
                    break;
                },
                Some(edge) => {
                    proof {
                        assert(edge == inc0[v as int][k - 1]);
                        assert(edge.source < n);
                        assert(self.inc() =~~= inc0.update(
                            v as int,
                            inc0[v as int].take(k - 1),
                        )) by {
                            assert(inc0[v as int].take(k as int).drop_last()
                                =~= inc0[v as int].take(
                                k - 1,
                            ));
                        }
                    }
                    retain_in_row(&mut self.outgoing_edges, edge.source as usize,
                        &Retain::NotInto(v));
                    proof {
                        let s = edge.source as int;
                        lemma_kept_twice(out0[s], not_into);
                        assert(self.out() =~~= rows_kept_where(out0, not_into, done.insert(s)));
                        done = done.insert(s);
                    }
                },
            }
        }
        proof {
            // every row that has not been touched holds no edge into `v`
            assert(self.out() =~~= crate::rows::rows_kept(out0, not_into)) by {
                assert forall|u: int| 0 <= u < n implies #[trigger] self.out()[u] == kept(
                    out0[u],
                    not_into,
                ) by {
                    if !done.contains(u) {
                        assert forall|i: int| 0 <= i < out0[u].len() implies not_into(
                            #[trigger] out0[u][i],
                        ) by {
                            let e = out0[u][i];
                            if e.target == v {
                                assert(out0[u].contains(e));
                                assert(old(self).out_edges().contains(e));
                                assert(old(self).in_edges().contains(e));
                                let j = choose|j: int|
                                    0 <= j < inc0[v as int].len() && inc0[v as int][j] == e;
                                assert(done.contains(inc0[v as int][j].source as int));
                            }
                        }
                        lemma_kept_all(out0[u], not_into);
                    }
                }
            }
        }
        let ghost out1 = self.out();
        let ghost inc1 = self.inc();
        let ghost done2: Set<int> = Set::empty();
        proof {
            assert(self.inc() =~~= rows_kept_where(inc1, not_out_of, done2));
            assert(out1[v as int].take(out1[v as int].len() as int) =~= out1[v as int]);
            assert(self.out() =~~= out1.update(
                v as int,
                out1[v as int].take(out1[v as int].len() as int),
            ));
            crate::rows::lemma_rows_kept_by_source(out0, not_into);
        }
        loop
            invariant
                n == out1.len(),
                n == inc1.len(),
                v < n,
                rows_by_source(out1),
                not_out_of == Retain::NotOutOf(v).as_spec(),
                self.outgoing_edges@.len() == n,
                self.incoming_edges@.len() == n,
                self.out()[v as int].len() <= out1[v as int].len(),
                self.out() == out1.update(
                    v as int,
                    out1[v as int].take(self.out()[v as int].len() as int),
                ),
                self.inc() == rows_kept_where(inc1, not_out_of, done2),
                forall|j: int|
                    self.out()[v as int].len() <= j < out1[v as int].len() ==> done2.contains(
                        (#[trigger] out1[v as int][j]).target as int,
                    ),
            ensures
                self.outgoing_edges@.len() == n,
                self.incoming_edges@.len() == n,
                self.out() == out1.update(v as int, Seq::<Edge>::empty()),
                self.inc() == rows_kept_where(inc1, not_out_of, done2),
                forall|j: int|
                    0 <= j < out1[v as int].len() ==> done2.contains(
                        (#[trigger] out1[v as int][j]).target as int,
                    ),
            decreases self.out()[v as int].len(),
        {
            let ghost k = self.out()[v as int].len();
            match pop_from_row(&mut self.outgoing_edges, v as usize) {
                None => {
                    proof {
                        assert(out1[v as int].take(0) =~= Seq::<Edge>::empty());
                    }
                    break;
                },
                Some(edge) => {
                    proof {
                        assert(edge == out1[v as int][k - 1]);
                        assert(edge.target < n);
                        assert(self.out() =~~= out1.update(
                            v as int,
                            out1[v as int].take(k - 1),
                        )) by {
                            assert(out1[v as int].take(k as int).drop_last()
                                =~= out1[v as int].take(
                                k - 1,
                            ));
                        }
                    }
                    retain_in_row(&mut self.incoming_edges, edge.target as usize,
                        &Retain::NotOutOf(v));
                    proof {
                        let t = edge.target as int;
                        lemma_kept_twice(inc1[t], not_out_of);
                        assert(self.inc() =~~= rows_kept_where(inc1, not_out_of, done2.insert(t)));
                        done2 = done2.insert(t);
                    }
                },
            }
        }
        proof {
            assert(self.out() =~~= rows_cleared(out0, v as int, not_into));
            assert(self.inc() =~~= rows_cleared(inc0, v as int, not_out_of)) by {
                assert forall|w: int| 0 <= w < n implies #[trigger] self.inc()[w] == rows_cleared(
                    inc0,
                    v as int,
                    not_out_of,
                )[w] by {
                    if w == v {
                        assert(inc1[w] =~= Seq::<Edge>::empty());
                        assert(kept(inc1[w], not_out_of) =~= Seq::<Edge>::empty());
                    } else {
                        assert(inc1[w] == inc0[w]);
                        if !done2.contains(w) {
                            assert forall|i: int| 0 <= i < inc0[w].len() implies not_out_of(
                                #[trigger] inc0[w][i],
                            ) by {
                                let e = inc0[w][i];
                                if e.source == v {
                                    assert(inc0[w].contains(e));
                                    assert(e.target == w);
                                    assert(old(self).in_edges().contains(e));
                                    assert(old(self).out_edges().contains(e));
                                    assert(out0[v as int].contains(e));
                                    lemma_kept(out0[v as int], not_into);
                                    assert(not_into(e));
                                    assert(out1[v as int].contains(e));
                                    let j = choose|j: int|
                                        0 <= j < out1[v as int].len() && out1[v as int][j] == e;
                                    assert(done2.contains(out1[v as int][j].target as int));
                                }
                            }
                            lemma_kept_all(inc0[w], not_out_of);
                        }
                    }
                }
            }
            lemma_rows_cleared(old(self).out(), old(self).inc(), v);
        }
    }

    /// A deep copy of the store as it is now.
    pub fn clone_snapshot(&self) -> (snapshot: Self)
        ensures
            snapshot.out() == self.out(),
            snapshot.inc() == self.inc(),
    {
        BidirectionalGraph {
            outgoing_edges: copy_rows(&self.outgoing_edges),
            incoming_edges: copy_rows(&self.incoming_edges),
        }
    }
}

impl Clone for BidirectionalGraph {
    fn clone(&self) -> (copy: Self)
        ensures
            copy.out() == self.out(),
            copy.inc() == self.inc(),
    {
        self.clone_snapshot()
    }
}

impl Default for BidirectionalGraph {
    fn default() -> (graph: Self)
        ensures
            graph.wf(),
            graph.nodes() == 0,
    {
        BidirectionalGraph::new()
    }
}

/// `rows` after each of `edges` has been appended to the row of its source,
/// or of its target, with the rows grown for it.
pub open spec fn rows_with(rows: Seq<Seq<Edge>>, edges: Seq<Edge>, by_source: bool) -> Seq<
    Seq<Edge>,
>
    decreases edges.len(),
{
    if edges.len() == 0 {
        rows
    } else {
        appended(
            grown(
                rows_with(rows, edges.drop_last(), by_source),
                (top_node(edges.last()) + 1) as nat,
            ),
            if by_source {
                edges.last().source as int
            } else {
                edges.last().target as int
            },
            edges.last(),
        )
    }
}

/// The rows of `rows`, those in `done` with only the edges that `keep` holds
/// of.
pub open spec fn rows_kept_where(
    rows: Seq<Seq<Edge>>,
    keep: spec_fn(Edge) -> bool,
    done: Set<int>,
) -> Seq<Seq<Edge>> {
    Seq::new(
        rows.len(),
        |u: int|
            if done.contains(u) {
                kept(rows[u], keep)
            } else {
                rows[u]
            },
    )
}

/// The rows of `rows`, row `v` empty and every other row with only the edges
/// that `keep` holds of.
pub open spec fn rows_cleared(rows: Seq<Seq<Edge>>, v: int, keep: spec_fn(Edge) -> bool) -> Seq<
    Seq<Edge>,
> {
    Seq::new(
        rows.len(),
        |u: int|
            if u == v {
                Seq::<Edge>::empty()
            } else {
                kept(rows[u], keep)
            },
    )
}

/// The edges of `es` that neither start nor end at `v`.
pub open spec fn without_node(es: Set<Edge>, v: u32) -> Set<Edge> {
    Set::new(|e: Edge| es.contains(e) && e.source != v && e.target != v)
}

/// Clearing the rows of a well-formed store of `v` leaves a well-formed
/// store that holds the edges that do not touch `v`.
pub proof fn lemma_rows_cleared(out: Seq<Seq<Edge>>, inc: Seq<Seq<Edge>>, v: u32)
    requires
        out.len() == inc.len(),
        v < out.len(),
        rows_by_source(out),
        rows_by_target(inc),
        edges_by_source(out) == edges_by_target(inc),
    ensures
        rows_by_source(rows_cleared(out, v as int, Retain::NotInto(v).as_spec())),
        rows_by_target(rows_cleared(inc, v as int, Retain::NotOutOf(v).as_spec())),
        edges_by_source(rows_cleared(out, v as int, Retain::NotInto(v).as_spec())) == without_node(
            edges_by_source(out),
            v,
        ),
        edges_by_target(rows_cleared(inc, v as int, Retain::NotOutOf(v).as_spec())) == without_node(
            edges_by_source(out),
            v,
        ),
{
    let not_into = Retain::NotInto(v).as_spec();
    let not_out_of = Retain::NotOutOf(v).as_spec();
    let out2 = rows_cleared(out, v as int, not_into);
    let inc2 = rows_cleared(inc, v as int, not_out_of);
    assert forall|u: int, i: int| 0 <= u < out2.len() && 0 <= i < out2[u].len() implies (
    #[trigger] out2[u][i]).source == u && out2[u][i].target < out2.len() by {
        let e = out2[u][i];
        assert(kept(out[u], not_into).contains(e));
        lemma_kept(out[u], not_into);
        let j = choose|j: int| 0 <= j < out[u].len() && out[u][j] == e;
        assert(out[u][j].source == u);
    }
    assert forall|w: int, i: int| 0 <= w < inc2.len() && 0 <= i < inc2[w].len() implies (
    #[trigger] inc2[w][i]).target == w && inc2[w][i].source < inc2.len() by {
        let e = inc2[w][i];
        assert(kept(inc[w], not_out_of).contains(e));
        lemma_kept(inc[w], not_out_of);
        let j = choose|j: int| 0 <= j < inc[w].len() && inc[w][j] == e;
        assert(inc[w][j].target == w);
    }
    assert forall|e: Edge| edges_by_source(out2).contains(e) == without_node(
        edges_by_source(out),
        v,
    ).contains(e) by {
        let u = e.source as int;
        if u < out.len() {
            lemma_kept(out[u], not_into);
        }
    }
    assert forall|e: Edge| edges_by_target(inc2).contains(e) == without_node(
        edges_by_source(out),
        v,
    ).contains(e) by {
        let w = e.target as int;
        assert(edges_by_source(out).contains(e) == edges_by_target(inc).contains(e));
        if w < inc.len() {
            lemma_kept(inc[w], not_out_of);
        }
    }
    assert(edges_by_source(out2) =~= without_node(edges_by_source(out), v));
    assert(edges_by_target(inc2) =~= without_node(edges_by_source(out), v));
}

/// Whether `edge` is in `row`.
pub fn row_contains(row: &Vec<Edge>, edge: Edge) -> (found: bool)
    ensures
        found == row@.contains(edge),
{
    let mut i: usize = 0;
    while i < row.len()
        invariant
            0 <= i <= row@.len(),
            forall|j: int| 0 <= j < i ==> row@[j] != edge,
        decreases row@.len() - i,
    {
        let e = row[i];
        if e.source == edge.source && e.target == edge.target && e.cost == edge.cost {
            return true;
        }
        i += 1;
    }
    false
}

/// A copy of one list of edges.
pub fn copy_row(row: &Vec<Edge>) -> (copy: Vec<Edge>)
    ensures
        copy@ == row@,
{
    let mut copy: Vec<Edge> = Vec::with_capacity(row.len());
    let mut i: usize = 0;
    while i < row.len()
        invariant
            0 <= i <= row@.len(),
            copy@ == row@.take(i as int),
        decreases row@.len() - i,
    {
        copy.push(row[i]);
        assert(copy@ =~= row@.take(i + 1));
        i += 1;
    }
    assert(copy@ =~= row@);
    copy
}

/// A deep copy of adjacency lists.
pub fn copy_rows(rows: &Vec<Vec<Edge>>) -> (copy: Vec<Vec<Edge>>)
    ensures
        lists(copy@) == lists(rows@),
{
    let mut copy: Vec<Vec<Edge>> = Vec::with_capacity(rows.len());
    let mut u: usize = 0;
    while u < rows.len()
        invariant
            0 <= u <= rows@.len(),
            copy@.len() == u,
            forall|a: int| 0 <= a < u ==> (#[trigger] copy@[a])@ == rows@[a]@,
        decreases rows@.len() - u,
    {
        copy.push(copy_row(&rows[u]));
        u += 1;
    }
    assert(lists(copy@) =~= lists(rows@));
    copy
}

/// Appending an edge to the row of its source adds it to the set of edges.
pub proof fn lemma_appended_by_source(rows: Seq<Seq<Edge>>, edge: Edge)
    ensures
        edges_by_source(
            appended(grown(rows, (top_node(edge) + 1) as nat), edge.source as int, edge),
        ) == edges_by_source(rows).insert(edge),
{
    let wide = grown(rows, (top_node(edge) + 1) as nat);
    let after = appended(wide, edge.source as int, edge);
    assert forall|e: Edge| edges_by_source(after).contains(e) == edges_by_source(rows).insert(
        edge,
    ).contains(e) by {
        lemma_grown_row(rows, (top_node(edge) + 1) as nat, e.source as int);
        let u = e.source as int;
        if u < after.len() {
            if u == edge.source {
                let old_row = wide[u];
                let new_row = after[u];
                assert(new_row == old_row.push(edge));
                if new_row.contains(e) {
                    let i = choose|i: int| 0 <= i < new_row.len() && new_row[i] == e;
                    if i < old_row.len() {
                        assert(old_row[i] == e);
                    }
                }
                if old_row.contains(e) {
                    let i = choose|i: int| 0 <= i < old_row.len() && old_row[i] == e;
                    assert(new_row[i] == e);
                }
                assert(new_row[old_row.len() as int] == edge);
            } else {
                assert(after[u] == wide[u]);
            }
        }
    }
    assert(edges_by_source(after) =~= edges_by_source(rows).insert(edge));
}

/// Appending an edge to the row of its target adds it to the set of edges.
pub proof fn lemma_appended_by_target(rows: Seq<Seq<Edge>>, edge: Edge)
    ensures
        edges_by_target(
            appended(grown(rows, (top_node(edge) + 1) as nat), edge.target as int, edge),
        ) == edges_by_target(rows).insert(edge),
{
    let wide = grown(rows, (top_node(edge) + 1) as nat);
    let after = appended(wide, edge.target as int, edge);
    assert forall|e: Edge| edges_by_target(after).contains(e) == edges_by_target(rows).insert(
        edge,
    ).contains(e) by {
        lemma_grown_row(rows, (top_node(edge) + 1) as nat, e.target as int);
        let v = e.target as int;
        if v < after.len() {
            if v == edge.target {
                let old_row = wide[v];
                let new_row = after[v];
                assert(new_row == old_row.push(edge));
                if new_row.contains(e) {
                    let i = choose|i: int| 0 <= i < new_row.len() && new_row[i] == e;
                    if i < old_row.len() {
                        assert(old_row[i] == e);
                    }
                }
                if old_row.contains(e) {
                    let i = choose|i: int| 0 <= i < old_row.len() && old_row[i] == e;
                    assert(new_row[i] == e);
                }
                assert(new_row[old_row.len() as int] == edge);
            } else {
                assert(after[v] == wide[v]);
            }
        }
    }
    assert(edges_by_target(after) =~= edges_by_target(rows).insert(edge));
}

/// A row of grown rows is the old row, or empty where there was none.
pub proof fn lemma_grown_row(rows: Seq<Seq<Edge>>, n: nat, u: int)
    requires
        0 <= u,
    ensures
        grown(rows, n).len() == (if n <= rows.len() {
            rows.len()
        } else {
            n
        }),
        u < rows.len() ==> grown(rows, n)[u] == rows[u],
        rows.len() <= u < n ==> grown(rows, n)[u] == Seq::<Edge>::empty(),
{
}

} // verus!
