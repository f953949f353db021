//! The query: two searches, one forward from the source and one backward from
//! the target, each over the edges that its side of the hierarchy kept,
//! meeting in the middle.

use crate::bidirectional_graph::BidirectionalGraph;
use crate::binary_heap::MinimumItem;
use crate::fast_graph::FastGraph;
use crate::fast_graph::leaving;
use crate::graph::Edge;
use crate::graph::Route;
use crate::paths::inverted;
use crate::paths::is_path;
use crate::paths::path_cost;
use crate::paths::reaches;
use crate::rows::flat;
use crate::rows::flatten_rows;
use crate::rows::lemma_bucketed_exact;
use crate::rows::lemma_flat;
use crate::rows::lists;
use crate::rows::top_node;
use crate::search::Search;
use crate::trail::Trail;
use crate::trail::lemma_trail_relax;
use crate::trail::lemma_trail_settle;
use crate::trail::nodes_along;
use crate::trail::turned;
use vstd::prelude::*;

verus! {

/// A path of `forward` from `s` and a path of `backward` from `t` end in the
/// same node, and their costs add up to `c`.
pub open spec fn meets(forward: Set<Edge>, backward: Set<Edge>, s: u32, t: u32, c: nat) -> bool {
    exists|v: u32, a: nat, b: nat| #[trigger]
        reaches(forward, s, v, a) && #[trigger] reaches(backward, t, v, b) && a + b == c
}

/// No path of `forward` from `s` and path of `backward` from `t` that end in
/// the same node cost less than `c` together.
pub open spec fn no_cheaper_meeting(
    forward: Set<Edge>,
    backward: Set<Edge>,
    s: u32,
    t: u32,
    c: nat,
) -> bool {
    forall|v: u32, p: Seq<Edge>, q: Seq<Edge>| #[trigger]
        is_path(forward, p, s, v) && #[trigger] is_path(backward, q, t, v) ==> c <= path_cost(p)
            + path_cost(q)
}

/// `d` is the least cost at which a forward path from `s` and a backward path
/// from `t` meet.
pub open spec fn is_meeting_distance(
    forward: Set<Edge>,
    backward: Set<Edge>,
    s: u32,
    t: u32,
    d: nat,
) -> bool {
    meets(forward, backward, s, t, d) && no_cheaper_meeting(forward, backward, s, t, d)
}

/// `nodes` are the nodes of a way from `s` to `t` at the cost `c`: those of a
/// forward path from `s` to some node, and then those of a backward path
/// from `t` to that node, from its end to `t`.
pub open spec fn is_route(
    forward: Set<Edge>,
    backward: Set<Edge>,
    s: u32,
    t: u32,
    c: nat,
    nodes: Seq<u32>,
) -> bool {
    exists|v: u32, p: Seq<Edge>, q: Seq<Edge>| #[trigger]
        is_path(forward, p, s, v) && #[trigger] is_path(backward, q, t, v) && path_cost(p)
            + path_cost(q) == c && nodes == nodes_along(s, p) + turned(
            nodes_along(t, q),
        ).drop_first()
}

/// The nodes of `up` from the last to the first, and then those of `down`
/// but for its first.
fn join_ways(up: &Vec<u32>, down: &Vec<u32>) -> (route: Vec<u32>)
    requires
        up@.len() >= 1,
        down@.len() >= 1,
    ensures
        route@ == turned(up@) + down@.drop_first(),
{
    let mut route: Vec<u32> = Vec::new();
    let mut i: usize = up.len();
    while i > 0
        invariant
            0 <= i <= up@.len(),
            route@ == turned(up@).take(up@.len() - i),
        decreases i,
    {
        i -= 1;
        route.push(up[i]);
        assert(route@ =~= turned(up@).take(up@.len() - i));
    }
    assert(turned(up@).take(up@.len() as int) =~= turned(up@));
    let mut j: usize = 1;
    while j < down.len()
        invariant
            1 <= j <= down@.len(),
            route@ == turned(up@) + down@.drop_first().take(j - 1),
        decreases down@.len() - j,
    {
        route.push(down[j]);
        assert(route@ =~= turned(up@) + down@.drop_first().take(j as int));
        j += 1;
    }
    assert(down@.drop_first().take(down@.len() - 1) =~= down@.drop_first());
    route
}

/// Why a query was not run.
#[derive(Debug, Clone, Copy, PartialEq, Eq, Structural)]
pub enum QueryError {
    /// The node is no node of the graph.
    OutOfRange(u32),
}

/// The two sides of a contraction hierarchy, frozen for queries.
pub struct ChDijsktra {
    forward_graph: FastGraph,
    backward_graph: FastGraph,
}

/// One step of a search over a frozen graph: takes one entry from the
/// queue; if that settles a node, relaxes its edges, notes in `trail` where
/// each cost that fell came from, and hands the node out with its cost.
pub fn expand(graph: &FastGraph, search: &mut Search, trail: &mut Trail) -> (settled: Option<
    (u32, u32),
>)
    requires
        graph.wf(),
        old(search).inv(),
        old(search).complete(),
        old(search).edges() == graph.edge_set(),
        old(search).nodes() == graph.nodes(),
        old(trail).follows(old(search)),
    ensures
        final(search).inv(),
        final(search).complete(),
        final(trail).follows(final(search)),
        final(search).edges() == old(search).edges(),
        final(search).source() == old(search).source(),
        final(search).nodes() == old(search).nodes(),
        final(search).limit() == old(search).limit(),
        forall|w: u32| #[trigger]
            old(search).costs().contains_key(w) ==> final(search).costs().contains_key(w)
                && final(search).costs()[w] <= old(search).costs()[w],
        forall|w: u32| #[trigger]
            old(search).settled().contains(w) ==> final(search).settled().contains(w)
                && final(search).costs()[w] == old(search).costs()[w],
        match settled {
            Some((node, cost)) => {
                &&& !old(search).settled().contains(node)
                &&& final(search).settled() == old(search).settled().insert(node)
                &&& final(search).order() == old(search).order().push(node)
                &&& final(search).costs().contains_key(node)
                &&& final(search).costs()[node] == cost
            },
            None => {
                &&& final(search).settled() == old(search).settled()
                &&& final(search).order() == old(search).order()
                &&& final(search).costs() == old(search).costs()
                &&& if old(search).pending().len() > 0 {
                    final(search).pending().len() == old(search).pending().len() - 1
                } else {
                    final(search).pending().len() == 0
                }
            },
        },
{
    let ghost es = search.edges();
    let ghost relaxed0 = search.relaxed();
    let ghost settled0 = search.settled();
    let ghost order0 = search.order();
    let ghost costs0 = search.costs();
    proof {
        search.lemma_inv();
        graph.lemma_wf();
    }
    match search.settle() {
        None => None,
        Some((node, cost)) => {
            proof {
                search.lemma_inv();
                lemma_trail_settle(
                    es,
                    search.source(),
                    costs0,
                    settled0,
                    order0,
                    trail.steps(),
                    node,
                );
            }
            let row = graph.edges_from(node);
            let mut i: usize = 0;
            while i < row.len()
                invariant
                    0 <= i <= row@.len(),
                    graph.wf(),
                    node < graph.nodes(),
                    graph.rows().len() == graph.nodes(),
                    crate::fast_graph::row_leaving(node as int, row@) == graph.rows()[node as int],
                    forall|j: int| 0 <= j < row@.len()
                        ==> (#[trigger] row@[j]).target < graph.nodes(),
                    search.inv(),
                    search.edges() == es,
                    es == graph.edge_set(),
                    search.nodes() == graph.nodes(),
                    search.source() == old(search).source(),
                    search.limit() == old(search).limit(),
                    search.settled() == settled0.insert(node),
                    search.order() == order0.push(node),
                    search.costs().contains_key(node),
                    search.costs()[node] == cost,
                    trail.follows(search),
                    forall|w: u32| #[trigger]
                        costs0.contains_key(w) ==> search.costs().contains_key(w)
                            && search.costs()[w] <= costs0[w],
                    forall|w: u32| #[trigger]
                        settled0.contains(w) ==> search.costs()[w] == costs0[w],
                    forall|e: Edge| relaxed0.contains(e) ==> search.relaxed().contains(e),
                    forall|j: int|
                        0 <= j < i ==> search.relaxed().contains(
                            leaving(node as int, #[trigger] row@[j]),
                        ),
                decreases row@.len() - i,
            {
                let edge = row[i];
                proof {
                    let full = leaving(node as int, edge);
                    assert(crate::fast_graph::row_leaving(node as int, row@)[i as int] == full);
                    assert(graph.rows()[node as int].contains(full));
                }
                let ghost costs_before = search.costs();
                let ghost steps_before = trail.steps();
                if search.relax(node, cost, edge.target, edge.cost) {
                    trail.note(edge.target, node);
                    proof {
                        lemma_trail_relax(
                            es,
                            search.source(),
                            costs_before,
                            search.settled(),
                            search.order(),
                            steps_before,
                            node,
                            edge.target,
                            edge.cost,
                        );
                    }
                }
                i += 1;
            }
            proof {
                assert forall|e: Edge| #[trigger]
                    es.contains(e) && search.settled().contains(
                        e.source,
                    ) implies search.relaxed().contains(e) by {
                    if e.source == node {
                        let full_row = graph.rows()[node as int];
                        let j = choose|j: int| 0 <= j < full_row.len() && full_row[j] == e;
                        assert(crate::fast_graph::row_leaving(node as int, row@)[j] == e);
                        assert(leaving(node as int, row@[j]) == e);
                    } else {
                        assert(relaxed0.contains(e));
                    }
                }
            }
            Some((node, cost))
        },
    }
}


/// One step of one side of the query: a step of its search; if that settles
/// a node, the node is tried as a meeting node against the cost that `other`
/// has for it. Hands back the best meeting cost so far and the node where
/// it was found.
fn advance(
    graph: &FastGraph,
    search: &mut Search,
    trail: &mut Trail,
    other: &Search,
    best: u32,
    meeting: u32,
) -> (next: (u32, u32))
    requires
        graph.wf(),
        old(search).inv(),
        old(search).complete(),
        old(search).edges() == graph.edge_set(),
        old(search).nodes() == graph.nodes(),
        old(trail).follows(old(search)),
        other.inv(),
    ensures
        final(search).inv(),
        final(trail).follows(final(search)),
        forall|w: u32| #[trigger]
            old(search).costs().contains_key(w) ==> final(search).costs().contains_key(w)
                && final(search).costs()[w] <= old(search).costs()[w],
        next.0 < best ==> final(search).costs().contains_key(next.1) && other.costs().contains_key(
            next.1,
        ) && final(search).costs()[next.1] + other.costs()[next.1] <= next.0,
        next.0 == best ==> next.1 == meeting,
        final(search).complete(),
        final(search).edges() == old(search).edges(),
        final(search).source() == old(search).source(),
        final(search).nodes() == old(search).nodes(),
        final(search).limit() == old(search).limit(),
        old(search).order().len() <= final(search).order().len() <= old(search).order().len() + 1,
        final(search).order().len() == old(search).order().len()
            ==> (if old(search).pending().len() > 0 {
            final(search).pending().len() == old(search).pending().len() - 1
        } else {
            final(search).pending().len() == 0
        }),
        forall|w: u32| #[trigger]
            old(search).settled().contains(w) ==> final(search).settled().contains(w)
                && final(search).costs()[w] == old(search).costs()[w],
        next.0 <= best,
        next.0 < best ==> meets(
            old(search).edges(),
            other.edges(),
            old(search).source(),
            other.source(),
            next.0 as nat,
        ),
        forall|w: u32| #[trigger]
            final(search).settled().contains(w) && !old(search).settled().contains(w)
                && other.settled().contains(w) ==> next.0 <= final(search).costs()[w]
                + other.costs()[w],
{
    proof {
        search.lemma_inv();
        other.lemma_inv();
    }
    let ghost es = search.edges();
    match expand(graph, search, trail) {
        None => (best, meeting),
        Some((node, cost)) => {
            proof {
                search.lemma_inv();
            }
            match other.cost_of(node) {
                Some(other_cost) => {
                    let joint: u64 = cost as u64 + other_cost as u64;
                    if joint < best as u64 {
                        proof {
                            assert(reaches(es, search.source(), node, cost as nat));
                            assert(reaches(
                                other.edges(),
                                other.source(),
                                node,
                                other_cost as nat,
                            ));
                        }
                        (joint as u32, node)
                    } else {
                        (best, meeting)
                    }
                },
                None => (best, meeting),
            }
        },
    }
}

impl ChDijsktra {
    /// The edges that the forward search runs over.
    pub closed spec fn forward(&self) -> Set<Edge> {
        self.forward_graph.edge_set()
    }

    /// The edges that the backward search runs over: each one points from the
    /// node nearer the target to the node farther from it.
    pub closed spec fn backward(&self) -> Set<Edge> {
        self.backward_graph.edge_set()
    }

    /// The number of nodes.
    pub closed spec fn nodes(&self) -> nat {
        self.forward_graph.nodes()
    }

    /// Both sides are well formed and cover the same nodes.
    pub closed spec fn wf(&self) -> bool {
        &&& self.forward_graph.wf()
        &&& self.backward_graph.wf()
        &&& self.forward_graph.nodes() == self.backward_graph.nodes()
    }

    /// Freezes the two sides of `graph`: its outgoing lists for the forward
    /// search, its incoming lists, each edge inverted, for the backward one.
    pub fn new(graph: BidirectionalGraph) -> (engine: Self)
        requires
            graph.wf(),
        ensures
            engine.wf(),
            engine.nodes() == graph.nodes(),
            engine.forward() == graph.out_edges(),
            engine.backward() == inverted(graph.in_edges()),
    {
        let n = graph.outgoing_edges.len();
        let forward_edges = flatten_rows(&graph.outgoing_edges, false);
        let backward_edges = flatten_rows(&graph.incoming_edges, true);
        let forward_graph = FastGraph::with_nodes(&forward_edges, n);
        let backward_graph = FastGraph::with_nodes(&backward_edges, n);
        proof {
            let out = graph.out();
            let inc = graph.inc();
            forward_graph.lemma_wf();
            backward_graph.lemma_wf();
            lemma_flat(out);
            lemma_flat(inc);
            assert forall|k: int| 0 <= k < forward_edges@.len() implies top_node(
                #[trigger] forward_edges@[k],
            ) < n by {
                let e = forward_edges@[k];
                assert(flat(out).contains(e));
                let u = choose|u: int| 0 <= u < out.len() && (#[trigger] out[u]).contains(e);
                let i = choose|i: int| 0 <= i < out[u].len() && out[u][i] == e;
                assert(out[u][i].source == u);
            }
            assert forall|k: int| 0 <= k < backward_edges@.len() implies top_node(
                #[trigger] backward_edges@[k],
            ) < n by {
                let back = flat(inc)[k];
                assert(flat(inc).contains(back));
                let u = choose|u: int| 0 <= u < inc.len() && (#[trigger] inc[u]).contains(back);
                let i = choose|i: int| 0 <= i < inc[u].len() && inc[u][i] == back;
                assert(inc[u][i].target == u);
            }
            lemma_bucketed_exact(forward_edges@, n as nat);
            lemma_bucketed_exact(backward_edges@, n as nat);
            assert(forward_edges@.to_set() =~= graph.out_edges()) by {
                assert forall|e: Edge|
                    forward_edges@.to_set().contains(e) == graph.out_edges().contains(e) by {
                    if forward_edges@.contains(e) {
                        let u = choose|u: int|
                            0 <= u < out.len() && (#[trigger] out[u]).contains(e);
                        let i = choose|i: int| 0 <= i < out[u].len() && out[u][i] == e;
                        assert(out[u][i].source == u);
                    }
                    if graph.out_edges().contains(e) {
                        assert(out[e.source as int].contains(e));
                    }
                }
            }
            assert(backward_edges@.to_set() =~= inverted(graph.in_edges())) by {
                assert forall|e: Edge|
                    backward_edges@.to_set().contains(e) == inverted(graph.in_edges()).contains(
                        e,
                    ) by {
                    let back = Edge { source: e.target, target: e.source, cost: e.cost };
                    if backward_edges@.contains(e) {
                        let k = choose|k: int|
                            0 <= k < backward_edges@.len() && backward_edges@[k] == e;
                        assert(flat(inc)[k] == back);
                        assert(flat(inc).contains(back));
                        let u = choose|u: int|
                            0 <= u < inc.len() && (#[trigger] inc[u]).contains(back);
                        let i = choose|i: int| 0 <= i < inc[u].len() && inc[u][i] == back;
                        assert(inc[u][i].target == u);
                    }
                    if graph.in_edges().contains(back) {
                        assert(inc[back.target as int].contains(back));
                        assert(flat(inc).contains(back));
                        let k = choose|k: int| 0 <= k < flat(inc).len() && flat(inc)[k] == back;
                        assert(backward_edges@[k] == e);
                    }
                }
            }
        }
        ChDijsktra { forward_graph, backward_graph }
    }

    /// The number of nodes.
    pub fn node_count(&self) -> (n: usize)
        requires
            self.wf(),
        ensures
            n == self.nodes(),
    {
        self.forward_graph.node_count()
    }

    /// The cost of a cheapest way from `source` to `target` that goes up the
    /// forward side and down the backward side, if there is one and its cost
    /// is below `u32::MAX`. A node outside the graph is joined to nothing.
    pub fn single_pair_shortest_path(&self, source: u32, target: u32) -> (route: Route)
        requires
            self.wf(),
        ensures
            route.source == source,
            route.target == target,
            match route.cost {
                Some(c) => source < self.nodes() && target < self.nodes() && c < u32::MAX
                    && is_meeting_distance(
                    self.forward(),
                    self.backward(),
                    source,
                    target,
                    c as nat,
                ) && is_route(self.forward(), self.backward(), source, target, c as nat,
                    route.route@),
                None => route.route@.len() == 0 && (source >= self.nodes() || target
                    >= self.nodes() || no_cheaper_meeting(
                    self.forward(),
                    self.backward(),
                    source,
                    target,
                    u32::MAX as nat,
                )),
            },
    {
        let n = self.forward_graph.node_count();
        if source as usize >= n || target as usize >= n {
            return Route { source, target, cost: None, route: Vec::new() };
        }
        let ghost fes = self.forward_graph.edge_set();
        let ghost bes = self.backward_graph.edge_set();
        let mut forward = Search::start(source, u32::MAX - 1, Ghost(fes), Ghost(n as nat));
        let mut backward = Search::start(target, u32::MAX - 1, Ghost(bes), Ghost(n as nat));
        let mut forward_trail = Trail::new();
        let mut backward_trail = Trail::new();
        let mut min_cost: u32 = u32::MAX;
        let mut meeting_node: u32 = u32::MAX;
        let mut forward_frontier = forward.frontier();
        let mut backward_frontier = backward.frontier();
        proof {
            forward.lemma_inv();
            backward.lemma_inv();
        }
        while (!forward.is_exhausted() || !backward.is_exhausted()) && (forward_frontier < min_cost
            || backward_frontier < min_cost)
            invariant
                self.wf(),
                n == self.nodes(),
                fes == self.forward_graph.edge_set(),
                bes == self.backward_graph.edge_set(),
                forward.inv(),
                forward.complete(),
                forward.edges() == fes,
                forward.source() == source,
                forward.nodes() == n,
                forward.limit() == u32::MAX - 1,
                forward.order().len() <= n,
                backward.inv(),
                backward.complete(),
                backward.edges() == bes,
                backward.source() == target,
                backward.nodes() == n,
                backward.limit() == u32::MAX - 1,
                backward.order().len() <= n,
                forall|x: MinimumItem| forward.pending().contains(x) ==> x.priority
                    >= forward_frontier,
                forall|x: MinimumItem|
                    backward.pending().contains(x) ==> x.priority >= backward_frontier,
                forward.pending().len() == 0 ==> forward_frontier == u32::MAX,
                backward.pending().len() == 0 ==> backward_frontier == u32::MAX,
                forward_trail.follows(&forward),
                backward_trail.follows(&backward),
                min_cost < u32::MAX ==> forward.costs().contains_key(meeting_node)
                    && backward.costs().contains_key(meeting_node) && forward.costs()[meeting_node]
                    + backward.costs()[meeting_node] <= min_cost,
                min_cost < u32::MAX ==> meets(fes, bes, source, target, min_cost as nat),
                forall|w: u32|
                    forward.settled().contains(w) && #[trigger] backward.settled().contains(w)
                        ==> min_cost <= forward.costs()[w] + backward.costs()[w],
            decreases
                    (n - forward.order().len()) + (n - backward.order().len()),
                    forward.pending().len() + backward.pending().len(),
        {
            let next = advance(
                &self.forward_graph,
                &mut forward,
                &mut forward_trail,
                &backward,
                min_cost,
                meeting_node,
            );
            min_cost = next.0;
            meeting_node = next.1;
            forward_frontier = forward.frontier();
            proof {
                forward.lemma_inv();
            }
            let ghost best1 = min_cost;
            let next = advance(
                &self.backward_graph,
                &mut backward,
                &mut backward_trail,
                &forward,
                min_cost,
                meeting_node,
            );
            min_cost = next.0;
            meeting_node = next.1;
            backward_frontier = backward.frontier();
            proof {
                backward.lemma_inv();
                if min_cost < best1 {
                    lemma_meets_swap(bes, fes, target, source, min_cost as nat);
                }
            }
        }
        proof {
            // whichever way the loop ended, neither frontier is below the best cost
            assert(forward_frontier >= min_cost);
            assert(backward_frontier >= min_cost);
            assert forall|v: u32, p: Seq<Edge>, q: Seq<Edge>| #[trigger]
                is_path(fes, p, source, v) && #[trigger] is_path(
                    bes,
                    q,
                    target,
                    v,
                ) implies min_cost <= path_cost(p) + path_cost(q) by {
                if !forward.settled().contains(v) {
                    forward.lemma_unsettled_bound(p, v, forward_frontier as nat);
                } else if !backward.settled().contains(v) {
                    backward.lemma_unsettled_bound(q, v, backward_frontier as nat);
                } else {
                    forward.lemma_settled_distance(v);
                    backward.lemma_settled_distance(v);
                }
            }
        }
        if min_cost < u32::MAX {
            let (up, Ghost(p)) = forward_trail.back_to_source(&forward, meeting_node);
            let (down, Ghost(q)) = backward_trail.back_to_source(&backward, meeting_node);
            let route = join_ways(&up, &down);
            proof {
                assert(is_path(fes, p, source, meeting_node) && is_path(
                    bes,
                    q,
                    target,
                    meeting_node,
                ));
                assert(min_cost <= path_cost(p) + path_cost(q));
                assert(route@ == nodes_along(source, p)
                    + turned(nodes_along(target, q)).drop_first())
                    by {
                    assert(turned(turned(down@)) =~= down@);
                }
            }
            Route { source, target, cost: Some(min_cost), route }
        } else {
            Route { source, target, cost: None, route: Vec::new() }
        }
    }

    /// The cost of a cheapest way from `source` to `target`, or the first of
    /// the two that is no node of the graph.
    pub fn query(&self, source: u32, target: u32) -> (answer: Result<Option<u32>, QueryError>)
        requires
            self.wf(),
        ensures
            match answer {
                Ok(Some(c)) => source < self.nodes() && target < self.nodes() && c < u32::MAX
                    && is_meeting_distance(
                    self.forward(),
                    self.backward(),
                    source,
                    target,
                    c as nat,
                ),
                Ok(None) => source < self.nodes() && target < self.nodes() && no_cheaper_meeting(
                    self.forward(),
                    self.backward(),
                    source,
                    target,
                    u32::MAX as nat,
                ),
                Err(QueryError::OutOfRange(node)) => node >= self.nodes() && (if source
                    >= self.nodes() {
                    node == source
                } else {
                    node == target
                }),
            },
    {
        let n = self.forward_graph.node_count();
        if source as usize >= n {
            return Err(QueryError::OutOfRange(source));
        }
        if target as usize >= n {
            return Err(QueryError::OutOfRange(target));
        }
        Ok(self.single_pair_shortest_path(source, target).cost)
    }
}

/// Where two paths meet does not depend on which side is named first.
pub proof fn lemma_meets_swap(a: Set<Edge>, b: Set<Edge>, s: u32, t: u32, c: nat)
    requires
        meets(a, b, s, t, c),
    ensures
        meets(b, a, t, s, c),
{
    let (v, x, y) = choose|v: u32, x: nat, y: nat| #[trigger]
        reaches(a, s, v, x) && #[trigger] reaches(b, t, v, y) && x + y == c;
    assert(reaches(b, t, v, y) && reaches(a, s, v, x) && y + x == c);
}

} // verus!
