//! The contraction queue: a lazy min-heap of nodes by a priority that is made
//! up of weighted terms.
//!
//! The priority that the heap holds for a node may be stale. So `lazy_pop`
//! works the priority of the top entry out again: if it has risen, the entry
//! goes back at its new priority and the next one is tried.

use crate::bidirectional_graph::BidirectionalGraph;
use crate::binary_heap::MinHeap;
use crate::binary_heap::leaves_before;
use crate::graph::Edge;
use crate::priority_term::cost_of_queries_priority::CostOfQueriesPriority;
use crate::priority_term::cost_of_queries_priority::deepened;
use crate::priority_term::deleted_neighbors_priority::DeletedNeighborsPriority;
use crate::priority_term::deleted_neighbors_priority::is_deleted;
use crate::priority_term::deleted_neighbors_priority::live_sources;
use crate::priority_term::deleted_neighbors_priority::live_targets;
use crate::priority_term::edge_difference_priority::EdgeDifferencePriority;
use crate::priority_term::priority_terms::clamp;
use crate::priority_term::priority_terms::clamped;
use crate::priority_term::priority_terms::PriorityTerm;
use crate::priority_term::voronoi_region::VoronoiRegion;
use crate::priority_term::voronoi_region::floor_sqrt;
use crate::priority_term::voronoi_region::region_size;
use crate::rows::edges_by_source;
use crate::search::lemma_distinct_bounded;
use crate::shortcut_generator::all_shortcuts;
use crate::shuffle::seeded_generator;
use crate::shuffle::shuffle;
use crate::state::CHState;
use vstd::multiset::Multiset;
use vstd::prelude::*;

verus! {

broadcast use {vstd::multiset::group_multiset_axioms, vstd::seq_lib::group_to_multiset_ensures};

/// The seed of the shuffle where none is given.
pub const DEFAULT_SEED: u64 = 0;

/// The weights of the four terms, in the order in which they are summed.
#[derive(Debug, Clone, Copy, PartialEq, Eq, Structural)]
pub struct Weights {
    pub deleted_neighbors: i32,
    pub cost_of_queries: i32,
    pub edge_difference: i32,
    pub voronoi_region: i32,
}

/// The priority of `v`: the weighted sum of the four terms, each cut to an
/// `i32`, and cut to an `i32` itself. The terms are the count of the live
/// neighbors of `v`, its depth, its edge difference, and the square root of
/// the size of its region.
pub open spec fn priority_from(
    weights: Weights,
    deleted: Seq<bool>,
    depth: Seq<u32>,
    out: Seq<Seq<Edge>>,
    inc: Seq<Seq<Edge>>,
    v: u32,
) -> i32 {
    clamped(
        weights.deleted_neighbors * clamped(
            (live_targets(out[v as int], deleted) + live_sources(inc[v as int], deleted)) as int,
        ) + weights.cost_of_queries * clamped(depth[v as int] as int) + weights.edge_difference
            * clamped(
            all_shortcuts(edges_by_source(out), v, inc[v as int], out[v as int]).len() - (
            inc[v as int].len() + out[v as int].len()),
        ) + weights.voronoi_region * clamped(
            floor_sqrt(region_size(out, v, out[v as int])) as int,
        ),
    )
}

/// Every weight at one.
pub open spec fn unit_weights() -> Weights {
    Weights { deleted_neighbors: 1, cost_of_queries: 1, edge_difference: 1, voronoi_region: 1 }
}

/// No node is marked.
pub open spec fn unmarked(n: nat) -> Seq<bool> {
    Seq::new(n, |i: int| false)
}

/// Every node is at depth zero.
pub open spec fn shallow(n: nat) -> Seq<u32> {
    Seq::new(n, |i: int| 0u32)
}

/// What a queue holds at the start: every node of the graph at its
/// priority.
pub open spec fn initial_held(weights: Weights, out: Seq<Seq<Edge>>, inc: Seq<Seq<Edge>>) -> Map<
    u32,
    i32,
> {
    Map::new(
        |v: u32| v < out.len(),
        |v: u32| priority_from(weights, unmarked(out.len()), shallow(out.len()), out, inc, v),
    )
}

/// No node has two entries, every entry is a node below `n`, and none of a
/// deleted node.
pub open spec fn entries_distinct(entries: Multiset<CHState>, deleted: Seq<bool>, n: nat) -> bool {
    &&& forall|x: CHState| entries.count(x) <= 1
    &&& forall|x: CHState| #[trigger]
        entries.contains(x) ==> x.node_id < n && !is_deleted(deleted, x.node_id)
    &&& forall|x: CHState, y: CHState|
        entries.contains(x) && entries.contains(y) && x.node_id == y.node_id ==> x == y
}

/// The nodes that have an entry.
pub open spec fn nodes_of(entries: Multiset<CHState>) -> Set<u32> {
    Set::new(|v: u32| exists|x: CHState| #[trigger] entries.contains(x) && x.node_id == v)
}

pub struct CHQueue {
    queue: MinHeap<CHState>,
    weights: Weights,
    deleted_neighbors: DeletedNeighborsPriority,
    cost_of_queries: CostOfQueriesPriority,
    edge_difference: EdgeDifferencePriority,
    voronoi_region: VoronoiRegion,
}

impl CHQueue {
    /// The entries of the heap.
    pub closed spec fn entries(&self) -> Multiset<CHState> {
        self.queue@
    }

    /// The nodes that wait in the queue.
    pub open spec fn members(&self) -> Set<u32> {
        nodes_of(self.entries())
    }

    /// The priority that is held for each node that waits.
    pub open spec fn held(&self) -> Map<u32, i32> {
        stored(self.entries())
    }

    /// The priority of each node as things stand.
    pub open spec fn priorities(&self, graph: &BidirectionalGraph) -> spec_fn(u32) -> i32 {
        |w: u32| self.priority_of(graph, w)
    }

    /// The weights of the terms.
    pub closed spec fn weights(&self) -> Weights {
        self.weights
    }

    /// The marks of the deleted-neighbors term.
    pub closed spec fn deleted(&self) -> Seq<bool> {
        self.deleted_neighbors.deleted()
    }

    /// The depths of the cost-of-queries term.
    pub closed spec fn depth(&self) -> Seq<u32> {
        self.cost_of_queries.depth()
    }

    /// The queue serves a graph of `n` nodes: its terms cover them, and no
    /// node waits twice or after it has left.
    pub closed spec fn wf(&self, n: nat) -> bool {
        &&& self.queue.wf()
        &&& self.deleted_neighbors.deleted().len() == n
        &&& self.cost_of_queries.depth().len() == n
        &&& entries_distinct(self.queue@, self.deleted_neighbors.deleted(), n)
    }

    /// The priority of `v` as things stand: the weighted sum of the terms,
    /// each cut to an `i32`, and cut to an `i32` itself.
    pub closed spec fn priority_of(&self, graph: &BidirectionalGraph, v: u32) -> i32 {
        priority_from(
            self.weights,
            self.deleted_neighbors.deleted(),
            self.cost_of_queries.depth(),
            graph.out(),
            graph.inc(),
            v,
        )
    }

    /// The priority of a node depends on the weights, the marks, the depths
    /// and the graph alone.
    pub proof fn lemma_priority(&self, graph: &BidirectionalGraph, v: u32)
        ensures
            self.priority_of(graph, v) == priority_from(
                self.weights(),
                self.deleted(),
                self.depth(),
                graph.out(),
                graph.inc(),
                v,
            ),
    {
    }

    /// What `wf` says of the entries.
    pub proof fn lemma_wf(&self, n: nat)
        requires
            self.wf(n),
        ensures
            entries_distinct(self.entries(), self.deleted(), n),
            self.deleted().len() == n,
            self.depth().len() == n,
            forall|v: u32| self.members().contains(v) ==> v < n && !is_deleted(self.deleted(), v),
    {
        assert forall|v: u32| self.members().contains(v) implies v < n && !is_deleted(
            self.deleted(),
            v,
        ) by {
            let x = choose|x: CHState| #[trigger] self.entries().contains(x) && x.node_id == v;
        }
    }

    /// The queue of all nodes of `graph`, each at its priority as things
    /// stand, with every weight at one. The nodes are entered in an order
    /// shuffled with the default seed.
    pub fn new(graph: &BidirectionalGraph) -> (queue: Self)
        requires
            graph.wf(),
        ensures
            queue.wf(graph.nodes()),
            queue.weights() == unit_weights(),
            queue.members() == Set::new(|v: u32| v < graph.nodes()),
            queue.entries().len() == graph.nodes(),
            queue.deleted() == unmarked(graph.nodes()),
            queue.depth() == shallow(graph.nodes()),
            queue.held() == initial_held(unit_weights(), graph.out(), graph.inc()),
    {
        let weights = Weights {
            deleted_neighbors: 1,
            cost_of_queries: 1,
            edge_difference: 1,
            voronoi_region: 1,
        };
        CHQueue::with_seed(graph, weights, DEFAULT_SEED)
    }

    /// The queue of all nodes of `graph`, each at its priority as things
    /// stand under `weights`. The nodes are entered in an order shuffled with
    /// `seed`.
    pub fn with_seed(graph: &BidirectionalGraph, weights: Weights, seed: u64) -> (queue: Self)
        requires
            graph.wf(),
        ensures
            queue.wf(graph.nodes()),
            queue.weights() == weights,
            queue.members() == Set::new(|v: u32| v < graph.nodes()),
            queue.entries().len() == graph.nodes(),
            queue.deleted() == unmarked(graph.nodes()),
            queue.depth() == shallow(graph.nodes()),
            queue.held() == initial_held(weights, graph.out(), graph.inc()),
    {
        let n = graph.outgoing_edges.len();
        let mut queue = CHQueue {
            queue: MinHeap::new(),
            weights,
            deleted_neighbors: DeletedNeighborsPriority::new(graph),
            cost_of_queries: CostOfQueriesPriority::new(graph),
            edge_difference: EdgeDifferencePriority::new(),
            voronoi_region: VoronoiRegion::new(),
        };
        let mut order: Vec<u32> = Vec::with_capacity(n);
        let mut i: usize = 0;
        while i < n
            invariant
                0 <= i <= n,
                n <= u32::MAX + 1,
                order@.len() == i,
                forall|k: int| 0 <= k < i ==> #[trigger] order@[k] == k,
            decreases n - i,
        {
            order.push(i as u32);
            i += 1;
        }
        let ghost sorted = order@;
        let mut generator = seeded_generator(seed);
        shuffle(&mut order, &mut generator);
        proof {
            assert(sorted.no_duplicates());
            sorted.lemma_multiset_has_no_duplicates();
            order@.lemma_multiset_has_no_duplicates_conv();
            assert forall|k: int| 0 <= k < order@.len() implies #[trigger] order@[k] < n by {
                assert(order@.to_multiset().contains(order@[k]));
                assert(sorted.contains(order@[k]));
            }
            assert(order@.len() == n) by {
                assert(order@.to_multiset().len() == sorted.to_multiset().len());
            }
            assert forall|v: u32| v < n implies order@.contains(v) by {
                assert(sorted[v as int] == v);
                assert(sorted.to_multiset().contains(v));
            }
        }
        let mut i: usize = 0;
        while i < n
            invariant
                0 <= i <= n,
                n == graph.nodes(),
                n == order@.len(),
                graph.wf(),
                order@.no_duplicates(),
                forall|k: int| 0 <= k < order@.len() ==> #[trigger] order@[k] < n,
                queue.wf(n as nat),
                queue.queue@.len() == i,
                queue.weights == weights,
                queue.deleted() == unmarked(n as nat),
                queue.depth() == shallow(n as nat),
                forall|x: CHState| #[trigger]
                    queue.queue@.contains(x) ==> x.priority == priority_from(
                        weights,
                        unmarked(n as nat),
                        shallow(n as nat),
                        graph.out(),
                        graph.inc(),
                        x.node_id,
                    ),
                forall|x: CHState| #[trigger]
                    queue.queue@.contains(x) ==> order@.take(i as int).contains(x.node_id),
                forall|k: int|
                    0 <= k < i ==> nodes_of(queue.queue@).contains(#[trigger] order@[k]),
            decreases n - i,
        {
            let v = order[i];
            let priority = queue.get_priority(graph, v);
            let ghost before = queue.queue@;
            let ghost marks = queue.deleted();
            let ghost depths = queue.depth();
            queue.queue.push(CHState::new(priority, v));
            proof {
                vstd::multiset::lemma_insert_len(before, CHState { priority, node_id: v });
                assert(queue.deleted() == marks);
                assert(queue.depth() == depths);
                assert(!marks[v as int]);
                assert forall|x: CHState| #[trigger] queue.queue@.contains(x) implies x.priority
                    == priority_from(
                    weights,
                    unmarked(n as nat),
                    shallow(n as nat),
                    graph.out(),
                    graph.inc(),
                    x.node_id,
                ) by {
                    if x != (CHState { priority, node_id: v }) {
                        assert(before.contains(x));
                    }
                }
                let fresh = CHState { priority, node_id: v };
                let done = order@.take(i as int);
                assert forall|x: CHState| #[trigger] before.contains(x) implies x.node_id != v by {
                    let k = choose|k: int| 0 <= k < done.len() && done[k] == x.node_id;
                    assert(order@[k] == done[k]);
                }
                assert forall|x: CHState, y: CHState|
                    queue.queue@.contains(x) && queue.queue@.contains(y) && x.node_id
                        == y.node_id implies x == y by {
                    if x != fresh {
                        assert(before.contains(x));
                    }
                    if y != fresh {
                        assert(before.contains(y));
                    }
                }
                assert forall|x: CHState| queue.queue@.count(x) <= 1 by {
                    if x == fresh {
                        assert(!before.contains(x));
                    }
                }
                assert forall|x: CHState| #[trigger] queue.queue@.contains(x) implies x.node_id < n
                    && !is_deleted(marks, x.node_id) by {
                    if x != fresh {
                        assert(before.contains(x));
                    }
                }
                assert forall|x: CHState| #[trigger]
                    queue.queue@.contains(x) implies order@.take(i + 1).contains(x.node_id) by {
                    if x == fresh {
                        assert(order@.take(i + 1)[i as int] == x.node_id);
                    } else {
                        assert(before.contains(x));
                        let k = choose|k: int| 0 <= k < done.len() && done[k] == x.node_id;
                        assert(order@.take(i + 1)[k] == x.node_id);
                    }
                }
                assert forall|k: int| 0 <= k < i + 1 implies nodes_of(queue.queue@).contains(
                    #[trigger] order@[k],
                ) by {
                    if k < i {
                        let x = choose|x: CHState| #[trigger]
                            before.contains(x) && x.node_id == order@[k];
                        assert(queue.queue@.contains(x) && x.node_id == order@[k]);
                    } else {
                        assert(queue.queue@.contains(fresh) && fresh.node_id == order@[k]);
                    }
                }
            }
            i += 1;
        }
        proof {
            lemma_stored(queue.queue@, queue.deleted(), n as nat);
            assert(queue.held() =~= initial_held(weights, graph.out(), graph.inc())) by {
                assert forall|v: u32| queue.held().contains_key(v) == (v < n) by {
                    if queue.held().contains_key(v) {
                        assert(queue.queue@.contains(
                            CHState { priority: queue.held()[v], node_id: v },
                        ));
                    }
                    if v < n {
                        assert(order@.contains(v));
                        let k = choose|k: int| 0 <= k < order@.len() && order@[k] == v;
                        assert(nodes_of(queue.queue@).contains(order@[k]));
                    }
                }
                assert forall|v: u32| #[trigger] queue.held().contains_key(v)
                    implies queue.held()[v]
                    == initial_held(weights, graph.out(), graph.inc())[v] by {
                    assert(queue.queue@.contains(CHState { priority: queue.held()[v],
                        node_id: v }));
                }
            }
            assert(queue.members() =~= Set::new(|v: u32| v < graph.nodes())) by {
                assert forall|v: u32| queue.members().contains(v) == (v < graph.nodes()) by {
                    if queue.members().contains(v) {
                        let x = choose|x: CHState| #[trigger]
                            queue.queue@.contains(x) && x.node_id == v;
                    }
                    if v < graph.nodes() {
                        assert(order@.contains(v));
                        let k = choose|k: int| 0 <= k < order@.len() && order@[k] == v;
                        assert(nodes_of(queue.queue@).contains(order@[k]));
                    }
                }
            }
        }
        queue
    }

    /// The number of nodes that wait in the queue.
    pub fn len(&self) -> (n: usize)
        ensures
            n == self.entries().len(),
    {
        self.queue.len()
    }

    /// The priority of `v` as things stand.
    pub fn get_priority(&self, graph: &BidirectionalGraph, v: u32) -> (priority: i32)
        requires
            graph.wf(),
            self.wf(graph.nodes()),
            v < graph.nodes(),
        ensures
            priority == self.priority_of(graph, v),
    {
        let deleted_neighbors = self.deleted_neighbors.priority(graph, v) as i128;
        let cost_of_queries = self.cost_of_queries.priority(graph, v) as i128;
        let edge_difference = self.edge_difference.priority(graph, v) as i128;
        let voronoi_region = self.voronoi_region.priority(graph, v) as i128;
        assert(-0x8000_0000 * 0x8000_0000 <= self.weights.deleted_neighbors * deleted_neighbors
            <= 0x8000_0000 * 0x8000_0000) by (nonlinear_arith)
            requires
                -0x8000_0000 <= self.weights.deleted_neighbors <= 0x8000_0000,
                -0x8000_0000 <= deleted_neighbors <= 0x8000_0000,
        ;
        assert(-0x8000_0000 * 0x8000_0000 <= self.weights.cost_of_queries * cost_of_queries
            <= 0x8000_0000 * 0x8000_0000) by (nonlinear_arith)
            requires
                -0x8000_0000 <= self.weights.cost_of_queries <= 0x8000_0000,
                -0x8000_0000 <= cost_of_queries <= 0x8000_0000,
        ;
        assert(-0x8000_0000 * 0x8000_0000 <= self.weights.edge_difference * edge_difference
            <= 0x8000_0000 * 0x8000_0000) by (nonlinear_arith)
            requires
                -0x8000_0000 <= self.weights.edge_difference <= 0x8000_0000,
                -0x8000_0000 <= edge_difference <= 0x8000_0000,
        ;
        assert(-0x8000_0000 * 0x8000_0000 <= self.weights.voronoi_region * voronoi_region
            <= 0x8000_0000 * 0x8000_0000) by (nonlinear_arith)
            requires
                -0x8000_0000 <= self.weights.voronoi_region <= 0x8000_0000,
                -0x8000_0000 <= voronoi_region <= 0x8000_0000,
        ;
        clamp(
            self.weights.deleted_neighbors as i128 * deleted_neighbors
                + self.weights.cost_of_queries as i128 * cost_of_queries
                + self.weights.edge_difference as i128 * edge_difference
                + self.weights.voronoi_region as i128 * voronoi_region,
        )
    }

    /// The edge difference of `v`: the number of shortcuts that its
    /// contraction would insert, less the number of its edges.
    pub fn edge_difference(&self, graph: &BidirectionalGraph, v: u32) -> (difference: i32)
        requires
            graph.wf(),
            v < graph.nodes(),
        ensures
            difference == clamped(
                all_shortcuts(
                    graph.out_edges(),
                    v,
                    graph.inc()[v as int],
                    graph.out()[v as int],
                ).len() - (graph.inc()[v as int].len() + graph.out()[v as int].len()),
            ),
    {
        self.edge_difference.priority(graph, v)
    }

    /// Tells every term that `v` is about to be contracted.
    fn update_priority(&mut self, graph: &BidirectionalGraph, v: u32)
        requires
            graph.wf(),
            v < graph.nodes(),
            old(self).deleted().len() == graph.nodes(),
            old(self).depth().len() == graph.nodes(),
        ensures
            final(self).queue == old(self).queue,
            final(self).weights == old(self).weights,
            final(self).deleted() == old(self).deleted().update(v as int, true),
            final(self).depth() == deepened(old(self).depth(), v as int, graph.out()[v as int]),
            final(self).depth().len() == graph.nodes(),
    {
        self.deleted_neighbors.update(graph, v);
        self.cost_of_queries.update(graph, v);
        self.edge_difference.update(graph, v);
        self.voronoi_region.update(graph, v);
    }

    /// The next node to contract: the top entry whose priority, worked out
    /// again, has not risen above the one that the heap holds for it.
    /// Entries whose priority has risen go back into the heap at their new
    /// priority. The node leaves the queue, and every term is told of it.
    ///
    /// No node waits twice, so there is nothing to discard: the node that
    /// leaves is the one that comes first once every stale priority is
    /// brought up to date, and the entries that were brought up to date on
    /// the way are those that stood before it.
    pub fn lazy_pop(&mut self, graph: &BidirectionalGraph) -> (next: Option<u32>)
        requires
            graph.wf(),
            old(self).wf(graph.nodes()),
        ensures
            final(self).wf(graph.nodes()),
            final(self).weights() == old(self).weights(),
            match next {
                Some(v) => {
                    &&& old(self).members().contains(v)
                    &&& final(self).members() == old(self).members().remove(v)
                    &&& final(self).entries().len() == old(self).entries().len() - 1
                    &&& final(self).deleted() == old(self).deleted().update(v as int, true)
                    &&& final(self).depth() == deepened(
                        old(self).depth(),
                        v as int,
                        graph.out()[v as int],
                    )
                    &&& is_next(old(self).held(), old(self).priorities(graph), v)
                    &&& final(self).held() == after_pop(
                        old(self).held(),
                        old(self).priorities(graph),
                        v,
                    )
                },
                None => {
                    &&& old(self).entries().len() == 0
                    &&& final(self).entries().len() == 0
                    &&& final(self).deleted() == old(self).deleted()
                    &&& final(self).depth() == old(self).depth()
                    &&& final(self).held() == old(self).held()
                    &&& forall|v: u32| !old(self).held().contains_key(v)
                },
            },
    {
        let ghost n = graph.nodes();
        let ghost refreshed: Seq<u32> = Seq::empty();
        let ghost held0 = self.held();
        let ghost size0 = self.entries().len();
        let ghost cur = self.priorities(graph);
        proof {
            lemma_stored(self.queue@, self.deleted_neighbors.deleted(), n);
        }
        loop
            invariant
                graph.wf(),
                n == graph.nodes(),
                self.wf(n),
                old(self).wf(n),
                self.weights == old(self).weights,
                self.deleted_neighbors == old(self).deleted_neighbors,
                self.cost_of_queries == old(self).cost_of_queries,
                self.edge_difference == old(self).edge_difference,
                self.voronoi_region == old(self).voronoi_region,
                held0 == old(self).held(),
                cur == old(self).priorities(graph),
                cur == self.priorities(graph),
                size0 == old(self).entries().len(),
                self.queue@.len() == size0,
                self.held().dom() == held0.dom(),
                refreshed.no_duplicates(),
                refreshed.len() <= n,
                forall|k: int| 0 <= k < refreshed.len() ==> #[trigger] refreshed[k] < n,
                forall|w: u32| #[trigger]
                    held0.contains_key(w) ==> (if refreshed.contains(w) {
                        cur(w) > held0[w] && self.held()[w] == cur(w)
                    } else {
                        self.held()[w] == held0[w]
                    }),
                forall|w: u32, y: u32|
                    #![trigger refreshed.contains(w), held0.contains_key(y)]
                    held0.contains_key(w) && held0.contains_key(y) && refreshed.contains(w) && y
                        != w ==> leaves_before(
                        CHState { priority: held0[w], node_id: w },
                        CHState { priority: self.held()[y], node_id: y },
                    ),
            decreases n - refreshed.len(),
        {
            let ghost before = self.queue@;
            let ghost held_now = self.held();
            proof {
                lemma_stored(before, self.deleted_neighbors.deleted(), n);
            }
            match self.queue.pop() {
                None => {
                    proof {
                        assert forall|v: u32| !held0.contains_key(v) by {
                            if held0.contains_key(v) {
                                assert(held_now.contains_key(v));
                                assert(before.contains(
                                    CHState { priority: held_now[v], node_id: v },
                                ));
                            }
                        }
                        assert(self.held() =~= held0);
                    }
                    return None;
                },
                Some(state) => {
                    let v = state.node_id;
                    proof {
                        assert(before.contains(state));
                        assert(before.count(state) == 1);
                        assert(!self.queue@.contains(state));
                        assert forall|x: CHState| #[trigger] self.queue@.contains(x)
                            implies before.contains(
                            x,
                        ) && x.node_id != v by {
                            assert(before.remove(state).count(x) <= before.count(x));
                        }
                        lemma_stored_remove(before, self.deleted_neighbors.deleted(), n, state);
                        assert(held_now.contains_key(v) && held_now[v] == state.priority);
                        assert forall|y: u32| held_now.contains_key(y) implies leaves_before(
                            state,
                            CHState { priority: held_now[y], node_id: y },
                        ) by {
                            assert(before.contains(CHState { priority: held_now[y], node_id: y }));
                        }
                    }
                    let current = self.get_priority(graph, v);
                    assert(current == cur(v));
                    if current > state.priority {
                        let ghost popped = self.queue@;
                        self.queue.push(CHState::new(current, v));
                        proof {
                            let fresh = CHState { priority: current, node_id: v };
                            assert(!refreshed.contains(v));
                            let longer = refreshed.push(v);
                            assert(longer.no_duplicates());
                            assert forall|k: int| 0 <= k < longer.len() implies #[trigger] longer[k]
                                < n by {
                                if k < refreshed.len() {
                                    assert(longer[k] == refreshed[k]);
                                }
                            }
                            lemma_distinct_bounded(longer, n);
                            assert forall|x: CHState| self.queue@.count(x) <= 1 by {
                                if x == fresh {
                                    assert(!popped.contains(x));
                                } else {
                                    assert(popped.count(x) <= before.count(x));
                                }
                            }
                            assert forall|x: CHState| #[trigger]
                                self.queue@.contains(x) implies x.node_id < n && !is_deleted(
                                self.deleted_neighbors.deleted(),
                                x.node_id,
                            ) by {
                                if x != fresh {
                                    assert(popped.contains(x));
                                }
                            }
                            assert forall|x: CHState, y: CHState|
                                self.queue@.contains(x) && self.queue@.contains(y) && x.node_id
                                    == y.node_id implies x == y by {
                                if x != fresh && y != fresh {
                                    assert(popped.contains(x) && popped.contains(y));
                                } else if x != fresh {
                                    assert(popped.contains(x));
                                } else if y != fresh {
                                    assert(popped.contains(y));
                                }
                            }
                            assert(self.queue@ == popped.insert(fresh));
                            assert(entries_distinct(
                                self.queue@,
                                self.deleted_neighbors.deleted(),
                                n,
                            ));
                            assert(entries_distinct(popped, self.deleted_neighbors.deleted(), n));
                            lemma_stored_insert(
                                popped,
                                self.deleted_neighbors.deleted(),
                                n,
                                fresh,
                            );
                            assert(self.held() =~= held_now.insert(v, current));
                            assert(self.held().dom() =~= held0.dom());
                            assert forall|w: u32| #[trigger] held0.contains_key(w) implies (
                            if longer.contains(w) {
                                cur(w) > held0[w] && self.held()[w] == cur(w)
                            } else {
                                self.held()[w] == held0[w]
                            }) by {
                                if w == v {
                                    assert(longer[refreshed.len() as int] == v);
                                } else {
                                    if longer.contains(w) {
                                        let k = choose|k: int|
                                            0 <= k < longer.len() && longer[k] == w;
                                        assert(refreshed[k] == w);
                                    }
                                    if refreshed.contains(w) {
                                        let k = choose|k: int|
                                            0 <= k < refreshed.len() && refreshed[k] == w;
                                        assert(longer[k] == w);
                                    }
                                }
                            }
                            assert forall|w: u32, y: u32|
                                #![trigger longer.contains(w), held0.contains_key(y)]
                                held0.contains_key(w) && held0.contains_key(y) && longer.contains(
                                    w,
                                ) && y != w implies leaves_before(
                                CHState { priority: held0[w], node_id: w },
                                CHState { priority: self.held()[y], node_id: y },
                            ) by {
                                if w == v {
                                    assert(held0[v] == state.priority);
                                    assert(held_now.contains_key(y));
                                } else {
                                    let k = choose|k: int| 0 <= k < longer.len() && longer[k] == w;
                                    assert(refreshed[k] == w);
                                    assert(refreshed.contains(w));
                                    if y == v {
                                        assert(leaves_before(
                                            CHState { priority: held0[w], node_id: w },
                                            CHState { priority: held_now[v], node_id: v },
                                        ));
                                    }
                                }
                            }
                            refreshed = longer;
                        }
                    } else {
                        let ghost popped = self.queue@;
                        let ghost held_popped = self.held();
                        self.update_priority(graph, v);
                        proof {
                            assert(self.held() == held_popped);
                            assert(held_popped =~= held_now.remove(v));
                            assert(self.members() =~= old(self).members().remove(v)) by {
                                lemma_stored(
                                    old(self).queue@,
                                    old(self).deleted_neighbors.deleted(),
                                    n,
                                );
                                lemma_stored(popped, old(self).deleted_neighbors.deleted(), n);
                                assert forall|w: u32| self.members().contains(w)
                                    == old(self).members().remove(v).contains(w) by {
                                    assert(self.members().contains(w) == held_popped.contains_key(
                                        w,
                                    ));
                                    assert(old(self).members().contains(w) == held0.contains_key(
                                        w,
                                    ));
                                }
                            }
                            assert(old(self).members().contains(v)) by {
                                lemma_stored(
                                    old(self).queue@,
                                    old(self).deleted_neighbors.deleted(),
                                    n,
                                );
                                assert(held0.contains_key(v));
                            }
                            // the node that leaves comes first among the refreshed entries
                            assert(effective(held0, cur, v) == state);
                            assert forall|y: u32| held0.contains_key(y) implies leaves_before(
                                effective(held0, cur, v),
                                effective(held0, cur, y),
                            ) by {
                                assert(held_now.contains_key(y));
                                assert(leaves_before(
                                    state,
                                    CHState { priority: held_now[y], node_id: y },
                                ));
                            }
                            assert(self.held() =~= after_pop(held0, cur, v)) by {
                                assert forall|w: u32| #[trigger]
                                    after_pop(held0, cur, v).contains_key(w) implies self.held()[w]
                                    == after_pop(held0, cur, v)[w] by {
                                    assert(held_now.contains_key(w));
                                    assert(leaves_before(
                                        state,
                                        CHState { priority: held_now[w], node_id: w },
                                    ));
                                    if refreshed.contains(w) {
                                        assert(held0.contains_key(v));
                                        assert(leaves_before(
                                            CHState { priority: held0[w], node_id: w },
                                            CHState { priority: held_now[v], node_id: v },
                                        ));
                                    }
                                }
                            }
                            assert forall|x: CHState| #[trigger]
                                self.queue@.contains(x) implies x.node_id < n && !is_deleted(
                                self.deleted_neighbors.deleted(),
                                x.node_id,
                            ) by {
                                assert(before.contains(x));
                            }
                        }
                        return Some(v);
                    }
                },
            }
        }
    }
}

/// The priority that the queue holds for each node that waits.
pub open spec fn stored(entries: Multiset<CHState>) -> Map<u32, i32> {
    Map::new(
        |v: u32| nodes_of(entries).contains(v),
        |v: u32| (choose|x: CHState| #[trigger] entries.contains(x) && x.node_id == v).priority,
    )
}

/// The entry of `w` once its priority is brought up to date: at the
/// priority that is held for it or at the one that it has now, whichever
/// is higher.
pub open spec fn effective(held: Map<u32, i32>, cur: spec_fn(u32) -> i32, w: u32) -> CHState {
    CHState {
        priority: if cur(w) > held[w] {
            cur(w)
        } else {
            held[w]
        },
        node_id: w,
    }
}

/// `v` waits, and once every priority is brought up to date no node comes
/// before it.
pub open spec fn is_next(held: Map<u32, i32>, cur: spec_fn(u32) -> i32, v: u32) -> bool {
    &&& held.contains_key(v)
    &&& forall|y: u32| #[trigger]
        held.contains_key(y) ==> leaves_before(effective(held, cur, v), effective(held, cur, y))
}

/// What the queue holds after `v` has left: the nodes but `v`, each at the
/// priority held before, but for those whose priority had risen and that
/// stood before `v`: they are at their priority as it is now.
pub open spec fn after_pop(held: Map<u32, i32>, cur: spec_fn(u32) -> i32, v: u32) -> Map<
    u32,
    i32,
> {
    Map::new(
        |w: u32| held.contains_key(w) && w != v,
        |w: u32|
            if cur(w) > held[w] && leaves_before(
                CHState { priority: held[w], node_id: w },
                effective(held, cur, v),
            ) {
                cur(w)
            } else {
                held[w]
            },
    )
}

/// An entry is in the queue if and only if its node waits at its priority.
pub proof fn lemma_stored(entries: Multiset<CHState>, deleted: Seq<bool>, n: nat)
    requires
        entries_distinct(entries, deleted, n),
    ensures
        forall|x: CHState|
            entries.contains(x) <==> #[trigger] stored(entries).contains_key(x.node_id) && stored(
                entries,
            )[x.node_id] == x.priority,
        forall|v: u32| stored(entries).contains_key(v) <==> nodes_of(entries).contains(v),
        forall|v: u32| #[trigger]
            stored(entries).contains_key(v) ==> entries.contains(
                CHState { priority: stored(entries)[v], node_id: v },
            ),
{
    assert forall|x: CHState|
        entries.contains(x) <==> #[trigger] stored(entries).contains_key(x.node_id) && stored(
            entries,
        )[x.node_id] == x.priority by {
        if entries.contains(x) {
            assert(nodes_of(entries).contains(x.node_id));
            let y = choose|y: CHState| #[trigger] entries.contains(y) && y.node_id == x.node_id;
            assert(y == x);
        }
        if stored(entries).contains_key(x.node_id) && stored(entries)[x.node_id] == x.priority {
            let y = choose|y: CHState| #[trigger] entries.contains(y) && y.node_id == x.node_id;
            assert(y == x);
        }
    }
    assert forall|v: u32| #[trigger] stored(entries).contains_key(v) implies entries.contains(
        CHState { priority: stored(entries)[v], node_id: v },
    ) by {
        let y = choose|y: CHState| #[trigger] entries.contains(y) && y.node_id == v;
        assert(y == (CHState { priority: stored(entries)[v], node_id: v }));
    }
}

/// Taking an entry out takes its node out of what is held.
pub proof fn lemma_stored_remove(entries: Multiset<CHState>, deleted: Seq<bool>, n: nat, x: CHState)
    requires
        entries_distinct(entries, deleted, n),
        entries.contains(x),
    ensures
        entries_distinct(entries.remove(x), deleted, n),
        stored(entries.remove(x)) == stored(entries).remove(x.node_id),
        stored(entries).contains_key(x.node_id),
        stored(entries)[x.node_id] == x.priority,
{
    let rest = entries.remove(x);
    assert forall|y: CHState| #[trigger] rest.contains(y) implies entries.contains(y) && y != x by {
        assert(rest.count(y) <= entries.count(y));
        if y == x {
            assert(entries.count(x) == 1);
        }
    }
    assert forall|y: CHState| entries.contains(y) && y != x implies rest.contains(y) by {
        assert(rest.count(y) == entries.count(y));
    }
    assert forall|y: CHState| rest.count(y) <= 1 by {
        assert(rest.count(y) <= entries.count(y));
    }
    lemma_stored(entries, deleted, n);
    lemma_stored(rest, deleted, n);
    assert forall|v: u32| stored(rest).contains_key(v) == stored(entries).remove(
        x.node_id,
    ).contains_key(v) by {
        if stored(rest).contains_key(v) {
            let y = CHState { priority: stored(rest)[v], node_id: v };
            assert(rest.contains(y));
        }
        if stored(entries).remove(x.node_id).contains_key(v) {
            let y = CHState { priority: stored(entries)[v], node_id: v };
            assert(entries.contains(y));
            assert(rest.contains(y));
        }
    }
    assert forall|v: u32| #[trigger] stored(rest).contains_key(v) implies stored(rest)[v]
        == stored(entries).remove(x.node_id)[v] by {
        let y = CHState { priority: stored(rest)[v], node_id: v };
        assert(rest.contains(y));
        assert(entries.contains(y));
    }
    assert(stored(rest) =~= stored(entries).remove(x.node_id));
}

/// Putting in an entry for a node that does not wait adds the node to what
/// is held.
pub proof fn lemma_stored_insert(entries: Multiset<CHState>, deleted: Seq<bool>, n: nat, x: CHState)
    requires
        entries_distinct(entries, deleted, n),
        entries_distinct(entries.insert(x), deleted, n),
        !stored(entries).contains_key(x.node_id),
    ensures
        stored(entries.insert(x)) == stored(entries).insert(x.node_id, x.priority),
{
    let more = entries.insert(x);
    lemma_stored(entries, deleted, n);
    lemma_stored(more, deleted, n);
    assert forall|v: u32| stored(more).contains_key(v) == stored(entries).insert(
        x.node_id,
        x.priority,
    ).contains_key(v) by {
        if stored(more).contains_key(v) {
            let y = CHState { priority: stored(more)[v], node_id: v };
            assert(more.contains(y));
            if y != x {
                assert(entries.contains(y));
            }
        }
        if stored(entries).contains_key(v) {
            let y = CHState { priority: stored(entries)[v], node_id: v };
            assert(entries.contains(y));
            assert(more.contains(y));
        }
        if v == x.node_id {
            assert(more.contains(x));
        }
    }
    assert forall|v: u32| #[trigger] stored(more).contains_key(v) implies stored(more)[v]
        == stored(entries).insert(x.node_id, x.priority)[v] by {
        let y = CHState { priority: stored(more)[v], node_id: v };
        assert(more.contains(y));
        if v == x.node_id {
            assert(more.contains(x));
        } else {
            assert(entries.contains(y));
        }
    }
    assert(stored(more) =~= stored(entries).insert(x.node_id, x.priority));
}

} // verus!
