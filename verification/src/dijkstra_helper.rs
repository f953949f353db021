//! The witness search: a bounded single-source search that keeps clear of one
//! node.

use ahash::RandomState;
use crate::bidirectional_graph::BidirectionalGraph;
use crate::graph::Edge;
use crate::paths::avoiding;
use crate::paths::inverted;
use crate::paths::is_distance;
use crate::paths::is_path;
use crate::paths::path_cost;
use crate::search::Search;
use std::collections::HashMap;
use vstd::prelude::*;

verus! {

/// The largest cost that a search with the ceiling `max_cost` records: the
/// ceiling itself, but never `u32::MAX`, which stands for "no path".
pub open spec fn cost_limit(max_cost: u32) -> u32 {
    if max_cost == u32::MAX {
        (u32::MAX - 1) as u32
    } else {
        max_cost
    }
}

/// The edges that a search may walk: all of `es`, or those that do not end
/// in the node to keep clear of.
pub open spec fn allowed(es: Set<Edge>, without: Option<u32>) -> Set<Edge> {
    match without {
        Some(node) => avoiding(es, node),
        None => es,
    }
}

/// The edges that a search over `store` walks: backward, every incoming
/// edge against its direction; forward, the outgoing edges that are allowed.
pub open spec fn walked(store: BidirectionalGraph, backward: bool, without: Option<u32>) -> Set<
    Edge,
> {
    if backward {
        inverted(store.in_edges())
    } else {
        allowed(store.out_edges(), without)
    }
}

/// `e` as a search walks it: against its direction if the search runs
/// backward.
pub open spec fn as_walked(e: Edge, backward: bool) -> Edge {
    if backward {
        Edge { source: e.target, target: e.source, cost: e.cost }
    } else {
        e
    }
}

/// `costs` holds, for exactly the nodes that a path of `es` from `source`
/// reaches at a cost of at most `limit`, the cost of a cheapest such path.
pub open spec fn is_cost_table(
    es: Set<Edge>,
    source: u32,
    limit: u32,
    costs: Map<u32, u32>,
) -> bool {
    &&& forall|w: u32| #[trigger]
        costs.contains_key(w) ==> costs[w] <= limit && is_distance(
            es,
            source,
            w,
            costs[w] as nat,
        )
    &&& forall|w: u32, p: Seq<Edge>| #[trigger]
        is_path(es, p, source, w) && path_cost(p) <= limit ==> costs.contains_key(w)
}

/// Searches over the outgoing edges of a graph store.
pub struct DijkstraHelper<'a> {
    graph: &'a BidirectionalGraph,
}

impl<'a> DijkstraHelper<'a> {
    /// The store that the helper searches.
    pub closed spec fn store(&self) -> BidirectionalGraph {
        *self.graph
    }

    pub fn new(graph: &'a BidirectionalGraph) -> (helper: Self)
        ensures
            helper.store() == *graph,
    {
        Self { graph }
    }

    /// Settles nodes from `search` until its queue is empty or `stop` has
    /// been settled.
    fn run(
        &self,
        search: &mut Search,
        backward: bool,
        without: Option<u32>,
        stop: Option<u32>,
    ) -> (found: Option<u32>)
        requires
            self.store().wf(),
            old(search).inv(),
            old(search).complete(),
            old(search).edges() == walked(self.store(), backward, without),
            old(search).nodes() == self.store().nodes(),
            stop is Some ==> !old(search).settled().contains(stop->0),
        ensures
            final(search).inv(),
            final(search).complete(),
            final(search).edges() == old(search).edges(),
            final(search).source() == old(search).source(),
            final(search).limit() == old(search).limit(),
            match found {
                Some(cost) => stop is Some && final(search).settled().contains(stop->0)
                    && final(search).costs()[stop->0] == cost,
                None => final(search).pending().len() == 0 && (stop is Some
                    ==> !final(search).settled().contains(stop->0)),
            },
    {
        let ghost es = search.edges();
        let ghost n = search.nodes();
        proof {
            search.lemma_inv();
        }
        while !search.is_exhausted()
            invariant
                self.store().wf(),
                search.inv(),
                search.complete(),
                search.edges() == es,
                es == old(search).edges(),
                es == walked(self.store(), backward, without),
                search.nodes() == n,
                n == self.store().nodes(),
                search.source() == old(search).source(),
                search.limit() == old(search).limit(),
                search.order().len() <= n,
                stop is Some ==> !search.settled().contains(stop->0),
            decreases n - search.order().len(), search.pending().len(),
        {
            let ghost relaxed0 = search.relaxed();
            let ghost settled0 = search.settled();
            let ghost order0 = search.order();
            match search.settle() {
                None => {},
                Some((node, cost)) => {
                    proof {
                        search.lemma_inv();
                    }
                    let row = if backward {
                        &self.graph.incoming_edges[node as usize]
                    } else {
                        &self.graph.outgoing_edges[node as usize]
                    };
                    let mut i: usize = 0;
                    while i < row.len()
                        invariant
                            0 <= i <= row@.len(),
                            self.store().wf(),
                            node < n,
                            n == self.store().nodes(),
                            row@ == (if backward {
                                self.store().inc()[node as int]
                            } else {
                                self.store().out()[node as int]
                            }),
                            search.inv(),
                            search.edges() == es,
                            es == walked(self.store(), backward, without),
                            search.nodes() == n,
                            search.source() == old(search).source(),
                            search.limit() == old(search).limit(),
                            search.settled() == settled0.insert(node),
                            search.order() == order0.push(node),
                            search.order().len() <= n,
                            search.costs().contains_key(node),
                            search.costs()[node] == cost,
                            forall|e: Edge| relaxed0.contains(e) ==> search.relaxed().contains(e),
                            forall|j: int|
                                0 <= j < i && (backward || without != Some(
                                    (#[trigger] row@[j]).target,
                                )) ==> search.relaxed().contains(as_walked(row@[j], backward)),
                        decreases row@.len() - i,
                    {
                        let edge = row[i];
                        if backward {
                            proof {
                                assert(self.store().inc()[node as int][i as int] == edge);
                                assert(edge.target == node && edge.source < n);
                                assert(self.store().inc()[node as int].contains(edge));
                                assert(self.store().in_edges().contains(edge));
                            }
                            search.relax(node, cost, edge.source, edge.cost);
                        } else {
                            proof {
                                assert(self.store().out()[node as int][i as int] == edge);
                                assert(edge.source == node && edge.target < n);
                                assert(self.store().out()[node as int].contains(edge));
                            }
                            let banned = match without {
                                Some(node) => edge.target == node,
                                None => false,
                            };
                            if !banned {
                                search.relax(node, cost, edge.target, edge.cost);
                            }
                        }
                        i += 1;
                    }
                    proof {
                        assert forall|e: Edge| #[trigger]
                            es.contains(e) && search.settled().contains(
                                e.source,
                            ) implies search.relaxed().contains(e) by {
                            if e.source == node {
                                if backward {
                                    let back = Edge {
                                        source: e.target,
                                        target: e.source,
                                        cost: e.cost,
                                    };
                                    assert(self.store().in_edges().contains(back));
                                    let j = choose|j: int| 0 <= j < row@.len() && row@[j] == back;
                                    assert(as_walked(row@[j], backward) == e);
                                } else {
                                    let j = choose|j: int| 0 <= j < row@.len() && row@[j] == e;
                                    assert(without != Some(row@[j].target));
                                }
                            } else {
                                assert(relaxed0.contains(e));
                            }
                        }
                    }
                    if stop == Some(node) {
                        return Some(cost);
                    }
                },
            }
        }
        None
    }

    /// The cost of the cheapest path from `source` to each node that can be
    /// reached at a cost of at most `max_cost` over edges that do not end in
    /// `without`. Nodes that cannot are left out; `source` is at cost zero.
    pub fn single_source_cost_without(&self, source: u32, without: u32, max_cost: u32) -> (costs:
        HashMap<u32, u32, RandomState>)
        requires
            self.store().wf(),
            source < self.store().nodes(),
        ensures
            is_cost_table(
                avoiding(self.store().out_edges(), without),
                source,
                cost_limit(max_cost),
                costs@,
            ),
    {
        let limit = if max_cost == u32::MAX {
            u32::MAX - 1
        } else {
            max_cost
        };
        let ghost es = avoiding(self.graph.out_edges(), without);
        let mut search = Search::start(source, limit, Ghost(es), Ghost(self.graph.nodes()));
        self.run(&mut search, false, Some(without), None);
        proof {
            assert forall|w: u32| #[trigger] search.costs().contains_key(w)
                implies search.costs()[w]
                <= limit && is_distance(es, source, w, search.costs()[w] as nat) by {
                search.lemma_exhausted_settled(w);
                search.lemma_settled_distance(w);
                search.lemma_inv();
            }
            assert forall|w: u32, p: Seq<Edge>| #[trigger]
                is_path(es, p, source, w) && path_cost(p) <= limit
                    implies search.costs().contains_key(
                w,
            ) by {
                search.lemma_exhausted_complete(p, w);
                search.lemma_settled_distance(w);
            }
        }
        search.into_costs()
    }

    /// The cost of the cheapest path from `source` to every node that can be
    /// reached at a cost below `u32::MAX`.
    pub fn single_source(&self, source: u32) -> (costs: HashMap<u32, u32, RandomState>)
        requires
            self.store().wf(),
            source < self.store().nodes(),
        ensures
            is_cost_table(self.store().out_edges(), source, (u32::MAX - 1) as u32, costs@),
    {
        let ghost es = self.graph.out_edges();
        let mut search = Search::start(source, u32::MAX - 1, Ghost(es), Ghost(self.graph.nodes()));
        self.run(&mut search, false, None, None);
        proof {
            assert forall|w: u32| #[trigger] search.costs().contains_key(w)
                implies search.costs()[w]
                <= u32::MAX - 1 && is_distance(es, source, w, search.costs()[w] as nat) by {
                search.lemma_exhausted_settled(w);
                search.lemma_settled_distance(w);
                search.lemma_inv();
            }
            assert forall|w: u32, p: Seq<Edge>| #[trigger]
                is_path(es, p, source, w) && path_cost(p) <= u32::MAX
                    - 1 implies search.costs().contains_key(w) by {
                search.lemma_exhausted_complete(p, w);
                search.lemma_settled_distance(w);
            }
        }
        search.into_costs()
    }

    /// The cost of the cheapest path to `target` from every node from which
    /// it can be reached at a cost below `u32::MAX`: the costs of the
    /// cheapest paths from `target` over the incoming edges, each walked
    /// against its direction.
    pub fn single_target(&self, target: u32) -> (costs: HashMap<u32, u32, RandomState>)
        requires
            self.store().wf(),
            target < self.store().nodes(),
        ensures
            is_cost_table(inverted(self.store().in_edges()), target, (u32::MAX - 1) as u32, costs@),
    {
        let ghost es = inverted(self.graph.in_edges());
        let mut search = Search::start(target, u32::MAX - 1, Ghost(es), Ghost(self.graph.nodes()));
        self.run(&mut search, true, None, None);
        proof {
            assert forall|w: u32| #[trigger] search.costs().contains_key(w)
                implies search.costs()[w]
                <= u32::MAX - 1 && is_distance(es, target, w, search.costs()[w] as nat) by {
                search.lemma_exhausted_settled(w);
                search.lemma_settled_distance(w);
                search.lemma_inv();
            }
            assert forall|w: u32, p: Seq<Edge>| #[trigger]
                is_path(es, p, target, w) && path_cost(p) <= u32::MAX
                    - 1 implies search.costs().contains_key(w) by {
                search.lemma_exhausted_complete(p, w);
                search.lemma_settled_distance(w);
            }
        }
        search.into_costs()
    }

    /// The cost of the cheapest path from `source` to `target`, if there is
    /// a path at a cost below `u32::MAX`.
    pub fn single_pair(&self, source: u32, target: u32) -> (cost: Option<u32>)
        requires
            self.store().wf(),
            source < self.store().nodes(),
        ensures
            match cost {
                Some(c) => c < u32::MAX && is_distance(
                    self.store().out_edges(),
                    source,
                    target,
                    c as nat,
                ),
                None => forall|p: Seq<Edge>| #[trigger]
                    is_path(self.store().out_edges(), p, source, target) ==> path_cost(p)
                        >= u32::MAX,
            },
    {
        let ghost es = self.graph.out_edges();
        let mut search = Search::start(source, u32::MAX - 1, Ghost(es), Ghost(self.graph.nodes()));
        let found = self.run(&mut search, false, None, Some(target));
        proof {
            match found {
                Some(c) => {
                    search.lemma_settled_distance(target);
                    search.lemma_inv();
                },
                None => {
                    assert forall|p: Seq<Edge>| #[trigger]
                        is_path(es, p, source, target) implies path_cost(p) >= u32::MAX by {
                        if path_cost(p) <= u32::MAX - 1 {
                            search.lemma_exhausted_complete(p, target);
                        }
                    }
                },
            }
        }
        found
    }

    /// The cost of the cheapest path from `source` to `target` over edges
    /// that do not end in `without`, if there is one at a cost of at most
    /// `max_cost`. The search ends as soon as `target` is settled.
    pub fn single_pair_with_max_cost_without_node(
        &self,
        source: u32,
        target: u32,
        without: u32,
        max_cost: u32,
    ) -> (cost: Option<u32>)
        requires
            self.store().wf(),
            source < self.store().nodes(),
        ensures
            match cost {
                Some(c) => c <= cost_limit(max_cost) && is_distance(
                    avoiding(self.store().out_edges(), without),
                    source,
                    target,
                    c as nat,
                ),
                None => forall|p: Seq<Edge>| #[trigger]
                    is_path(avoiding(self.store().out_edges(), without), p, source, target)
                        ==> path_cost(p) > cost_limit(max_cost),
            },
    {
        let limit = if max_cost == u32::MAX {
            u32::MAX - 1
        } else {
            max_cost
        };
        let ghost es = avoiding(self.graph.out_edges(), without);
        let mut search = Search::start(source, limit, Ghost(es), Ghost(self.graph.nodes()));
        let found = self.run(&mut search, false, Some(without), Some(target));
        proof {
            match found {
                Some(c) => {
                    search.lemma_settled_distance(target);
                    search.lemma_inv();
                },
                None => {
                    assert forall|p: Seq<Edge>| #[trigger]
                        is_path(es, p, source, target) implies path_cost(p) > limit by {
                        if path_cost(p) <= limit {
                            search.lemma_exhausted_complete(p, target);
                        }
                    }
                },
            }
        }
        found
    }
}

} // verus!
