//! The plain search from one node to another over a frozen graph.

use crate::ch_dijkstra::expand;
use crate::fast_graph::FastGraph;
use crate::graph::Edge;
use crate::graph::Route;
use crate::paths::is_distance;
use crate::paths::is_path;
use crate::paths::path_cost;
use crate::search::Search;
use crate::trail::nodes_along;
use crate::trail::turned;
use crate::trail::Trail;
use vstd::prelude::*;

verus! {

/// `cost` is the cost of the path `p` from `from` to `to`, and `before`
/// names for each node of `p` but the first the node that comes before it.
pub open spec fn traces(
    es: Set<Edge>,
    from: u32,
    to: u32,
    cost: u32,
    before: Seq<Option<u32>>,
    p: Seq<Edge>,
) -> bool {
    &&& is_path(es, p, from, to)
    &&& path_cost(p) == cost
    &&& forall|i: int|
        0 <= i < p.len() ==> (#[trigger] p[i]).target < before.len() && before[p[i].target as int]
            == Some(p[i].source)
}

/// The cost of a cheapest path from `from_node_id` to `to_node_id`, or
/// `u32::MAX` if there is no path at a cost below `u32::MAX`; and for each
/// node that the search has reached, the node that it was reached from.
/// The search ends as soon as the target is settled: from the target back,
/// the nodes that were reached from lead along a cheapest path.
pub fn dijkstra(graph: &FastGraph, from_node_id: u32, to_node_id: u32) -> (found: (
    Vec<Option<u32>>,
    u32,
))
    requires
        graph.wf(),
        from_node_id < graph.nodes(),
    ensures
        found.0@.len() == graph.nodes(),
        found.1 < u32::MAX ==> is_distance(
            graph.edge_set(),
            from_node_id,
            to_node_id,
            found.1 as nat,
        ) && exists|p: Seq<Edge>| #[trigger]
            traces(graph.edge_set(), from_node_id, to_node_id, found.1, found.0@, p),
        found.1 == u32::MAX ==> forall|p: Seq<Edge>| #[trigger]
            is_path(graph.edge_set(), p, from_node_id, to_node_id) ==> path_cost(p)
                >= u32::MAX,
{
    let n = graph.node_count();
    let ghost es = graph.edge_set();
    let mut search = Search::start(from_node_id, u32::MAX - 1, Ghost(es), Ghost(n as nat));
    let mut trail = Trail::new();
    proof {
        search.lemma_inv();
    }
    let mut reached = false;
    while !search.is_exhausted() && !reached
        invariant
            graph.wf(),
            n == graph.nodes(),
            es == graph.edge_set(),
            search.inv(),
            search.complete(),
            search.edges() == es,
            search.nodes() == n,
            search.source() == from_node_id,
            search.limit() == u32::MAX - 1,
            search.order().len() <= n,
            trail.follows(&search),
            reached == search.settled().contains(to_node_id),
        decreases n - search.order().len(), search.pending().len(),
            (if reached { 0int } else { 1int }),
    {
        match expand(graph, &mut search, &mut trail) {
            Some((node, cost)) => {
                if node == to_node_id {
                    reached = true;
                }
            },
            None => {},
        }
        proof {
            search.lemma_inv();
        }
    }
    proof {
        graph.lemma_wf();
    }
    let mut before: Vec<Option<u32>> = Vec::with_capacity(n);
    let mut v: usize = 0;
    while v < n
        invariant
            0 <= v <= n,
            n <= u32::MAX + 1,
            before@.len() == v,
            forall|w: int|
                0 <= w < v ==> #[trigger] before@[w] == (if trail.steps().contains_key(w as u32) {
                    Some(trail.steps()[w as u32])
                } else {
                    None
                }),
        decreases n - v,
    {
        before.push(trail.step_before(v as u32));
        v += 1;
    }
    match search.cost_of(to_node_id) {
        Some(cost) => {
            let (_, Ghost(p)) = trail.back_to_source(&search, to_node_id);
            proof {
                search.lemma_inv();
                if !search.settled().contains(to_node_id) {
                    search.lemma_exhausted_settled(to_node_id);
                }
                search.lemma_settled_distance(to_node_id);
                assert forall|i: int| 0 <= i < p.len()
                    implies (#[trigger] p[i]).target < before@.len()
                    && before@[p[i].target as int] == Some(p[i].source) by {
                    assert(trail.steps().contains_key(p[i].target));
                    assert(search.costs().contains_key(p[i].target));
                }
                assert(traces(es, from_node_id, to_node_id, cost, before@, p));
            }
            (before, cost)
        },
        None => {
            proof {
                search.lemma_inv();
                assert(!search.settled().contains(to_node_id));
                assert(search.pending().len() == 0);
                assert forall|p: Seq<Edge>| #[trigger]
                    is_path(es, p, from_node_id, to_node_id) implies path_cost(p) >= u32::MAX by {
                    if path_cost(p) <= u32::MAX - 1 {
                        search.lemma_exhausted_complete(p, to_node_id);
                        search.lemma_settled_distance(to_node_id);
                    }
                }
            }
            (before, u32::MAX)
        },
    }
}

/// A cheapest path from `start` to `end` with its cost and the nodes that
/// it passes, if there is a path at a cost below `u32::MAX`.
pub fn get_route(graph: &FastGraph, start: u32, end: u32) -> (found: Option<Route>)
    requires
        graph.wf(),
        start < graph.nodes(),
    ensures
        match found {
            Some(route) => route.source == start && route.target == end && route.cost is Some
                && is_distance(graph.edge_set(), start, end, route.cost->0 as nat)
                && exists|p: Seq<Edge>| #[trigger]
                is_path(graph.edge_set(), p, start, end) && path_cost(p) == route.cost->0
                    && route.route@ == nodes_along(start, p),
            None => forall|p: Seq<Edge>| #[trigger]
                is_path(graph.edge_set(), p, start, end) ==> path_cost(p) >= u32::MAX,
        },
{
    let n = graph.node_count();
    let ghost es = graph.edge_set();
    let mut search = Search::start(start, u32::MAX - 1, Ghost(es), Ghost(n as nat));
    let mut trail = Trail::new();
    proof {
        search.lemma_inv();
    }
    let mut reached = false;
    while !search.is_exhausted() && !reached
        invariant
            graph.wf(),
            n == graph.nodes(),
            es == graph.edge_set(),
            search.inv(),
            search.complete(),
            search.edges() == es,
            search.nodes() == n,
            search.source() == start,
            search.limit() == u32::MAX - 1,
            search.order().len() <= n,
            trail.follows(&search),
            reached == search.settled().contains(end),
        decreases n - search.order().len(), search.pending().len(), (if reached {
                0int
            } else {
                1int
            }),
    {
        match expand(graph, &mut search, &mut trail) {
            Some((node, cost)) => {
                if node == end {
                    reached = true;
                }
            },
            None => {},
        }
        proof {
            search.lemma_inv();
        }
    }
    match search.cost_of(end) {
        Some(cost) => {
            let (back, Ghost(p)) = trail.back_to_source(&search, end);
            let mut route: Vec<u32> = Vec::new();
            let mut i: usize = back.len();
            while i > 0
                invariant
                    0 <= i <= back@.len(),
                    route@ == turned(back@).take(back@.len() - i),
                decreases i,
            {
                i -= 1;
                route.push(back[i]);
                assert(route@ =~= turned(back@).take(back@.len() - i));
            }
            proof {
                assert(turned(back@).take(back@.len() as int) =~= turned(back@));
                search.lemma_inv();
                if !search.settled().contains(end) {
                    search.lemma_exhausted_settled(end);
                }
                search.lemma_settled_distance(end);
                assert(is_path(es, p, start, end) && path_cost(p) == cost && route@
                    == nodes_along(start, p));
            }
            Some(Route { source: start, target: end, cost: Some(cost), route })
        },
        None => {
            proof {
                search.lemma_inv();
                assert(!search.settled().contains(end));
                assert(search.pending().len() == 0);
                assert forall|p: Seq<Edge>| #[trigger] is_path(es, p, start, end) implies path_cost(
                    p,
                ) >= u32::MAX by {
                    if path_cost(p) <= u32::MAX - 1 {
                        search.lemma_exhausted_complete(p, end);
                        search.lemma_settled_distance(end);
                    }
                }
            }
            None
        },
    }
}

} // verus!
