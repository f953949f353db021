//! The way back: for each node that a search has reached, the node that it
//! was reached from, so that the nodes of a cheapest path can be named.

use ahash::RandomState;
use crate::graph::Edge;
use crate::hashing::map_get;
use crate::hashing::map_insert;
use crate::hashing::map_with_hasher;
use crate::hashing::no_costs;
use crate::paths::is_path;
use crate::paths::lemma_empty_path;
use crate::paths::lemma_path_concat;
use crate::paths::lemma_single_edge;
use crate::paths::path_cost;
use crate::search::Search;
use std::collections::HashMap;
use vstd::prelude::*;

verus! {

/// The nodes that the path `p` from `s` passes, from `s` on.
pub open spec fn nodes_along(s: u32, p: Seq<Edge>) -> Seq<u32> {
    Seq::new(
        p.len() + 1,
        |i: int|
            if i == 0 {
                s
            } else {
                p[i - 1].target
            },
    )
}

/// `nodes` from the last to the first.
pub open spec fn turned(nodes: Seq<u32>) -> Seq<u32> {
    Seq::new(nodes.len(), |i: int| nodes[nodes.len() - 1 - i])
}

/// Where `x` stands in `order`.
pub open spec fn position(order: Seq<u32>, x: u32) -> int {
    choose|i: int| 0 <= i < order.len() && order[i] == x
}

/// The edge that a search walked from `from` to `to`.
pub open spec fn step(costs: Map<u32, u32>, from: u32, to: u32) -> Edge {
    Edge { source: from, target: to, cost: (costs[to] - costs[from]) as u32 }
}

/// `previous` names, for every node with a cost but the source, a settled
/// node from which an edge leads to it at the difference of the two costs;
/// and a settled node was reached from one that was settled before it.
pub open spec fn trail_inv(
    es: Set<Edge>,
    source: u32,
    costs: Map<u32, u32>,
    settled: Set<u32>,
    order: Seq<u32>,
    previous: Map<u32, u32>,
) -> bool {
    &&& !previous.contains_key(source)
    &&& forall|w: u32| #[trigger] costs.contains_key(w) && w != source ==> previous.contains_key(w)
    &&& forall|w: u32| #[trigger]
        previous.contains_key(w) ==> costs.contains_key(w) && settled.contains(previous[w])
            && costs.contains_key(previous[w]) && costs[previous[w]] <= costs[w] && es.contains(
            step(costs, previous[w], w),
        ) && (settled.contains(w) ==> position(order, previous[w]) < position(order, w))
}

/// In a sequence without duplicates an entry stands where it is found.
pub proof fn lemma_position(order: Seq<u32>, i: int)
    requires
        order.no_duplicates(),
        0 <= i < order.len(),
    ensures
        position(order, order[i]) == i,
{
}

pub struct Trail {
    previous: HashMap<u32, u32, RandomState>,
}

impl Trail {
    /// For each node, the node that it was reached from.
    pub closed spec fn steps(&self) -> Map<u32, u32> {
        self.previous@
    }

    /// The trail belongs to `search` as it stands.
    pub open spec fn follows(&self, search: &Search) -> bool {
        trail_inv(
            search.edges(),
            search.source(),
            search.costs(),
            search.settled(),
            search.order(),
            self.steps(),
        )
    }

    pub fn new() -> (trail: Self)
        ensures
            trail.steps() == no_costs(),
    {
        Trail { previous: map_with_hasher(RandomState::new()) }
    }

    /// Notes that `target` was reached from `from`.
    pub fn note(&mut self, target: u32, from: u32)
        ensures
            final(self).steps() == old(self).steps().insert(target, from),
    {
        map_insert(&mut self.previous, target, from);
    }

    /// The node that `node` was reached from, if it was reached from one.
    pub fn step_before(&self, node: u32) -> (before: Option<u32>)
        ensures
            before == (if self.steps().contains_key(node) {
                Some(self.steps()[node])
            } else {
                None
            }),
    {
        map_get(&self.previous, node)
    }

    /// The nodes from `from` back to the source of `search`, and a path
    /// that `search` found from its source to `from`.
    pub fn back_to_source(&self, search: &Search, from: u32) -> (way: (Vec<u32>, Ghost<Seq<Edge>>))
        requires
            search.inv(),
            self.follows(search),
            search.costs().contains_key(from),
        ensures
            is_path(search.edges(), way.1@, search.source(), from),
            path_cost(way.1@) == search.costs()[from],
            turned(way.0@) == nodes_along(search.source(), way.1@),
            way.0@.len() >= 1,
            way.0@[0] == from,
            forall|i: int|
                0 <= i < way.1@.len() ==> self.steps().contains_key((#[trigger] way.1@[i]).target)
                    && self.steps()[way.1@[i].target] == way.1@[i].source,
    {
        let ghost es = search.edges();
        let ghost costs = search.costs();
        let ghost order = search.order();
        let ghost settled = search.settled();
        let mut nodes: Vec<u32> = Vec::new();
        nodes.push(from);
        let mut current = from;
        let ghost mut path: Seq<Edge> = Seq::empty();
        proof {
            lemma_empty_path(es, from);
            search.lemma_inv();
            assert(turned(nodes@) =~= nodes_along(from, path));
        }
        loop
            invariant
                search.inv(),
                self.follows(search),
                es == search.edges(),
                costs == search.costs(),
                order == search.order(),
                settled == search.settled(),
                order.no_duplicates(),
                order.to_set() == settled,
                costs.contains_key(current),
                costs.contains_key(from),
                is_path(es, path, current, from),
                path_cost(path) + costs[current] == costs[from],
                turned(nodes@) == nodes_along(current, path),
                nodes@.len() >= 1,
                nodes@[0] == from,
                forall|i: int|
                    0 <= i < path.len() ==> self.steps().contains_key((#[trigger] path[i]).target)
                        && self.steps()[path[i].target] == path[i].source,
            ensures
                current == search.source(),
                forall|i: int|
                    0 <= i < path.len() ==> self.steps().contains_key((#[trigger] path[i]).target)
                        && self.steps()[path[i].target] == path[i].source,
                is_path(es, path, current, from),
                path_cost(path) + costs[current] == costs[from],
                turned(nodes@) == nodes_along(current, path),
                nodes@.len() >= 1,
                nodes@[0] == from,
            decreases
                    (if settled.contains(current) {
                        position(order, current) + 1
                    } else {
                        order.len() as int + 1
                    }),
        {
            match map_get(&self.previous, current) {
                None => {
                    break;
                },
                Some(before) => {
                    proof {
                        let e = step(costs, before, current);
                        lemma_single_edge(es, e);
                        lemma_path_concat(es, seq![e], path, before, current, from);
                        let longer = seq![e] + path;
                        assert(turned(nodes@.push(before)) =~= nodes_along(before, longer)) by {
                            let r = turned(nodes@);
                            assert(r.len() == path.len() + 1);
                            assert forall|i: int| 0 <= i < longer.len() + 1 implies turned(
                                nodes@.push(before),
                            )[i] == nodes_along(before, longer)[i] by {
                                if i > 0 {
                                    assert(turned(nodes@.push(before))[i] == r[i - 1]);
                                    assert(r[i - 1] == nodes_along(current, path)[i - 1]);
                                    if i > 1 {
                                        assert(longer[i - 1] == path[i - 2]);
                                    }
                                }
                            }
                        }
                        // the way back goes on through nodes that were settled ever earlier
                        assert(settled.contains(before));
                        assert(order.to_set().contains(before));
                        let i = position(order, before);
                        assert(0 <= i < order.len() && order[i] == before);
                        if settled.contains(current) {
                            assert(order.to_set().contains(current));
                        }
                        assert forall|i: int| 0 <= i < longer.len()
                            implies self.steps().contains_key(
                            (#[trigger] longer[i]).target,
                        ) && self.steps()[longer[i].target] == longer[i].source by {
                            if i > 0 {
                                assert(longer[i] == path[i - 1]);
                            }
                        }
                        path = longer;
                    }
                    nodes.push(before);
                    current = before;
                },
            }
        }
        proof {
            search.lemma_source_cost();
        }
        (nodes, Ghost(path))
    }
}

/// Settling a node keeps a trail.
pub proof fn lemma_trail_settle(
    es: Set<Edge>,
    source: u32,
    costs: Map<u32, u32>,
    settled: Set<u32>,
    order: Seq<u32>,
    previous: Map<u32, u32>,
    node: u32,
)
    requires
        trail_inv(es, source, costs, settled, order, previous),
        order.no_duplicates(),
        order.to_set() == settled,
        !settled.contains(node),
    ensures
        trail_inv(es, source, costs, settled.insert(node), order.push(node), previous),
{
    let longer = order.push(node);
    assert(longer.no_duplicates()) by {
        assert forall|i: int, j: int|
            0 <= i < longer.len() && 0 <= j < longer.len() && i != j implies longer[i]
            != longer[j] by {
            if i < order.len() {
                assert(order.to_set().contains(order[i]));
            }
            if j < order.len() {
                assert(order.to_set().contains(order[j]));
            }
        }
    }
    assert forall|x: u32| settled.contains(x) implies position(longer, x) == position(order, x) by {
        assert(order.to_set().contains(x));
        let i = position(order, x);
        assert(longer[i] == x);
        lemma_position(longer, i);
    }
    assert(position(longer, node) == order.len()) by {
        assert(longer[order.len() as int] == node);
        lemma_position(longer, order.len() as int);
    }
    assert forall|w: u32| #[trigger]
        previous.contains_key(w) && settled.insert(node).contains(w) implies position(
        longer,
        previous[w],
    ) < position(longer, w) by {
        let before = previous[w];
        assert(settled.contains(before));
        assert(order.to_set().contains(before));
        let i = position(order, before);
        assert(0 <= i < order.len());
    }
}

/// Recording a lower cost for an unsettled node, and the settled node that
/// it was reached from, keeps a trail.
pub proof fn lemma_trail_relax(
    es: Set<Edge>,
    source: u32,
    costs: Map<u32, u32>,
    settled: Set<u32>,
    order: Seq<u32>,
    previous: Map<u32, u32>,
    from: u32,
    target: u32,
    cost: u32,
)
    requires
        trail_inv(es, source, costs, settled, order, previous),
        settled.contains(from),
        costs.contains_key(from),
        !settled.contains(target),
        target != source,
        es.contains(Edge { source: from, target, cost }),
        costs[from] + cost <= u32::MAX,
    ensures
        trail_inv(
            es,
            source,
            costs.insert(target, (costs[from] + cost) as u32),
            settled,
            order,
            previous.insert(target, from),
        ),
{
    let costs2 = costs.insert(target, (costs[from] + cost) as u32);
    let previous2 = previous.insert(target, from);
    assert forall|w: u32| #[trigger] previous2.contains_key(w) implies costs2.contains_key(w)
        && settled.contains(previous2[w]) && costs2.contains_key(previous2[w])
        && costs2[previous2[w]] <= costs2[w] && es.contains(step(costs2, previous2[w], w)) && (
    settled.contains(w) ==> position(order, previous2[w]) < position(order, w)) by {
        if w == target {
            assert(step(costs2, from, target) == (Edge { source: from, target, cost }));
        } else {
            assert(previous.contains_key(w));
            assert(previous[w] != target);
            assert(step(costs2, previous2[w], w) == step(costs, previous[w], w));
        }
    }
}

} // verus!
