//! One direction of a shortest-path search: tentative costs, the open queue
//! and the set of settled nodes, with the invariant that makes a settled cost
//! the cost of a cheapest path.
//!
//! The witness search runs one of these to exhaustion; the hierarchy query
//! runs two of them against each other.

use ahash::RandomState;
use crate::binary_heap::MinHeap;
use crate::binary_heap::MinimumItem;
use crate::binary_heap::leaves_before;
use crate::graph::Edge;
use crate::hashing::map_get;
use crate::hashing::map_insert;
use crate::hashing::map_with_hasher;
use crate::hashing::set_contains;
use crate::hashing::set_insert;
use crate::hashing::set_with_hasher;
use crate::paths::is_distance;
use crate::paths::is_path;
use crate::paths::lemma_empty_path;
use crate::paths::lemma_path_drop_last;
use crate::paths::lemma_path_push;
use crate::paths::path_cost;
use crate::paths::reaches;
use std::collections::HashMap;
use std::collections::HashSet;
use vstd::multiset::Multiset;
use vstd::prelude::*;

verus! {

broadcast use vstd::multiset::group_multiset_axioms;

/// What holds of a search from `source` over the edges `es` between any two
/// steps. Costs above `limit` are never recorded.
pub open spec fn search_inv(
    es: Set<Edge>,
    source: u32,
    limit: u32,
    costs: Map<u32, u32>,
    closed: Set<u32>,
    open: Multiset<MinimumItem>,
    relaxed: Set<Edge>,
) -> bool {
    &&& limit < u32::MAX
    &&& costs.contains_key(source)
    &&& costs[source] == 0
    // a recorded cost is the cost of some path
    &&& forall|w: u32| #[trigger]
        costs.contains_key(w) ==> costs[w] <= limit && reaches(es, source, w, costs[w] as nat)
    // a settled node has a cost, and no path to it is cheaper
    &&& forall|w: u32| #[trigger] closed.contains(w) ==> costs.contains_key(w)
    &&& forall|w: u32, p: Seq<Edge>|
        closed.contains(w) && #[trigger] is_path(es, p, source, w) ==> costs[w] <= path_cost(p)
    // a relaxed edge leaves a settled node and cannot improve its target
    &&& forall|e: Edge| #[trigger]
        relaxed.contains(e) ==> es.contains(e) && closed.contains(e.source) && (costs[e.source]
            + e.cost <= limit ==> costs.contains_key(e.target) && costs[e.target]
            <= costs[e.source] + e.cost)
    // an unsettled node with a cost is in the queue at that cost
    &&& forall|w: u32| #[trigger]
        costs.contains_key(w) && !closed.contains(w) ==> open.contains(
            MinimumItem { priority: costs[w], item: w },
        )
    // the queue holds only nodes with a cost, at that cost or a staler one
    &&& forall|x: MinimumItem| #[trigger]
        open.contains(x) ==> costs.contains_key(x.item) && costs[x.item] <= x.priority
            && x.priority <= limit
}

/// Every edge that leaves a settled node has been relaxed.
pub open spec fn rows_complete(es: Set<Edge>, closed: Set<u32>, relaxed: Set<Edge>) -> bool {
    forall|e: Edge| #[trigger] es.contains(e) && closed.contains(e.source) ==> relaxed.contains(e)
}

/// No path to an unsettled node is cheaper than the cheapest entry of the
/// queue; with an empty queue, none stays within the limit.
pub proof fn lemma_frontier(
    es: Set<Edge>,
    source: u32,
    limit: u32,
    costs: Map<u32, u32>,
    closed: Set<u32>,
    open: Multiset<MinimumItem>,
    relaxed: Set<Edge>,
    p: Seq<Edge>,
    t: u32,
    bound: nat,
)
    requires
        search_inv(es, source, limit, costs, closed, open, relaxed),
        rows_complete(es, closed, relaxed),
        is_path(es, p, source, t),
        !closed.contains(t),
        forall|x: MinimumItem| open.contains(x) ==> x.priority >= bound,
        bound <= limit + 1,
    ensures
        path_cost(p) >= bound,
    decreases p.len(),
{
    if p.len() == 0 {
        assert(open.contains(MinimumItem { priority: costs[source], item: source }));
    } else {
        lemma_path_drop_last(es, p, source, t);
        let q = p.drop_last();
        let e = p.last();
        let x = e.source;
        if closed.contains(x) {
            assert(costs[x] <= path_cost(q));
            assert(relaxed.contains(e));
            if costs[x] + e.cost <= limit {
                assert(costs.contains_key(t));
                assert(open.contains(MinimumItem { priority: costs[t], item: t }));
            }
        } else {
            lemma_frontier(es, source, limit, costs, closed, open, relaxed, q, x, bound);
        }
    }
}

/// A sequence of distinct numbers below `n` has at most `n` entries.
pub proof fn lemma_distinct_bounded(s: Seq<u32>, n: nat)
    requires
        s.no_duplicates(),
        forall|i: int| 0 <= i < s.len() ==> s[i] < n,
    ensures
        s.len() <= n,
    decreases n,
{
    if n == 0 {
        if s.len() > 0 {
            assert(s[0] < n);
        }
    } else if exists|i: int| 0 <= i < s.len() && s[i] == n - 1 {
        let i = choose|i: int| 0 <= i < s.len() && s[i] == n - 1;
        let r = s.remove(i);
        assert forall|a: int, b: int| 0 <= a < r.len() && 0 <= b < r.len() && a != b implies r[a]
            != r[b] by {
            let a2 = if a < i { a } else { a + 1 };
            let b2 = if b < i { b } else { b + 1 };
            assert(r[a] == s[a2]);
            assert(r[b] == s[b2]);
        }
        assert forall|a: int| 0 <= a < r.len() implies r[a] < (n - 1) as nat by {
            let a2 = if a < i { a } else { a + 1 };
            assert(r[a] == s[a2]);
            assert(s[a2] < n);
            assert(s[a2] != s[i]);
        }
        lemma_distinct_bounded(r, (n - 1) as nat);
    } else {
        assert forall|a: int| 0 <= a < s.len() implies s[a] < (n - 1) as nat by {
            assert(s[a] < n);
        }
        lemma_distinct_bounded(s, (n - 1) as nat);
    }
}

/// The state of one search.
pub struct Search {
    costs: HashMap<u32, u32, RandomState>,
    open: MinHeap<MinimumItem>,
    closed: HashSet<u32, RandomState>,
    limit: u32,
    edges: Ghost<Set<Edge>>,
    source: Ghost<u32>,
    nodes: Ghost<nat>,
    relaxed: Ghost<Set<Edge>>,
    order: Ghost<Seq<u32>>,
}

impl Search {
    /// The tentative cost of each node reached so far.
    pub closed spec fn costs(&self) -> Map<u32, u32> {
        self.costs@
    }

    /// The nodes settled so far.
    pub closed spec fn settled(&self) -> Set<u32> {
        self.closed@
    }

    /// The entries of the open queue.
    pub closed spec fn pending(&self) -> Multiset<MinimumItem> {
        self.open@
    }

    /// The largest cost that the search records.
    pub closed spec fn limit(&self) -> u32 {
        self.limit
    }

    /// The edges that the search runs over.
    pub closed spec fn edges(&self) -> Set<Edge> {
        self.edges@
    }

    /// The node that the search started from.
    pub closed spec fn source(&self) -> u32 {
        self.source@
    }

    /// The number of nodes: every node that the search reaches is below it.
    pub closed spec fn nodes(&self) -> nat {
        self.nodes@
    }

    /// The edges relaxed so far.
    pub closed spec fn relaxed(&self) -> Set<Edge> {
        self.relaxed@
    }

    /// The settled nodes in the order in which they were settled.
    pub closed spec fn order(&self) -> Seq<u32> {
        self.order@
    }

    /// The invariant of the search.
    pub closed spec fn inv(&self) -> bool {
        &&& search_inv(
            self.edges@,
            self.source@,
            self.limit,
            self.costs@,
            self.closed@,
            self.open@,
            self.relaxed@,
        )
        &&& self.open.wf()
        &&& self.order@.no_duplicates()
        &&& self.order@.to_set() == self.closed@
        &&& forall|w: u32| #[trigger] self.costs@.contains_key(w) ==> w < self.nodes@
    }

    /// Every edge that leaves a settled node has been relaxed.
    pub open spec fn complete(&self) -> bool {
        rows_complete(self.edges(), self.settled(), self.relaxed())
    }

    /// What `inv` says of the model.
    pub proof fn lemma_inv(&self)
        requires
            self.inv(),
        ensures
            search_inv(
                self.edges(),
                self.source(),
                self.limit(),
                self.costs(),
                self.settled(),
                self.pending(),
                self.relaxed(),
            ),
            self.order().no_duplicates(),
            self.order().to_set() == self.settled(),
            self.order().len() <= self.nodes(),
            forall|w: u32| #[trigger] self.costs().contains_key(w) ==> w < self.nodes(),
    {
        assert forall|i: int| 0 <= i < self.order@.len() implies self.order@[i] < self.nodes@ by {
            assert(self.order@.to_set().contains(self.order@[i]));
            assert(self.costs@.contains_key(self.order@[i]));
        }
        lemma_distinct_bounded(self.order@, self.nodes@);
    }

    /// The source is at cost zero.
    pub proof fn lemma_source_cost(&self)
        requires
            self.inv(),
        ensures
            self.costs().contains_key(self.source()),
            self.costs()[self.source()] == 0,
    {
    }

    /// The cost of a settled node is the cost of a cheapest path to it.
    pub proof fn lemma_settled_distance(&self, w: u32)
        requires
            self.inv(),
            self.settled().contains(w),
        ensures
            self.costs().contains_key(w),
            is_distance(self.edges(), self.source(), w, self.costs()[w] as nat),
    {
    }

    /// No path to an unsettled node is cheaper than `bound`, if no entry of
    /// the queue is.
    pub proof fn lemma_unsettled_bound(&self, p: Seq<Edge>, t: u32, bound: nat)
        requires
            self.inv(),
            self.complete(),
            is_path(self.edges(), p, self.source(), t),
            !self.settled().contains(t),
            forall|x: MinimumItem| self.pending().contains(x) ==> x.priority >= bound,
            bound <= self.limit() + 1,
        ensures
            path_cost(p) >= bound,
    {
        assert(self.pending() == self.open@);
        lemma_frontier(
            self.edges@,
            self.source@,
            self.limit,
            self.costs@,
            self.closed@,
            self.open@,
            self.relaxed@,
            p,
            t,
            bound,
        );
    }

    /// Once the queue is empty, every node with a cost is settled.
    pub proof fn lemma_exhausted_settled(&self, w: u32)
        requires
            self.inv(),
            self.pending().len() == 0,
            self.costs().contains_key(w),
        ensures
            self.settled().contains(w),
    {
        if !self.closed@.contains(w) {
            assert(self.open@.contains(MinimumItem { priority: self.costs@[w], item: w }));
        }
    }

    /// Once the queue is empty, every node that a path within the limit
    /// leads to is settled.
    pub proof fn lemma_exhausted_complete(&self, p: Seq<Edge>, t: u32)
        requires
            self.inv(),
            self.complete(),
            self.pending().len() == 0,
            is_path(self.edges(), p, self.source(), t),
            path_cost(p) <= self.limit(),
        ensures
            self.settled().contains(t),
    {
        if !self.settled().contains(t) {
            assert forall|x: MinimumItem| self.pending().contains(x) implies x.priority
                >= self.limit() + 1 by {
                assert(self.pending().count(x) > 0);
            }
            self.lemma_unsettled_bound(p, t, (self.limit() + 1) as nat);
        }
    }

    /// A search that has settled nothing yet: the source is at cost zero and
    /// waits in the queue.
    pub fn start(source: u32, limit: u32, Ghost(es): Ghost<Set<Edge>>,
        Ghost(n): Ghost<nat>) -> (search:
        Self)
        requires
            limit < u32::MAX,
            source < n,
        ensures
            search.inv(),
            search.complete(),
            search.edges() == es,
            search.source() == source,
            search.nodes() == n,
            search.limit() == limit,
            search.order() == Seq::<u32>::empty(),
            search.settled() == Set::<u32>::empty(),
            search.costs() == Map::<u32, u32>::empty().insert(source, 0),
            search.pending() == Multiset::<MinimumItem>::empty().insert(
                MinimumItem { priority: 0, item: source },
            ),
    {
        let mut costs = map_with_hasher(RandomState::new());
        let mut open = MinHeap::new();
        let closed = set_with_hasher(RandomState::new());
        map_insert(&mut costs, source, 0);
        open.push(MinimumItem::new(0, source));
        let search = Search {
            costs,
            open,
            closed,
            limit,
            edges: Ghost(es),
            source: Ghost(source),
            nodes: Ghost(n),
            relaxed: Ghost(Set::empty()),
            order: Ghost(Seq::empty()),
        };
        proof {
            lemma_empty_path(es, source);
            assert(search.order@.to_set() =~= search.closed@);
        }
        search
    }

    /// The cost recorded for `node`, if it has been reached.
    pub fn cost_of(&self, node: u32) -> (cost: Option<u32>)
        ensures
            cost == (if self.costs().contains_key(node) {
                Some(self.costs()[node])
            } else {
                None
            }),
    {
        map_get(&self.costs, node)
    }

    /// Whether the queue is empty.
    pub fn is_exhausted(&self) -> (b: bool)
        ensures
            b == (self.pending().len() == 0),
    {
        self.open.is_empty()
    }

    /// The cheapest key in the queue, or `u32::MAX` if the queue is empty.
    pub fn frontier(&self) -> (key: u32)
        requires
            self.inv(),
        ensures
            forall|x: MinimumItem| self.pending().contains(x) ==> x.priority >= key,
            self.pending().len() == 0 ==> key == u32::MAX,
            self.pending().len() > 0 ==> key <= self.limit(),
    {
        match self.open.peek() {
            Some(top) => {
                proof {
                    assert forall|x: MinimumItem| self.open@.contains(x) implies x.priority
                        >= top.priority by {
                        assert(leaves_before(top, x));
                    }
                    assert(self.costs@.contains_key(top.item));
                    let w = top.item;
                    assert(self.open@.contains(MinimumItem { priority: self.costs@[w], item: w })
                        || self.closed@.contains(w));
                }
                top.priority
            },
            None => u32::MAX,
        }
    }

    /// Hands the tentative costs out.
    pub fn into_costs(self) -> (costs: HashMap<u32, u32, RandomState>)
        ensures
            costs@ == self.costs(),
    {
        self.costs
    }

    /// Takes one entry from the queue. If its node is not settled yet, the
    /// node is settled and handed out with its cost, and its edges are then
    /// due for `relax`.
    pub fn settle(&mut self) -> (settled: Option<(u32, u32)>)
        requires
            old(self).inv(),
            old(self).complete(),
        ensures
            final(self).inv(),
            final(self).edges() == old(self).edges(),
            final(self).source() == old(self).source(),
            final(self).nodes() == old(self).nodes(),
            final(self).limit() == old(self).limit(),
            final(self).costs() == old(self).costs(),
            final(self).relaxed() == old(self).relaxed(),
            old(self).pending().len() == 0 ==> settled is None && final(self).pending() == old(
                self,
            ).pending(),
            old(self).pending().len() > 0 ==> final(self).pending().len() == old(
                self,
            ).pending().len() - 1,
            forall|x: MinimumItem|
                final(self).pending().contains(x) ==> old(self).pending().contains(x),
            match settled {
                Some((node, cost)) => {
                    &&& !old(self).settled().contains(node)
                    &&& old(self).costs().contains_key(node)
                    &&& old(self).costs()[node] == cost
                    &&& forall|x: MinimumItem|
                        old(self).pending().contains(x) ==> x.priority >= cost
                    &&& final(self).settled() == old(self).settled().insert(node)
                    &&& final(self).order() == old(self).order().push(node)
                },
                None => {
                    &&& final(self).settled() == old(self).settled()
                    &&& final(self).order() == old(self).order()
                    &&& final(self).complete()
                },
            },
    {
        let ghost before = self.open@;
        match self.open.pop() {
            None => None,
            Some(state) => {
                let node = state.item;
                proof {
                    assert(before.contains(state));
                    assert forall|x: MinimumItem| #[trigger]
                        self.open@.contains(x) implies before.contains(x) by {
                        if x != state {
                            assert(before.remove(state).count(x) == before.count(x));
                        } else {
                            assert(before.count(x) > 0);
                        }
                    }
                    assert(self.open@.len() == before.len() - 1);
                }
                if set_contains(&self.closed, node) {
                    proof {
                        assert forall|w: u32| #[trigger]
                            self.costs@.contains_key(w) && !self.closed@.contains(
                                w,
                            ) implies self.open@.contains(
                            MinimumItem { priority: self.costs@[w], item: w },
                        ) by {
                            let y = MinimumItem { priority: self.costs@[w], item: w };
                            assert(before.contains(y));
                            assert(y != state);
                            assert(before.remove(state).count(y) == before.count(y));
                        }
                    }
                    None
                } else {
                    let found = map_get(&self.costs, node);
                    let cost = match found {
                        Some(c) => c,
                        None => 0,
                    };
                    let ghost closed_before = self.closed@;
                    proof {
                        assert(self.costs@.contains_key(node));
                        let fresh = MinimumItem { priority: cost, item: node };
                        assert(before.contains(fresh));
                        assert(leaves_before(state, fresh));
                        assert(state.priority == cost);
                        assert forall|x: MinimumItem| before.contains(x) implies x.priority
                            >= cost by {
                            assert(leaves_before(state, x));
                        }
                        assert forall|p: Seq<Edge>| #[trigger]
                            is_path(self.edges@, p, self.source@, node) implies cost <= path_cost(
                            p,
                        ) by {
                            lemma_frontier(
                                self.edges@,
                                self.source@,
                                self.limit,
                                self.costs@,
                                closed_before,
                                before,
                                self.relaxed@,
                                p,
                                node,
                                cost as nat,
                            );
                        }
                    }
                    set_insert(&mut self.closed, node);
                    proof {
                        let ghost old_order = self.order@;
                        self.order@ = old_order.push(node);
                        assert(old_order.to_set().insert(node) =~= old_order.push(node).to_set())
                            by {
                            assert forall|x: u32|
                                old_order.to_set().insert(node).contains(x) == old_order.push(
                                    node,
                                ).to_set().contains(x) by {
                                if old_order.to_set().contains(x) {
                                    let i = choose|i: int|
                                        0 <= i < old_order.len() && old_order[i] == x;
                                    assert(old_order.push(node)[i] == x);
                                }
                                if x == node {
                                    assert(old_order.push(node)[old_order.len() as int] == node);
                                }
                            }
                        }
                        assert(!old_order.contains(node)) by {
                            if old_order.contains(node) {
                                assert(old_order.to_set().contains(node));
                            }
                        }
                        assert forall|w: u32| #[trigger]
                            self.costs@.contains_key(w) && !self.closed@.contains(
                                w,
                            ) implies self.open@.contains(
                            MinimumItem { priority: self.costs@[w], item: w },
                        ) by {
                            let y = MinimumItem { priority: self.costs@[w], item: w };
                            assert(before.contains(y));
                            assert(y != state);
                            assert(before.remove(state).count(y) == before.count(y));
                        }
                    }
                    Some((node, cost))
                }
            },
        }
    }

    /// Tries the edge from the settled node `from` to `target`: if it gives
    /// `target` a cost within the limit and below the one recorded, the new
    /// cost is recorded and `target` is queued at it.
    pub fn relax(&mut self, from: u32, from_cost: u32, target: u32, cost: u32) -> (improved: bool)
        requires
            old(self).inv(),
            old(self).settled().contains(from),
            old(self).costs()[from] == from_cost,
            old(self).edges().contains(Edge { source: from, target, cost }),
            target < old(self).nodes(),
        ensures
            final(self).inv(),
            final(self).edges() == old(self).edges(),
            final(self).source() == old(self).source(),
            final(self).nodes() == old(self).nodes(),
            final(self).limit() == old(self).limit(),
            final(self).settled() == old(self).settled(),
            final(self).order() == old(self).order(),
            final(self).relaxed() == old(self).relaxed().insert(
                Edge { source: from, target, cost },
            ),
            improved ==> !old(self).settled().contains(target) && final(self).costs() == old(
                self,
            ).costs().insert(target, (from_cost + cost) as u32) && from_cost + cost <= old(
                self,
            ).limit() && final(self).pending() == old(self).pending().insert(
                MinimumItem { priority: (from_cost + cost) as u32, item: target },
            ),
            improved ==> target != old(self).source() && (old(self).costs().contains_key(target)
                ==> from_cost + cost < old(self).costs()[target]),
            !improved ==> final(self).costs() == old(self).costs() && final(self).pending() == old(
                self,
            ).pending(),
    {
        let ghost e = Edge { source: from, target, cost };
        let ghost es = self.edges@;
        let ghost source = self.source@;
        let ghost costs0 = self.costs@;
        let ghost open0 = self.open@;
        let ghost closed = self.closed@;
        let ghost relaxed0 = self.relaxed@;
        let alt: u64 = from_cost as u64 + cost as u64;
        if alt <= self.limit as u64 {
            let alt32: u32 = alt as u32;
            let better = match map_get(&self.costs, target) {
                Some(current) => alt32 < current,
                None => true,
            };
            if better {
                proof {
                    // the path to `from`, extended by the edge
                    let p = choose|p: Seq<Edge>|
                        is_path(es, p, source, from) && path_cost(p) == from_cost as nat;
                    lemma_path_push(es, p, source, e);
                    assert(is_path(es, p.push(e), source, target));
                    assert(reaches(es, source, target, alt32 as nat));
                    if closed.contains(target) {
                        assert(costs0[target] <= path_cost(p.push(e)));
                    }
                }
                map_insert(&mut self.costs, target, alt32);
                self.open.push(MinimumItem::new(alt32, target));
                proof {
                    self.relaxed@ = relaxed0.insert(e);
                    let costs1 = self.costs@;
                    let open1 = self.open@;
                    assert(target != source);
                    assert(target != from);
                    assert forall|w: u32| #[trigger] costs1.contains_key(w) implies costs1[w]
                        <= self.limit && reaches(es, source, w, costs1[w] as nat) by {
                        if w != target {
                            assert(costs0.contains_key(w));
                        }
                    }
                    assert forall|w: u32, q: Seq<Edge>|
                        closed.contains(w) && #[trigger] is_path(
                            es,
                            q,
                            source,
                            w,
                        ) implies costs1[w] <= path_cost(q) by {
                        assert(costs0[w] <= path_cost(q));
                    }
                    assert forall|f: Edge| #[trigger] self.relaxed@.contains(f) implies es.contains(
                        f,
                    ) && closed.contains(f.source) && (costs1[f.source] + f.cost <= self.limit
                        ==> costs1.contains_key(f.target) && costs1[f.target] <= costs1[f.source]
                        + f.cost) by {
                        if f != e {
                            assert(relaxed0.contains(f));
                        }
                    }
                    assert forall|w: u32| #[trigger]
                        costs1.contains_key(w) && !closed.contains(w) implies open1.contains(
                        MinimumItem { priority: costs1[w], item: w },
                    ) by {
                        if w != target {
                            assert(costs0.contains_key(w));
                            assert(open0.contains(MinimumItem { priority: costs0[w], item: w }));
                        }
                    }
                    assert forall|x: MinimumItem| #[trigger]
                        open1.contains(x) implies costs1.contains_key(x.item) && costs1[x.item]
                        <= x.priority && x.priority <= self.limit by {
                        if x != (MinimumItem { priority: alt32, item: target }) {
                            assert(open0.contains(x));
                        }
                    }
                }
                return true;
            }
        }
        proof {
            self.relaxed@ = relaxed0.insert(e);
            assert forall|f: Edge| #[trigger] self.relaxed@.contains(f) implies es.contains(f)
                && closed.contains(f.source) && (costs0[f.source] + f.cost <= self.limit
                ==> costs0.contains_key(f.target) && costs0[f.target] <= costs0[f.source]
                + f.cost) by {
                if f != e {
                    assert(relaxed0.contains(f));
                }
            }
        }
        false
    }
}

} // verus!
