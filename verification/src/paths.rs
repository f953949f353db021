//! Paths and their costs: the mathematical model that every contract on a
//! search is stated over.
//!
//! A graph is a set of edges. A path is a sequence of edges of that set in
//! which each edge starts where the one before it ends. Costs add up in the
//! natural numbers, so a path's cost is never cut off by a machine width.

use crate::graph::Edge;
use vstd::prelude::*;

verus! {

/// The sum of the edge costs along `p`.
pub open spec fn path_cost(p: Seq<Edge>) -> nat
    decreases p.len(),
{
    if p.len() == 0 {
        0
    } else {
        path_cost(p.drop_last()) + p.last().cost as nat
    }
}

/// `p` leads from `s` to `t` over edges of `es`. The empty path leads from a
/// node to itself.
pub open spec fn is_path(es: Set<Edge>, p: Seq<Edge>, s: u32, t: u32) -> bool {
    &&& forall|i: int| 0 <= i < p.len() ==> es.contains(#[trigger] p[i])
    &&& forall|i: int| 0 < i < p.len() ==> p[i - 1].target == (#[trigger] p[i]).source
    &&& if p.len() == 0 {
        s == t
    } else {
        p[0].source == s && p.last().target == t
    }
}

/// Some path of `es` leads from `s` to `t` at cost `c`.
pub open spec fn reaches(es: Set<Edge>, s: u32, t: u32, c: nat) -> bool {
    exists|p: Seq<Edge>| is_path(es, p, s, t) && path_cost(p) == c
}

/// Some path of `es` leads from `s` to `t` at a cost of at most `c`.
pub open spec fn reaches_within(es: Set<Edge>, s: u32, t: u32, c: nat) -> bool {
    exists|p: Seq<Edge>| is_path(es, p, s, t) && path_cost(p) <= c
}

/// `d` is the cost of a cheapest path of `es` from `s` to `t`.
pub open spec fn is_distance(es: Set<Edge>, s: u32, t: u32, d: nat) -> bool {
    &&& reaches(es, s, t, d)
    &&& forall|p: Seq<Edge>| #[trigger] is_path(es, p, s, t) ==> d <= path_cost(p)
}

/// The edges of `es` that do not end in `banned`.
pub open spec fn avoiding(es: Set<Edge>, banned: u32) -> Set<Edge> {
    Set::new(|e: Edge| es.contains(e) && e.target != banned)
}

/// Every edge of `es` walked the other way.
pub open spec fn inverted(es: Set<Edge>) -> Set<Edge> {
    Set::new(|e: Edge| es.contains(Edge { source: e.target, target: e.source, cost: e.cost }))
}

/// `p` walked the other way: the edges in reverse order, each one inverted.
pub open spec fn reversed(p: Seq<Edge>) -> Seq<Edge> {
    Seq::new(
        p.len(),
        |i: int|
            Edge {
                source: p[p.len() - 1 - i].target,
                target: p[p.len() - 1 - i].source,
                cost: p[p.len() - 1 - i].cost,
            },
    )
}

pub proof fn lemma_empty_path(es: Set<Edge>, s: u32)
    ensures
        is_path(es, Seq::<Edge>::empty(), s, s),
        path_cost(Seq::<Edge>::empty()) == 0,
        reaches(es, s, s, 0),
{
    assert(is_path(es, Seq::<Edge>::empty(), s, s));
}

/// A path can be extended by an edge that starts where it ends.
pub proof fn lemma_path_push(es: Set<Edge>, p: Seq<Edge>, s: u32, e: Edge)
    requires
        is_path(es, p, s, e.source),
        es.contains(e),
    ensures
        is_path(es, p.push(e), s, e.target),
        path_cost(p.push(e)) == path_cost(p) + e.cost,
{
    let q = p.push(e);
    assert(q.drop_last() =~= p);
    assert forall|i: int| 0 <= i < q.len() implies es.contains(#[trigger] q[i]) by {
        if i < p.len() {
            assert(q[i] == p[i]);
        }
    }
    assert forall|i: int| 0 < i < q.len() implies q[i - 1].target == (#[trigger] q[i]).source by {
        if i < p.len() {
            assert(q[i] == p[i]);
            assert(q[i - 1] == p[i - 1]);
        }
    }
}

/// A path without its last edge leads to that edge's source.
pub proof fn lemma_path_drop_last(es: Set<Edge>, p: Seq<Edge>, s: u32, t: u32)
    requires
        is_path(es, p, s, t),
        p.len() > 0,
    ensures
        is_path(es, p.drop_last(), s, p.last().source),
        es.contains(p.last()),
        p.last().target == t,
        path_cost(p) == path_cost(p.drop_last()) + p.last().cost,
{
    let q = p.drop_last();
    assert forall|i: int| 0 <= i < q.len() implies es.contains(#[trigger] q[i]) by {
        assert(q[i] == p[i]);
    }
    assert forall|i: int| 0 < i < q.len() implies q[i - 1].target == (#[trigger] q[i]).source by {
        assert(q[i] == p[i]);
        assert(q[i - 1] == p[i - 1]);
    }
    if q.len() > 0 {
        assert(q[0] == p[0]);
        assert(q.last() == p[p.len() - 2]);
        assert(p[p.len() - 2].target == p[p.len() - 1].source);
    }
}

/// Two paths that meet can be joined, and their costs add up.
pub proof fn lemma_path_concat(es: Set<Edge>, p: Seq<Edge>, q: Seq<Edge>, s: u32, m: u32, t: u32)
    requires
        is_path(es, p, s, m),
        is_path(es, q, m, t),
    ensures
        is_path(es, p + q, s, t),
        path_cost(p + q) == path_cost(p) + path_cost(q),
    decreases q.len(),
{
    if q.len() == 0 {
        assert(p + q =~= p);
    } else {
        lemma_path_drop_last(es, q, m, t);
        lemma_path_concat(es, p, q.drop_last(), s, m, q.last().source);
        lemma_path_push(es, p + q.drop_last(), s, q.last());
        assert((p + q.drop_last()).push(q.last()) =~= p + q);
    }
}

/// A path of a set of edges is a path of every larger set.
pub proof fn lemma_path_subset(es: Set<Edge>, bigger: Set<Edge>, p: Seq<Edge>, s: u32, t: u32)
    requires
        is_path(es, p, s, t),
        es.subset_of(bigger),
    ensures
        is_path(bigger, p, s, t),
{
}

/// The cost of a single edge, as a path.
pub proof fn lemma_single_edge(es: Set<Edge>, e: Edge)
    requires
        es.contains(e),
    ensures
        is_path(es, seq![e], e.source, e.target),
        path_cost(seq![e]) == e.cost,
{
    lemma_empty_path(es, e.source);
    lemma_path_push(es, Seq::<Edge>::empty(), e.source, e);
    assert(Seq::<Edge>::empty().push(e) =~= seq![e]);
}

/// Walking a path the other way costs the same.
pub proof fn lemma_reversed_cost(p: Seq<Edge>)
    ensures
        path_cost(reversed(p)) == path_cost(p),
    decreases p.len(),
{
    if p.len() > 0 {
        let r = reversed(p);
        let head = seq![r[0]];
        let tail = reversed(p.drop_last());
        assert(r =~= head + tail);
        lemma_reversed_cost(p.drop_last());
        lemma_cost_concat(head, tail);
        assert(head.drop_last() =~= Seq::<Edge>::empty());
        assert(path_cost(head.drop_last()) == 0);
        assert(head.last() == r[0]);
        assert(path_cost(head) == r[0].cost);
    }
}

/// The cost of two sequences of edges laid end to end.
pub proof fn lemma_cost_concat(p: Seq<Edge>, q: Seq<Edge>)
    ensures
        path_cost(p + q) == path_cost(p) + path_cost(q),
    decreases q.len(),
{
    if q.len() == 0 {
        assert(p + q =~= p);
    } else {
        lemma_cost_concat(p, q.drop_last());
        assert((p + q).drop_last() =~= p + q.drop_last());
        assert((p + q).last() == q.last());
    }
}

/// A path walked the other way is a path of the inverted edges.
pub proof fn lemma_reversed_path(es: Set<Edge>, p: Seq<Edge>, s: u32, t: u32)
    requires
        is_path(es, p, s, t),
    ensures
        is_path(inverted(es), reversed(p), t, s),
        path_cost(reversed(p)) == path_cost(p),
{
    let r = reversed(p);
    lemma_reversed_cost(p);
    assert forall|i: int| 0 <= i < r.len() implies inverted(es).contains(#[trigger] r[i]) by {
        let e = p[p.len() - 1 - i];
        assert(es.contains(e));
        assert(Edge { source: r[i].target, target: r[i].source, cost: r[i].cost } == e);
    }
    assert forall|i: int| 0 < i < r.len() implies r[i - 1].target == (#[trigger] r[i]).source by {
        let j = p.len() - 1 - i;
        assert(p[j].target == p[j + 1].source);
    }
}

/// Inverting twice gives the set back.
pub proof fn lemma_inverted_twice(es: Set<Edge>)
    ensures
        inverted(inverted(es)) == es,
{
    assert forall|e: Edge| inverted(inverted(es)).contains(e) == es.contains(e) by {
        let f = Edge { source: e.target, target: e.source, cost: e.cost };
        assert(Edge { source: f.target, target: f.source, cost: f.cost } == e);
    }
    assert(inverted(inverted(es)) =~= es);
}

} // verus!
