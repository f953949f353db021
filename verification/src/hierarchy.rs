//! Why a query over a contraction hierarchy finds the cost of a cheapest path.
//!
//! Every node has a level: the rank at which it was contracted, or
//! `u32::MAX` while it has not been. An edge goes up if its target is at
//! least as high as its source, and down if its source is at least as high
//! as its target. The theorem of this file: if every way down into a
//! contracted node and up out of it again has a witness among the nodes
//! above it, then every path has an up-down path beside it, between the same
//! two nodes and no dearer: one that only goes up and then only goes down.

use crate::graph::Edge;
use crate::paths::is_path;
use crate::paths::lemma_cost_concat;
use crate::paths::lemma_empty_path;
use crate::paths::lemma_path_concat;
use crate::paths::lemma_path_drop_last;
use crate::paths::lemma_path_push;
use crate::paths::lemma_path_subset;
use crate::paths::lemma_single_edge;
use crate::paths::path_cost;
use crate::paths::reaches;
use crate::paths::reaches_within;
use crate::rows::level_of;
use vstd::prelude::*;

verus! {

/// The edges of `es` between nodes at level `l` or above.
pub open spec fn at_least(es: Set<Edge>, levels: Seq<u32>, l: int) -> Set<Edge> {
    Set::new(
        |e: Edge|
            es.contains(e) && level_of(levels, e.source) >= l && level_of(levels, e.target) >= l,
    )
}

/// The edges of `es` that go up, from level `l` or above.
pub open spec fn upward(es: Set<Edge>, levels: Seq<u32>, l: int) -> Set<Edge> {
    Set::new(
        |e: Edge|
            es.contains(e) && l <= level_of(levels, e.source) <= level_of(levels, e.target),
    )
}

/// The edges of `es` that go down, to level `l` or above.
pub open spec fn downward(es: Set<Edge>, levels: Seq<u32>, l: int) -> Set<Edge> {
    Set::new(
        |e: Edge|
            es.contains(e) && level_of(levels, e.source) >= level_of(levels, e.target) >= l,
    )
}

/// No edge of `es` leads from a node to itself, and no two contracted nodes
/// share a level.
pub open spec fn well_ranked(es: Set<Edge>, levels: Seq<u32>) -> bool {
    &&& forall|e: Edge| #[trigger] es.contains(e) ==> e.source != e.target
    &&& forall|x: u32, y: u32|
        #[trigger] level_of(levels, x) == #[trigger] level_of(levels, y) && level_of(levels, x)
            < u32::MAX ==> x == y
}

/// The two edges meet in a contracted node that lies below both their other
/// ends, and cost less than `u32::MAX` together.
pub open spec fn is_valley(levels: Seq<u32>, e1: Edge, e2: Edge) -> bool {
    &&& e1.target == e2.source
    &&& level_of(levels, e1.target) < u32::MAX
    &&& level_of(levels, e1.source) > level_of(levels, e1.target)
    &&& level_of(levels, e2.target) > level_of(levels, e1.target)
    &&& e1.cost + e2.cost < u32::MAX
}

/// Every valley of `es` has a witness: a path between its two ends, over
/// nodes above its bottom, that costs no more.
pub open spec fn witnessed(es: Set<Edge>, levels: Seq<u32>) -> bool {
    forall|e1: Edge, e2: Edge|
        #[trigger] es.contains(e1) && #[trigger] es.contains(e2) && is_valley(levels, e1, e2)
            ==> reaches_within(
            at_least(es, levels, level_of(levels, e1.target) + 1),
            e1.source,
            e2.target,
            (e1.cost + e2.cost) as nat,
        )
}

/// `up` leads up from `s` to some node, `down` leads down from there to `t`,
/// both at level `l` or above, and together they cost at most `c`.
pub open spec fn is_up_down(
    es: Set<Edge>,
    levels: Seq<u32>,
    l: int,
    s: u32,
    t: u32,
    c: nat,
    apex: u32,
    up: Seq<Edge>,
    down: Seq<Edge>,
) -> bool {
    &&& is_path(upward(es, levels, l), up, s, apex)
    &&& is_path(downward(es, levels, l), down, apex, t)
    &&& path_cost(up) + path_cost(down) <= c
}

/// For every edge of `xs` that joins two nodes, `ys` has one between the same
/// nodes that costs no more.
pub open spec fn covers(ys: Set<Edge>, xs: Set<Edge>) -> bool {
    forall|e: Edge| #[trigger]
        xs.contains(e) && e.source != e.target ==> exists|f: Edge| #[trigger]
            ys.contains(f) && f.source == e.source && f.target == e.target && f.cost <= e.cost
}

/// A path without its first edge leads on from that edge's target.
pub proof fn lemma_path_drop_first(es: Set<Edge>, p: Seq<Edge>, s: u32, t: u32)
    requires
        is_path(es, p, s, t),
        p.len() > 0,
    ensures
        is_path(es, p.drop_first(), p[0].target, t),
        es.contains(p[0]),
        p[0].source == s,
        path_cost(p) == p[0].cost + path_cost(p.drop_first()),
{
    let q = p.drop_first();
    assert forall|i: int| 0 <= i < q.len() implies es.contains(#[trigger] q[i]) by {
        assert(q[i] == p[i + 1]);
    }
    assert forall|i: int| 0 < i < q.len() implies q[i - 1].target == (#[trigger] q[i]).source by {
        assert(q[i] == p[i + 1]);
        assert(q[i - 1] == p[i]);
    }
    if q.len() > 0 {
        assert(q[0] == p[1]);
        assert(q.last() == p.last());
    }
    let head = seq![p[0]];
    assert(head + q =~= p);
    lemma_cost_concat(head, q);
    assert(head.drop_last() =~= Seq::<Edge>::empty());
    assert(path_cost(head.drop_last()) == 0);
    assert(head.last() == p[0]);
}

/// A path down to a node at level `floor` or above stays at that level or
/// above, and starts no lower than it ends.
pub proof fn lemma_down_floor(
    es: Set<Edge>,
    levels: Seq<u32>,
    l: int,
    p: Seq<Edge>,
    s: u32,
    t: u32,
    floor: int,
)
    requires
        is_path(downward(es, levels, l), p, s, t),
        floor <= level_of(levels, t),
    ensures
        is_path(downward(es, levels, floor), p, s, t),
        level_of(levels, s) >= level_of(levels, t),
    decreases p.len(),
{
    if p.len() > 0 {
        lemma_path_drop_last(downward(es, levels, l), p, s, t);
        let e = p.last();
        lemma_down_floor(es, levels, l, p.drop_last(), s, e.source, floor);
        lemma_path_push(downward(es, levels, floor), p.drop_last(), s, e);
        assert(p.drop_last().push(e) =~= p);
    }
}

/// A path up from a node at level `floor` or above stays at that level or
/// above, and ends no lower than it starts.
pub proof fn lemma_up_floor(
    es: Set<Edge>,
    levels: Seq<u32>,
    l: int,
    p: Seq<Edge>,
    s: u32,
    t: u32,
    floor: int,
)
    requires
        is_path(upward(es, levels, l), p, s, t),
        floor <= level_of(levels, s),
    ensures
        is_path(upward(es, levels, floor), p, s, t),
        level_of(levels, t) >= level_of(levels, s),
    decreases p.len(),
{
    if p.len() > 0 {
        lemma_path_drop_last(upward(es, levels, l), p, s, t);
        let e = p.last();
        lemma_up_floor(es, levels, l, p.drop_last(), s, e.source, floor);
        lemma_path_push(upward(es, levels, floor), p.drop_last(), s, e);
        assert(p.drop_last().push(e) =~= p);
    }
}

/// An up-down path at level `l + 1` or above is one at level `l` or above.
pub proof fn lemma_up_down_lower(
    es: Set<Edge>,
    levels: Seq<u32>,
    l: int,
    s: u32,
    t: u32,
    c: nat,
    apex: u32,
    up: Seq<Edge>,
    down: Seq<Edge>,
)
    requires
        is_up_down(es, levels, l + 1, s, t, c, apex, up, down),
    ensures
        is_up_down(es, levels, l, s, t, c, apex, up, down),
{
    lemma_path_subset(upward(es, levels, l + 1), upward(es, levels, l), up, s, apex);
    lemma_path_subset(downward(es, levels, l + 1), downward(es, levels, l), down, apex, t);
}

/// A way down and then up, at level `l` or above and cheaper than
/// `u32::MAX`, has an up-down path beside it that costs no more.
pub proof fn lemma_valley(
    es: Set<Edge>,
    levels: Seq<u32>,
    l: int,
    x: u32,
    bottom: u32,
    y: u32,
    down: Seq<Edge>,
    up: Seq<Edge>,
) -> (r: (u32, Seq<Edge>, Seq<Edge>))
    requires
        well_ranked(es, levels),
        witnessed(es, levels),
        0 <= l <= u32::MAX,
        is_path(downward(es, levels, l), down, x, bottom),
        is_path(upward(es, levels, l), up, bottom, y),
        path_cost(down) + path_cost(up) < u32::MAX,
    ensures
        is_up_down(es, levels, l, x, y, path_cost(down) + path_cost(up), r.0, r.1, r.2),
    decreases u32::MAX - l, 0nat,
{
    let none = Seq::<Edge>::empty();
    if down.len() == 0 {
        lemma_empty_path(downward(es, levels, l), y);
        (y, up, none)
    } else if up.len() == 0 {
        lemma_empty_path(upward(es, levels, l), x);
        (x, none, down)
    } else {
        let ups = upward(es, levels, l);
        let downs = downward(es, levels, l);
        lemma_path_drop_last(downs, down, x, bottom);
        lemma_path_drop_first(ups, up, bottom, y);
        let e1 = down.last();
        let e2 = up[0];
        let beta = level_of(levels, bottom) as int;
        if beta > l {
            lemma_down_floor(es, levels, l, down, x, bottom, l + 1);
            lemma_up_floor(es, levels, l, up, bottom, y, l + 1);
            let r = lemma_valley(es, levels, l + 1, x, bottom, y, down, up);
            lemma_up_down_lower(
                es,
                levels,
                l,
                x,
                y,
                path_cost(down) + path_cost(up),
                r.0,
                r.1,
                r.2,
            );
            r
        } else if l == u32::MAX {
            // everything lies on the top level, where down is up as well
            assert forall|i: int| 0 <= i < down.len() implies ups.contains(#[trigger] down[i]) by {
                assert(downs.contains(down[i]));
            }
            assert(is_path(ups, down, x, bottom));
            lemma_path_concat(ups, down, up, x, bottom, y);
            lemma_empty_path(downs, y);
            (y, down + up, none)
        } else {
            let u = e1.source;
            let w = e2.target;
            assert(level_of(levels, u) > l) by {
                if level_of(levels, u) == l {
                    assert(level_of(levels, u) == level_of(levels, bottom));
                    assert(es.contains(e1));
                }
            }
            assert(level_of(levels, w) > l) by {
                if level_of(levels, w) == l {
                    assert(level_of(levels, w) == level_of(levels, bottom));
                    assert(es.contains(e2));
                }
            }
            assert(es.contains(e1) && es.contains(e2) && is_valley(levels, e1, e2));
            let high = at_least(es, levels, l + 1);
            let q = choose|q: Seq<Edge>|
                is_path(high, q, u, w) && path_cost(q) <= (e1.cost + e2.cost) as nat;
            let (a2, qu, qd) = lemma_up_down(es, levels, l + 1, u, w, q);
            let before = down.drop_last();
            let after = up.drop_first();
            lemma_down_floor(es, levels, l, before, x, u, l + 1);
            lemma_up_floor(es, levels, l, after, w, y, l + 1);
            let (a3, ru, rd) = lemma_valley(es, levels, l + 1, x, u, a2, before, qu);
            let (a4, su, sd) = lemma_valley(es, levels, l + 1, a2, w, y, qd, after);
            let (a5, tu, td) = lemma_valley(es, levels, l + 1, a3, a2, a4, rd, su);
            let ups1 = upward(es, levels, l + 1);
            let downs1 = downward(es, levels, l + 1);
            lemma_path_concat(ups1, ru, tu, x, a3, a5);
            lemma_path_concat(downs1, td, sd, a5, a4, y);
            lemma_up_down_lower(
                es,
                levels,
                l,
                x,
                y,
                path_cost(down) + path_cost(up),
                a5,
                ru + tu,
                td + sd,
            );
            (a5, ru + tu, td + sd)
        }
    }
}

/// A path over nodes at level `l` or above, cheaper than `u32::MAX`, has an
/// up-down path beside it that costs no more.
pub proof fn lemma_up_down(
    es: Set<Edge>,
    levels: Seq<u32>,
    l: int,
    s: u32,
    t: u32,
    p: Seq<Edge>,
) -> (r: (u32, Seq<Edge>, Seq<Edge>))
    requires
        well_ranked(es, levels),
        witnessed(es, levels),
        0 <= l <= u32::MAX,
        is_path(at_least(es, levels, l), p, s, t),
        path_cost(p) < u32::MAX,
    ensures
        is_up_down(es, levels, l, s, t, path_cost(p), r.0, r.1, r.2),
    decreases u32::MAX - l, 1 + p.len(),
{
    let none = Seq::<Edge>::empty();
    let ups = upward(es, levels, l);
    let downs = downward(es, levels, l);
    if p.len() == 0 {
        lemma_empty_path(ups, s);
        lemma_empty_path(downs, s);
        (s, none, none)
    } else {
        lemma_path_drop_last(at_least(es, levels, l), p, s, t);
        let e = p.last();
        let (a, qu, qd) = lemma_up_down(es, levels, l, s, e.source, p.drop_last());
        if level_of(levels, e.source) <= level_of(levels, e.target) {
            lemma_single_edge(ups, e);
            let (b, ru, rd) = lemma_valley(es, levels, l, a, e.source, t, qd, seq![e]);
            lemma_path_concat(ups, qu, ru, s, a, b);
            (b, qu + ru, rd)
        } else {
            lemma_path_push(downs, qd, a, e);
            (a, qu, qd.push(e))
        }
    }
}

/// Where `ys` covers `xs`, a path of `xs` over nodes at level `l` or above
/// has a path of `ys` beside it, over such nodes and no dearer.
pub proof fn lemma_covered_path(
    xs: Set<Edge>,
    ys: Set<Edge>,
    levels: Seq<u32>,
    l: int,
    p: Seq<Edge>,
    s: u32,
    t: u32,
) -> (q: Seq<Edge>)
    requires
        covers(ys, xs),
        is_path(at_least(xs, levels, l), p, s, t),
    ensures
        is_path(at_least(ys, levels, l), q, s, t),
        path_cost(q) <= path_cost(p),
    decreases p.len(),
{
    if p.len() == 0 {
        lemma_empty_path(at_least(ys, levels, l), s);
        p
    } else {
        lemma_path_drop_last(at_least(xs, levels, l), p, s, t);
        let e = p.last();
        let q = lemma_covered_path(xs, ys, levels, l, p.drop_last(), s, e.source);
        if e.source == e.target {
            q
        } else {
            assert(xs.contains(e));
            let f = choose|f: Edge| #[trigger]
                ys.contains(f) && f.source == e.source && f.target == e.target && f.cost
                    <= e.cost;
            assert(at_least(ys, levels, l).contains(f));
            lemma_path_push(at_least(ys, levels, l), q, s, f);
            q.push(f)
        }
    }
}

/// Every edge of a set joins nodes at level zero or above.
pub proof fn lemma_at_least_zero(es: Set<Edge>, levels: Seq<u32>)
    ensures
        at_least(es, levels, 0) == es,
{
    assert(at_least(es, levels, 0) =~= es);
}

/// Where every edge of `ys` stands for a path of `xs` at its cost, a path of
/// `ys` stands for a path of `xs` at its cost.
pub proof fn lemma_expanded_path(xs: Set<Edge>, ys: Set<Edge>, p: Seq<Edge>, s: u32, t: u32)
    requires
        forall|e: Edge| #[trigger]
            ys.contains(e) ==> reaches(xs, e.source, e.target, e.cost as nat),
        is_path(ys, p, s, t),
    ensures
        reaches(xs, s, t, path_cost(p)),
    decreases p.len(),
{
    if p.len() == 0 {
        lemma_empty_path(xs, s);
    } else {
        lemma_path_drop_last(ys, p, s, t);
        let e = p.last();
        lemma_expanded_path(xs, ys, p.drop_last(), s, e.source);
        let a = choose|a: Seq<Edge>|
            is_path(xs, a, s, e.source) && path_cost(a) == path_cost(p.drop_last());
        let b = choose|b: Seq<Edge>|
            is_path(xs, b, e.source, e.target) && path_cost(b) == e.cost as nat;
        lemma_path_concat(xs, a, b, s, e.source, t);
    }
}

} // verus!
