//! What contraction keeps true from node to node, and why the hierarchy that
//! it leaves behind preserves the cost of every cheapest path.

use crate::bidirectional_graph::without_node;
use crate::graph::Edge;
use crate::hierarchy::at_least;
use crate::hierarchy::covers;
use crate::hierarchy::downward;
use crate::hierarchy::is_valley;
use crate::hierarchy::lemma_at_least_zero;
use crate::hierarchy::lemma_covered_path;
use crate::hierarchy::lemma_up_down;
use crate::hierarchy::upward;
use crate::hierarchy::well_ranked;
use crate::hierarchy::witnessed;
use crate::paths::avoiding;
use crate::paths::is_path;
use crate::paths::lemma_path_concat;
use crate::paths::lemma_path_drop_last;
use crate::paths::lemma_path_push;
use crate::paths::lemma_path_subset;
use crate::paths::lemma_single_edge;
use crate::paths::path_cost;
use crate::paths::reaches;
use crate::paths::reaches_within;
use crate::rows::level_of;
use crate::shortcut_generator::all_shortcuts;
use crate::shortcut_generator::lemma_all_shortcuts;
use crate::shortcut_generator::lemma_all_shortcuts_has;
use crate::shortcut_generator::needs_shortcut;
use crate::shortcut_generator::shortcut;
use vstd::prelude::*;

verus! {

/// The edges of `es` between nodes that have not been contracted.
pub open spec fn among_live(es: Set<Edge>, levels: Seq<u32>) -> Set<Edge> {
    Set::new(
        |e: Edge|
            es.contains(e) && level_of(levels, e.source) == u32::MAX && level_of(
                levels,
                e.target,
            ) == u32::MAX,
    )
}

/// The edge `e` stands for `e1` followed by `e2`, which meet in a node that
/// lies below both ends of `e`.
pub open spec fn is_bridge(levels: Seq<u32>, e1: Edge, e2: Edge, e: Edge) -> bool {
    &&& e1.target == e2.source
    &&& e1.source == e.source
    &&& e2.target == e.target
    &&& e.cost == e1.cost + e2.cost
    &&& level_of(levels, e1.target) < level_of(levels, e.source)
    &&& level_of(levels, e1.target) < level_of(levels, e.target)
}

/// The edge `e` stands for two edges of `es` that meet in a node that was
/// contracted before both ends of `e`.
pub open spec fn bridges(es: Set<Edge>, levels: Seq<u32>, e: Edge) -> bool {
    exists|e1: Edge, e2: Edge|
        #[trigger] es.contains(e1) && #[trigger] es.contains(e2) && is_bridge(levels, e1, e2, e)
}

/// What holds between two contractions: `base` are the edges that
/// contraction started from, `added` the shortcuts so far, `next` the level
/// that the next node gets.
pub open spec fn contracting(
    base: Set<Edge>,
    added: Set<Edge>,
    levels: Seq<u32>,
    next: int,
) -> bool {
    &&& 0 <= next <= u32::MAX
    // every edge joins two different nodes of the graph
    &&& forall|e: Edge| #[trigger]
        (base + added).contains(e) ==> e.source < levels.len() && e.target < levels.len()
            && e.source != e.target
    // the levels given out so far are below `next`, each to one node
    &&& forall|v: u32|
        #[trigger] level_of(levels, v) == u32::MAX || level_of(levels, v) < next
    &&& forall|x: u32, y: u32|
        #[trigger] level_of(levels, x) == #[trigger] level_of(levels, y) && level_of(levels, x)
            < u32::MAX ==> x == y
    // every shortcut stands for a path of the base at its cost
    &&& forall|e: Edge| #[trigger]
        added.contains(e) ==> reaches(base, e.source, e.target, e.cost as nat)
    // every shortcut bridges a node that was contracted before its ends
    &&& forall|e: Edge| #[trigger] added.contains(e) ==> bridges(base + added, levels, e)
    &&& witnessed(base + added, levels)
}

/// Some up-down path leads from `s` to `t` at a cost of at most `c`.
pub open spec fn has_up_down(ups: Set<Edge>, downs: Set<Edge>, s: u32, t: u32, c: nat) -> bool {
    exists|apex: u32, up: Seq<Edge>, down: Seq<Edge>| #[trigger]
        is_path(ups, up, s, apex) && #[trigger] is_path(downs, down, apex, t) && path_cost(up)
            + path_cost(down) <= c
}

/// `ups` and `downs` are the two sides of a hierarchy over `base`: each of
/// their edges stands for a path of `base` at its cost, and every path of
/// `base` that is cheaper than `u32::MAX` has an up-down path beside it that
/// costs no more.
pub open spec fn hierarchy_of(base: Set<Edge>, ups: Set<Edge>, downs: Set<Edge>) -> bool {
    &&& forall|e: Edge| #[trigger]
        ups.contains(e) ==> reaches(base, e.source, e.target, e.cost as nat)
    &&& forall|e: Edge| #[trigger]
        downs.contains(e) ==> reaches(base, e.source, e.target, e.cost as nat)
    &&& forall|s: u32, t: u32, p: Seq<Edge>| #[trigger]
        is_path(base, p, s, t) && path_cost(p) < u32::MAX ==> has_up_down(
            ups,
            downs,
            s,
            t,
            path_cost(p),
        )
}

/// Before any node is contracted nothing has to be witnessed.
pub proof fn lemma_contracting_start(base: Set<Edge>, levels: Seq<u32>)
    requires
        forall|e: Edge| #[trigger]
            base.contains(e) ==> e.source < levels.len() && e.target < levels.len() && e.source
                != e.target,
        forall|v: int| 0 <= v < levels.len() ==> #[trigger] levels[v] == u32::MAX,
    ensures
        contracting(base, Set::<Edge>::empty(), levels, 0),
        among_live(base + Set::<Edge>::empty(), levels) == base,
{
    assert(base + Set::<Edge>::empty() =~= base);
    assert(among_live(base, levels) =~= base);
}

/// A path that keeps clear of `v` and does not start there does not touch
/// `v`.
pub proof fn lemma_avoiding_path(es: Set<Edge>, v: u32, p: Seq<Edge>, s: u32, t: u32)
    requires
        is_path(avoiding(es, v), p, s, t),
        s != v,
    ensures
        is_path(without_node(es, v), p, s, t),
        t != v,
    decreases p.len(),
{
    if p.len() > 0 {
        lemma_path_drop_last(avoiding(es, v), p, s, t);
        let e = p.last();
        lemma_avoiding_path(es, v, p.drop_last(), s, e.source);
        lemma_path_push(without_node(es, v), p.drop_last(), s, e);
        assert(p.drop_last().push(e) =~= p);
    }
}

/// An edge that is a shortcut of the base, or an edge of the base, stands
/// for a path of the base at its cost.
pub proof fn lemma_edge_reaches(base: Set<Edge>, added: Set<Edge>, levels: Seq<u32>, next: int,
    e: Edge)
    requires
        contracting(base, added, levels, next),
        (base + added).contains(e),
    ensures
        reaches(base, e.source, e.target, e.cost as nat),
{
    if base.contains(e) {
        lemma_single_edge(base, e);
    }
}

/// Contracting the live node `v` keeps the invariant: the shortcuts that it
/// asks for join the added edges, and `v` gets the next level.
pub proof fn lemma_contract_node(
    base: Set<Edge>,
    added: Set<Edge>,
    levels: Seq<u32>,
    next: int,
    v: u32,
    ins: Seq<Edge>,
    outs: Seq<Edge>,
)
    requires
        contracting(base, added, levels, next),
        next < u32::MAX,
        v < levels.len(),
        levels[v as int] == u32::MAX,
        forall|e: Edge|
            ins.contains(e) <==> among_live(base + added, levels).contains(e) && e.target == v,
        forall|e: Edge|
            outs.contains(e) <==> among_live(base + added, levels).contains(e) && e.source == v,
    ensures
        contracting(
            base,
            added + all_shortcuts(among_live(base + added, levels), v, ins, outs).to_set(),
            levels.update(v as int, next as u32),
            next + 1,
        ),
        among_live(
            base + (added + all_shortcuts(
                among_live(base + added, levels),
                v,
                ins,
                outs,
            ).to_set()),
            levels.update(v as int, next as u32),
        ) == without_node(
            among_live(base + added, levels) + all_shortcuts(
                among_live(base + added, levels),
                v,
                ins,
                outs,
            ).to_set(),
            v,
        ),
{
    let all = base + added;
    let live = among_live(all, levels);
    let found_seq = all_shortcuts(live, v, ins, outs);
    let found = found_seq.to_set();
    let added2 = added + found;
    let all2 = base + added2;
    let levels2 = levels.update(v as int, next as u32);
    assert(all2 =~= all + found);
    // what a found shortcut is
    assert forall|e: Edge| #[trigger] found.contains(e) implies exists|i: int, j: int|
        0 <= i < ins.len() && 0 <= j < outs.len() && needs_shortcut(live, v, ins[i], outs[j])
            && e == shortcut(#[trigger] ins[i], #[trigger] outs[j]) by {
        assert(found_seq.contains(e));
        lemma_all_shortcuts(live, v, ins, outs, e);
    }
    // levels
    assert forall|x: u32| level_of(levels2, x) == (if x == v {
        next as u32
    } else {
        level_of(levels, x)
    }) by {}
    // a found shortcut joins two live nodes other than `v`, stands for a
    // path of the base, and is no loop
    assert forall|e: Edge| #[trigger] found.contains(e) implies e.source < levels.len()
        && e.target < levels.len() && e.source != e.target && e.source != v && e.target != v
        && level_of(levels, e.source) == u32::MAX && level_of(levels, e.target) == u32::MAX
        && reaches(base, e.source, e.target, e.cost as nat) by {
        let (i, j) = choose|i: int, j: int|
            0 <= i < ins.len() && 0 <= j < outs.len() && needs_shortcut(live, v, ins[i], outs[j])
                && e == shortcut(#[trigger] ins[i], #[trigger] outs[j]);
        let inn = ins[i];
        let out = outs[j];
        assert(ins.contains(inn) && outs.contains(out));
        assert(live.contains(inn) && live.contains(out));
        assert(all.contains(inn) && all.contains(out));
        if inn.source == out.target {
            crate::paths::lemma_empty_path(avoiding(live, v), inn.source);
            assert(is_path(avoiding(live, v), Seq::<Edge>::empty(), inn.source, out.target));
        }
        lemma_edge_reaches(base, added, levels, next, inn);
        lemma_edge_reaches(base, added, levels, next, out);
        let a = choose|a: Seq<Edge>|
            is_path(base, a, inn.source, inn.target) && path_cost(a) == inn.cost as nat;
        let b = choose|b: Seq<Edge>|
            is_path(base, b, out.source, out.target) && path_cost(b) == out.cost as nat;
        lemma_path_concat(base, a, b, inn.source, v, out.target);
    }
    assert forall|e: Edge| #[trigger] all2.contains(e) implies e.source < levels2.len()
        && e.target < levels2.len() && e.source != e.target by {
        if !found.contains(e) {
            assert(all.contains(e));
        }
    }
    assert forall|e: Edge| #[trigger] added2.contains(e) implies reaches(
        base,
        e.source,
        e.target,
        e.cost as nat,
    ) by {
        if !found.contains(e) {
            assert(added.contains(e));
        }
    }
    assert forall|e: Edge| #[trigger] added2.contains(e) implies bridges(all2, levels2, e) by {
        if found.contains(e) {
            let (i, j) = choose|i: int, j: int|
                0 <= i < ins.len() && 0 <= j < outs.len() && needs_shortcut(
                    live,
                    v,
                    ins[i],
                    outs[j],
                ) && e == shortcut(#[trigger] ins[i], #[trigger] outs[j]);
            let inn = ins[i];
            let out = outs[j];
            assert(ins.contains(inn) && outs.contains(out));
            assert(live.contains(inn) && live.contains(out));
            assert(all2.contains(inn) && all2.contains(out) && is_bridge(levels2, inn, out, e));
        } else {
            assert(added.contains(e));
            let (e1, e2) = choose|e1: Edge, e2: Edge|
                #[trigger] all.contains(e1) && #[trigger] all.contains(e2) && is_bridge(
                    levels,
                    e1,
                    e2,
                    e,
                );
            let b = e1.target;
            assert(level_of(levels, b) == u32::MAX || level_of(levels, b) < next);
            assert(all2.contains(e1) && all2.contains(e2) && is_bridge(levels2, e1, e2, e));
        }
    }
    assert forall|x: u32| #[trigger] level_of(levels2, x) == u32::MAX || level_of(levels2, x) < next
        + 1 by {
        assert(level_of(levels, x) == u32::MAX || level_of(levels, x) < next);
    }
    assert forall|x: u32, y: u32|
        #[trigger] level_of(levels2, x) == #[trigger] level_of(levels2, y) && level_of(levels2, x)
            < u32::MAX implies x == y by {
        assert(level_of(levels, x) == u32::MAX || level_of(levels, x) < next);
        assert(level_of(levels, y) == u32::MAX || level_of(levels, y) < next);
        if x != v && y != v {
            assert(level_of(levels, x) == level_of(levels, y));
        }
    }
    // the live edges
    assert(among_live(all2, levels2) =~= without_node(live + found, v)) by {
        assert forall|e: Edge| among_live(all2, levels2).contains(e) == without_node(
            live + found,
            v,
        ).contains(e) by {
            assert(level_of(levels, e.source) == u32::MAX || level_of(levels, e.source) < next);
            assert(level_of(levels, e.target) == u32::MAX || level_of(levels, e.target) < next);
            if found.contains(e) {
            } else if all2.contains(e) {
                assert(all.contains(e));
            }
        }
    }
    // the witnesses
    assert forall|e1: Edge, e2: Edge|
        #[trigger] all2.contains(e1) && #[trigger] all2.contains(e2) && is_valley(
            levels2,
            e1,
            e2,
        ) implies reaches_within(
        at_least(all2, levels2, level_of(levels2, e1.target) + 1),
        e1.source,
        e2.target,
        (e1.cost + e2.cost) as nat,
    ) by {
        let b = e1.target;
        let u = e1.source;
        let w = e2.target;
        assert(level_of(levels, u) == u32::MAX || level_of(levels, u) < next);
        assert(level_of(levels, w) == u32::MAX || level_of(levels, w) < next);
        assert(level_of(levels, b) == u32::MAX || level_of(levels, b) < next);
        if b == v {
            let high = at_least(all2, levels2, next + 1);
            assert(u != v && w != v);
            assert(level_of(levels, u) == u32::MAX && level_of(levels, w) == u32::MAX);
            assert(!found.contains(e1) && !found.contains(e2));
            assert(all.contains(e1) && all.contains(e2));
            assert(live.contains(e1) && live.contains(e2));
            assert(ins.contains(e1) && outs.contains(e2));
            let i = choose|i: int| 0 <= i < ins.len() && ins[i] == e1;
            let j = choose|j: int| 0 <= j < outs.len() && outs[j] == e2;
            if needs_shortcut(live, v, e1, e2) {
                lemma_all_shortcuts_has(live, v, ins, outs, i, j);
                let sc = shortcut(e1, e2);
                assert(found.contains(sc));
                assert(high.contains(sc));
                lemma_single_edge(high, sc);
                assert(is_path(high, seq![sc], u, w) && path_cost(seq![sc]) <= (e1.cost
                    + e2.cost) as nat);
            } else {
                let p = choose|p: Seq<Edge>| #[trigger]
                    is_path(avoiding(live, v), p, u, w) && !(path_cost(p) > e1.cost + e2.cost);
                lemma_avoiding_path(live, v, p, u, w);
                assert(without_node(live, v).subset_of(high)) by {
                    assert forall|f: Edge| without_node(live, v).contains(f) implies high.contains(
                        f,
                    ) by {
                        assert(all.contains(f));
                    }
                }
                lemma_path_subset(without_node(live, v), high, p, u, w);
                assert(is_path(high, p, u, w) && path_cost(p) <= (e1.cost + e2.cost) as nat);
            }
        } else {
            let beta = level_of(levels, b) as int;
            assert(level_of(levels2, b) == beta);
            assert(beta < next);
            assert(!found.contains(e1) && !found.contains(e2));
            assert(all.contains(e1) && all.contains(e2));
            assert(is_valley(levels, e1, e2));
            let old_high = at_least(all, levels, beta + 1);
            let high = at_least(all2, levels2, beta + 1);
            let q = choose|q: Seq<Edge>|
                is_path(old_high, q, u, w) && path_cost(q) <= (e1.cost + e2.cost) as nat;
            assert(old_high.subset_of(high)) by {
                assert forall|f: Edge| old_high.contains(f) implies high.contains(f) by {
                    assert(all2.contains(f));
                }
            }
            lemma_path_subset(old_high, high, q, u, w);
            assert(is_path(high, q, u, w) && path_cost(q) <= (e1.cost + e2.cost) as nat);
        }
    }
}

/// Every edge stands beside a cheapest edge between the same two nodes.
pub proof fn lemma_cheapest_covers(es: Set<Edge>, e: Edge) -> (f: Edge)
    requires
        es.contains(e),
    ensures
        crate::graph_cleaner::cheapest_of(es).contains(f),
        f.source == e.source,
        f.target == e.target,
        f.cost <= e.cost,
    decreases e.cost,
{
    if crate::graph_cleaner::cheapest_of(es).contains(e) {
        e
    } else {
        let g = choose|g: Edge|
            es.contains(g) && crate::graph_cleaner::same_ends(g, e) && !(e.cost <= g.cost);
        lemma_cheapest_covers(es, g)
    }
}

/// The cleaned edges of a set are among its edges and cover it.
pub proof fn lemma_cleaned_covers(es: Set<Edge>)
    ensures
        crate::graph_cleaner::loop_free(crate::graph_cleaner::cheapest_of(es)).subset_of(es),
        covers(crate::graph_cleaner::loop_free(crate::graph_cleaner::cheapest_of(es)), es),
{
    let cleaned = crate::graph_cleaner::loop_free(crate::graph_cleaner::cheapest_of(es));
    assert forall|e: Edge| #[trigger] es.contains(e) && e.source != e.target implies exists|
        f: Edge,
    | #[trigger]
        cleaned.contains(f) && f.source == e.source && f.target == e.target && f.cost
            <= e.cost by {
        let f = lemma_cheapest_covers(es, e);
        assert(cleaned.contains(f));
    }
}

/// Where `kept` holds, for every edge that contraction knows, the cheapest
/// between its two nodes, the upward and the downward edges of `kept` are
/// the two sides of a hierarchy over the graph that `base` was cleaned from.
pub proof fn lemma_hierarchy(
    original: Set<Edge>,
    base: Set<Edge>,
    added: Set<Edge>,
    levels: Seq<u32>,
    next: int,
    kept: Set<Edge>,
)
    requires
        contracting(base, added, levels, next),
        base.subset_of(original),
        covers(base, original),
        kept.subset_of(base + added),
        covers(kept, base + added),
    ensures
        hierarchy_of(original, upward(kept, levels, 0), downward(kept, levels, 0)),
{
    let all = base + added;
    let ups = upward(kept, levels, 0);
    let downs = downward(kept, levels, 0);
    assert forall|e: Edge| #[trigger] kept.contains(e) implies reaches(
        original,
        e.source,
        e.target,
        e.cost as nat,
    ) by {
        assert(all.contains(e));
        lemma_edge_reaches(base, added, levels, next, e);
        let p = choose|p: Seq<Edge>|
            is_path(base, p, e.source, e.target) && path_cost(p) == e.cost as nat;
        lemma_path_subset(base, original, p, e.source, e.target);
    }
    // the kept edges are well ranked and witnessed
    assert(well_ranked(kept, levels)) by {
        assert forall|e: Edge| #[trigger] kept.contains(e) implies e.source != e.target by {
            assert(all.contains(e));
        }
    }
    assert(witnessed(kept, levels)) by {
        assert forall|e1: Edge, e2: Edge|
            #[trigger] kept.contains(e1) && #[trigger] kept.contains(e2) && is_valley(
                levels,
                e1,
                e2,
            ) implies reaches_within(
            at_least(kept, levels, level_of(levels, e1.target) + 1),
            e1.source,
            e2.target,
            (e1.cost + e2.cost) as nat,
        ) by {
            assert(all.contains(e1) && all.contains(e2));
            let l = level_of(levels, e1.target) + 1;
            let q = choose|q: Seq<Edge>|
                is_path(at_least(all, levels, l), q, e1.source, e2.target) && path_cost(q) <= (
                e1.cost + e2.cost) as nat;
            let r = lemma_covered_path(all, kept, levels, l, q, e1.source, e2.target);
            assert(is_path(at_least(kept, levels, l), r, e1.source, e2.target) && path_cost(r)
                <= (e1.cost + e2.cost) as nat);
        }
    }
    assert forall|s: u32, t: u32, p: Seq<Edge>| #[trigger]
        is_path(original, p, s, t) && path_cost(p) < u32::MAX implies has_up_down(
        ups,
        downs,
        s,
        t,
        path_cost(p),
    ) by {
        lemma_at_least_zero(original, levels);
        lemma_at_least_zero(base, levels);
        lemma_at_least_zero(all, levels);
        lemma_at_least_zero(kept, levels);
        let p1 = lemma_covered_path(original, base, levels, 0, p, s, t);
        lemma_path_subset(base, all, p1, s, t);
        let p2 = lemma_covered_path(all, kept, levels, 0, p1, s, t);
        let (apex, up, down) = lemma_up_down(kept, levels, 0, s, t, p2);
        assert(is_path(ups, up, s, apex) && is_path(downs, down, apex, t) && path_cost(up)
            + path_cost(down) <= path_cost(p));
    }
}

} // verus!
