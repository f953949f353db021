//! What the parts of the library mean for each other: the query over a
//! hierarchy against the graph that the hierarchy was built from, and the
//! cleanup passes against themselves.

use crate::ch_dijkstra::is_meeting_distance;
use crate::ch_dijkstra::no_cheaper_meeting;
use crate::contraction::has_up_down;
use crate::contraction::hierarchy_of;
use crate::contractor::Contractor;
use crate::contractor::is_hierarchy;
use crate::contractor::left_by;
use crate::course::Outcome;
use crate::course::outcome;
use crate::graph::Edge;
use crate::graph_cleaner::cleaned;
use crate::graph_cleaner::lemma_cleaned_twice;
use crate::graph_cleaner::no_loop;
use crate::graph_cleaner::unique_ends;
use crate::hierarchy::lemma_expanded_path;
use crate::paths::inverted;
use crate::paths::is_distance;
use crate::paths::is_path;
use crate::paths::lemma_inverted_twice;
use crate::paths::lemma_path_concat;
use crate::paths::lemma_reversed_path;
use crate::paths::path_cost;
use crate::paths::reaches;
use crate::paths::reversed;
use crate::queue::Weights;
use crate::rows::edges_by_source;
use crate::rows::edges_by_target;
use crate::rows::level_of;
use vstd::prelude::*;

verus! {

/// The cost that a query over a hierarchy finds is the cost of a cheapest
/// path in the graph that the hierarchy was built from: where a way up the
/// one side and down the other is the cheapest such way, no path of the
/// graph is cheaper, and one costs as much.
pub proof fn lemma_query_finds_distance(
    original: Set<Edge>,
    ups: Set<Edge>,
    downs: Set<Edge>,
    s: u32,
    t: u32,
    d: nat,
)
    requires
        hierarchy_of(original, ups, downs),
        is_meeting_distance(ups, inverted(downs), s, t, d),
        d < u32::MAX,
    ensures
        is_distance(original, s, t, d),
{
    let back = inverted(downs);
    let (v, a, b) = choose|v: u32, a: nat, b: nat| #[trigger]
        reaches(ups, s, v, a) && #[trigger] reaches(back, t, v, b) && a + b == d;
    let p = choose|p: Seq<Edge>| is_path(ups, p, s, v) && path_cost(p) == a;
    let q = choose|q: Seq<Edge>| is_path(back, q, t, v) && path_cost(q) == b;
    lemma_reversed_path(back, q, t, v);
    lemma_inverted_twice(downs);
    lemma_expanded_path(original, ups, p, s, v);
    lemma_expanded_path(original, downs, reversed(q), v, t);
    let x = choose|x: Seq<Edge>| is_path(original, x, s, v) && path_cost(x) == path_cost(p);
    let y = choose|y: Seq<Edge>|
        is_path(original, y, v, t) && path_cost(y) == path_cost(reversed(q));
    lemma_path_concat(original, x, y, s, v, t);
    assert(is_path(original, x + y, s, t) && path_cost(x + y) == d);
    assert forall|r: Seq<Edge>| #[trigger] is_path(original, r, s, t) implies d <= path_cost(r) by {
        if path_cost(r) < u32::MAX {
            lemma_path_meets(original, ups, downs, s, t, r, d);
        }
    }
}

/// Where no way up the one side of a hierarchy and down the other is cheaper
/// than `bound`, no path of the graph that the hierarchy was built from, if
/// it is cheaper than `u32::MAX`, is cheaper than `bound`.
pub proof fn lemma_path_meets(
    original: Set<Edge>,
    ups: Set<Edge>,
    downs: Set<Edge>,
    s: u32,
    t: u32,
    r: Seq<Edge>,
    bound: nat,
)
    requires
        hierarchy_of(original, ups, downs),
        no_cheaper_meeting(ups, inverted(downs), s, t, bound),
        is_path(original, r, s, t),
        path_cost(r) < u32::MAX,
    ensures
        bound <= path_cost(r),
{
    assert(has_up_down(ups, downs, s, t, path_cost(r)));
    let (apex, up, down) = choose|apex: u32, up: Seq<Edge>, down: Seq<Edge>| #[trigger]
        is_path(ups, up, s, apex) && #[trigger] is_path(downs, down, apex, t) && path_cost(up)
            + path_cost(down) <= path_cost(r);
    lemma_reversed_path(downs, down, apex, t);
    assert(is_path(ups, up, s, apex) && is_path(inverted(downs), reversed(down), t, apex));
}

/// Where a query over a hierarchy finds no way, the graph that the hierarchy
/// was built from has no path between the two nodes at a cost below
/// `u32::MAX`.
pub proof fn lemma_query_finds_none(
    original: Set<Edge>,
    ups: Set<Edge>,
    downs: Set<Edge>,
    s: u32,
    t: u32,
)
    requires
        hierarchy_of(original, ups, downs),
        no_cheaper_meeting(ups, inverted(downs), s, t, u32::MAX as nat),
    ensures
        forall|p: Seq<Edge>| #[trigger] is_path(original, p, s, t) ==> path_cost(p) >= u32::MAX,
{
    assert forall|p: Seq<Edge>| #[trigger] is_path(original, p, s, t) implies path_cost(p)
        >= u32::MAX by {
        if path_cost(p) < u32::MAX {
            lemma_path_meets(original, ups, downs, s, t, p, u32::MAX as nat);
        }
    }
}

/// In a finished hierarchy every edge of the outgoing lists leads to a node
/// that is at least as high as its source, and every edge of the incoming
/// lists comes from a node that is at least as high as its target.
pub proof fn lemma_levels_monotone(
    original: Set<Edge>,
    shortcuts: Seq<Edge>,
    levels: Seq<u32>,
    out: Seq<Seq<Edge>>,
    inc: Seq<Seq<Edge>>,
)
    requires
        is_hierarchy(original, shortcuts, levels, out, inc),
    ensures
        forall|e: Edge| #[trigger]
            edges_by_source(out).contains(e) ==> level_of(levels, e.source) <= level_of(
                levels,
                e.target,
            ),
        forall|e: Edge| #[trigger]
            edges_by_target(inc).contains(e) ==> level_of(levels, e.source) >= level_of(
                levels,
                e.target,
            ),
{
}

/// A finished hierarchy holds no edge from a node to itself, and in no list
/// two edges between the same two nodes.
pub proof fn lemma_hierarchy_is_clean(
    original: Set<Edge>,
    shortcuts: Seq<Edge>,
    levels: Seq<u32>,
    out: Seq<Seq<Edge>>,
    inc: Seq<Seq<Edge>>,
)
    requires
        is_hierarchy(original, shortcuts, levels, out, inc),
    ensures
        forall|e: Edge| #[trigger] edges_by_source(out).contains(e) ==> e.source != e.target,
        forall|e: Edge| #[trigger] edges_by_target(inc).contains(e) ==> e.source != e.target,
        forall|u: int| 0 <= u < out.len() ==> unique_ends(#[trigger] out[u]),
        forall|v: int| 0 <= v < inc.len() ==> unique_ends(#[trigger] inc[v]),
{
}

/// A cleaned list holds no edge from a node to itself and no two edges
/// between the same two nodes, and cleaning it again changes nothing.
pub proof fn lemma_cleanup_idempotent(row: Seq<Edge>)
    ensures
        cleaned(cleaned(row)) == cleaned(row),
        unique_ends(cleaned(row)),
        forall|i: int| 0 <= i < cleaned(row).len() ==> no_loop(#[trigger] cleaned(row)[i]),
{
    lemma_cleaned_twice(row);
}

/// Contracting the same graph twice, under the same weights and for the
/// same number of nodes, leaves the same shortcuts, the same levels and the
/// same lists: nothing else has a say, and least of all the seed of the
/// shuffle.
pub proof fn lemma_contraction_repeats(
    first: Outcome,
    second: Outcome,
    weights: Weights,
    out: Seq<Seq<Edge>>,
    inc: Seq<Seq<Edge>>,
    budget: nat,
)
    requires
        first == outcome(weights, out, inc, budget),
        second == outcome(weights, out, inc, budget),
    ensures
        first.shortcuts == second.shortcuts,
        first.levels == second.levels,
        first.out == second.out,
        first.inc == second.inc,
{
}

/// Two contractions of the same graph under the same weights that both went
/// on until no node waited leave the same shortcuts, the same levels and
/// the same lists, whatever the seed of the shuffle was and however long
/// each of them took.
pub proof fn lemma_full_contraction_repeats(
    first: Contractor,
    first_found: Seq<Edge>,
    second: Contractor,
    second_found: Seq<Edge>,
    weights: Weights,
    out: Seq<Seq<Edge>>,
    inc: Seq<Seq<Edge>>,
)
    requires
        left_by(first, first_found) == outcome(weights, out, inc, first.contracted()),
        left_by(second, second_found) == outcome(weights, out, inc, second.contracted()),
        first.store().nodes() == out.len(),
        second.store().nodes() == out.len(),
        first.queue().entries().len() == 0,
        second.queue().entries().len() == 0,
    ensures
        first_found == second_found,
        first.levels() == second.levels(),
        first.store().out() == second.store().out(),
        first.store().inc() == second.store().inc(),
{
}

} // verus!
