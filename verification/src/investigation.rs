//! Looking into a graph: which nodes are crossings, and which nodes can be
//! reached from a node.

use crate::bidirectional_graph::BidirectionalGraph;
use crate::dijkstra_helper::DijkstraHelper;
use crate::graph::Edge;
use crate::hashing::map_get;
use crate::paths::is_path;
use crate::paths::path_cost;
use crate::paths::reaches_within;
use vstd::prelude::*;

verus! {

/// An edge of `out` ends in `w`, or an edge of `inc` starts at `w`.
pub open spec fn joined(out: Seq<Edge>, inc: Seq<Edge>, w: u32) -> bool {
    (exists|i: int| 0 <= i < out.len() && (#[trigger] out[i]).target == w) || (exists|i: int|
        0 <= i < inc.len() && (#[trigger] inc[i]).source == w)
}

/// `found` are the numbers below `n` that `wanted` holds of, in rising
/// order.
pub open spec fn picks_all(found: Seq<u32>, n: nat, wanted: spec_fn(u32) -> bool) -> bool {
    &&& forall|i: int| 0 <= i < found.len() ==> #[trigger] found[i] < n && wanted(found[i])
    &&& forall|i: int, j: int| 0 <= i < j < found.len() ==> found[i] < found[j]
    &&& forall|v: u32| v < n && wanted(v) ==> #[trigger] found.contains(v)
}

/// Whether an edge of `row` ends in `w`, or starts at `w` if `by_source` is
/// set.
fn row_touches(row: &Vec<Edge>, w: u32, by_source: bool) -> (found: bool)
    ensures
        found == (exists|i: int|
            0 <= i < row@.len() && (if by_source {
                (#[trigger] row@[i]).source
            } else {
                row@[i].target
            }) == w),
{
    let mut i: usize = 0;
    while i < row.len()
        invariant
            0 <= i <= row@.len(),
            forall|j: int|
                0 <= j < i ==> (if by_source {
                    (#[trigger] row@[j]).source
                } else {
                    row@[j].target
                }) != w,
        decreases row@.len() - i,
    {
        let end = if by_source {
            row[i].source
        } else {
            row[i].target
        };
        if end == w {
            return true;
        }
        i += 1;
    }
    false
}

/// How many nodes are joined to `v` by an edge, in either direction: each
/// counted once.
pub open spec fn neighbors(store: BidirectionalGraph, v: u32, below: nat) -> nat
    decreases below,
{
    if below == 0 {
        0
    } else {
        neighbors(store, v, (below - 1) as nat) + (if joined(
            store.out()[v as int],
            store.inc()[v as int],
            (below - 1) as u32,
        ) {
            1nat
        } else {
            0nat
        })
    }
}

/// The number of nodes that are joined to `v` by an edge.
pub fn count_neighbors(graph: &BidirectionalGraph, v: u32) -> (count: usize)
    requires
        graph.wf(),
        v < graph.nodes(),
    ensures
        count == neighbors(*graph, v, graph.nodes()),
{
    let n = graph.outgoing_edges.len();
    let mut count: usize = 0;
    let mut w: usize = 0;
    while w < n
        invariant
            0 <= w <= n,
            graph.wf(),
            n == graph.nodes(),
            v < n,
            count <= w,
            count == neighbors(*graph, v, w as nat),
        decreases n - w,
    {
        let out = row_touches(&graph.outgoing_edges[v as usize], w as u32, false);
        let inc = row_touches(&graph.incoming_edges[v as usize], w as u32, true);
        if out || inc {
            count += 1;
        }
        w += 1;
    }
    count
}

/// The crossings: the nodes that are joined to at least `degree` nodes.
pub fn find_intersections(graph: &BidirectionalGraph, degree: usize) -> (found: Vec<u32>)
    requires
        graph.wf(),
    ensures
        picks_all(
            found@,
            graph.nodes(),
            |v: u32| neighbors(*graph, v, graph.nodes()) >= degree,
        ),
{
    let n = graph.outgoing_edges.len();
    let ghost wanted = |v: u32| neighbors(*graph, v, graph.nodes()) >= degree;
    let mut found: Vec<u32> = Vec::new();
    let mut v: usize = 0;
    while v < n
        invariant
            0 <= v <= n,
            graph.wf(),
            n == graph.nodes(),
            wanted == (|v: u32| neighbors(*graph, v, graph.nodes()) >= degree),
            picks_all(found@, v as nat, wanted),
        decreases n - v,
    {
        let ghost before = found@;
        if count_neighbors(graph, v as u32) >= degree {
            found.push(v as u32);
            proof {
                assert forall|w: u32| w < v + 1 && wanted(w) implies #[trigger] found@.contains(
                    w,
                ) by {
                    if w < v {
                        assert(before.contains(w));
                        let i = choose|i: int| 0 <= i < before.len() && before[i] == w;
                        assert(found@[i] == w);
                    } else {
                        assert(found@[before.len() as int] == w);
                    }
                }
            }
        }
        v += 1;
    }
    found
}

/// The nodes that a path from `source` reaches at a cost below `u32::MAX`,
/// if `reachable` is set; else the nodes that none reaches.
pub fn find_by_reach(graph: &BidirectionalGraph, source: u32, reachable: bool) -> (found: Vec<u32>)
    requires
        graph.wf(),
        source < graph.nodes(),
    ensures
        picks_all(
            found@,
            graph.nodes(),
            |v: u32|
                reaches_within(graph.out_edges(), source, v, (u32::MAX - 1) as nat) == reachable,
        ),
{
    let n = graph.outgoing_edges.len();
    let ghost es = graph.out_edges();
    let ghost wanted = |v: u32| reaches_within(es, source, v, (u32::MAX - 1) as nat) == reachable;
    let costs = DijkstraHelper::new(graph).single_source(source);
    let mut found: Vec<u32> = Vec::new();
    let mut v: usize = 0;
    while v < n
        invariant
            0 <= v <= n,
            n == graph.nodes(),
            n <= u32::MAX + 1,
            es == graph.out_edges(),
            wanted == (|v: u32|
                reaches_within(es, source, v, (u32::MAX - 1) as nat) == reachable),
            crate::dijkstra_helper::is_cost_table(es, source, (u32::MAX - 1) as u32, costs@),
            picks_all(found@, v as nat, wanted),
        decreases n - v,
    {
        let ghost before = found@;
        let reached = map_get(&costs, v as u32).is_some();
        proof {
            let w = v as u32;
            if reached {
                let p = choose|p: Seq<Edge>|
                    is_path(es, p, source, w) && path_cost(p) == costs@[w] as nat;
                assert(is_path(es, p, source, w) && path_cost(p) <= (u32::MAX - 1) as nat);
            } else if reaches_within(es, source, w, (u32::MAX - 1) as nat) {
                let p = choose|p: Seq<Edge>|
                    is_path(es, p, source, w) && path_cost(p) <= (u32::MAX - 1) as nat;
                assert(costs@.contains_key(w));
            }
            assert(reached == reaches_within(es, source, w, (u32::MAX - 1) as nat));
        }
        if reached == reachable {
            found.push(v as u32);
            proof {
                assert forall|w: u32| w < v + 1 && wanted(w) implies #[trigger] found@.contains(
                    w,
                ) by {
                    if w < v {
                        assert(before.contains(w));
                        let i = choose|i: int| 0 <= i < before.len() && before[i] == w;
                        assert(found@[i] == w);
                    } else {
                        assert(found@[before.len() as int] == w);
                    }
                }
            }
        }
        v += 1;
    }
    found
}

/// The nodes that a path from `source` reaches at a cost below `u32::MAX`.
pub fn find_reachable(graph: &BidirectionalGraph, source: u32) -> (found: Vec<u32>)
    requires
        graph.wf(),
        source < graph.nodes(),
    ensures
        picks_all(
            found@,
            graph.nodes(),
            |v: u32| reaches_within(graph.out_edges(), source, v, (u32::MAX - 1) as nat) == true,
        ),
{
    find_by_reach(graph, source, true)
}

/// The nodes that no path from `source` reaches at a cost below `u32::MAX`.
pub fn find_unreachable(graph: &BidirectionalGraph, source: u32) -> (found: Vec<u32>)
    requires
        graph.wf(),
        source < graph.nodes(),
    ensures
        picks_all(
            found@,
            graph.nodes(),
            |v: u32| reaches_within(graph.out_edges(), source, v, (u32::MAX - 1) as nat) == false,
        ),
{
    find_by_reach(graph, source, false)
}

} // verus!
