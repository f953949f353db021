//! Which shortcuts the contraction of a node asks for.

use crate::bidirectional_graph::BidirectionalGraph;
use crate::dijkstra_helper::DijkstraHelper;
use crate::dijkstra_helper::cost_limit;
use crate::dijkstra_helper::is_cost_table;
use crate::graph::Edge;
use crate::hashing::map_get;
use crate::paths::avoiding;
use crate::paths::is_distance;
use crate::paths::is_path;
use crate::paths::path_cost;
use crate::paths::reaches;
use crate::rows::kept;
use vstd::prelude::*;

verus! {

/// The way from the source of `inn` over `via` to the target of `out` has a
/// cost below `u32::MAX`, and every path between the two that keeps clear of
/// `via` costs more. A path of the same cost is a witness: it asks for no
/// shortcut.
pub open spec fn needs_shortcut(es: Set<Edge>, via: u32, inn: Edge, out: Edge) -> bool {
    &&& inn.cost + out.cost < u32::MAX
    &&& forall|p: Seq<Edge>| #[trigger]
        is_path(avoiding(es, via), p, inn.source, out.target) ==> path_cost(p) > inn.cost
            + out.cost
}

/// The edge that stands for `inn` followed by `out`.
pub open spec fn shortcut(inn: Edge, out: Edge) -> Edge {
    Edge { source: inn.source, target: out.target, cost: (inn.cost + out.cost) as u32 }
}

/// The shortcuts that `inn` asks for, one for each edge of `outs` that needs
/// one, in the order of `outs`.
pub open spec fn shortcuts_through(es: Set<Edge>, via: u32, inn: Edge, outs: Seq<Edge>) -> Seq<
    Edge,
>
    decreases outs.len(),
{
    if outs.len() == 0 {
        Seq::empty()
    } else if needs_shortcut(es, via, inn, outs.last()) {
        shortcuts_through(es, via, inn, outs.drop_last()).push(shortcut(inn, outs.last()))
    } else {
        shortcuts_through(es, via, inn, outs.drop_last())
    }
}

/// The shortcuts that the edges of `ins` ask for, in the order of `ins`.
pub open spec fn all_shortcuts(es: Set<Edge>, via: u32, ins: Seq<Edge>, outs: Seq<Edge>) -> Seq<
    Edge,
>
    decreases ins.len(),
{
    if ins.len() == 0 {
        Seq::empty()
    } else {
        all_shortcuts(es, via, ins.drop_last(), outs) + shortcuts_through(
            es,
            via,
            ins.last(),
            outs,
        )
    }
}

/// Two paths that keep clear of `via`, one from the source of `s` to the
/// source of `e` and one from the target of `e` to the target of `s`, make
/// with `e` between them a way that is cheaper than `s`.
pub open spec fn beaten_by(es: Set<Edge>, via: u32, s: Edge, e: Edge) -> bool {
    exists|p: Seq<Edge>, q: Seq<Edge>| #[trigger]
        is_path(avoiding(es, via), p, s.source, e.source) && #[trigger] is_path(
            avoiding(es, via),
            q,
            e.target,
            s.target,
        ) && path_cost(p) + e.cost + path_cost(q) < s.cost
}

/// Some edge of `candidates` gives a cheaper way than `s`.
pub open spec fn beaten(es: Set<Edge>, via: u32, s: Edge, candidates: Seq<Edge>) -> bool {
    exists|k: int| 0 <= k < candidates.len() && beaten_by(es, via, s, #[trigger] candidates[k])
}

/// Every shortcut stands for an edge into `via` followed by one out of it.
pub proof fn lemma_shortcuts_through(es: Set<Edge>, via: u32, inn: Edge, outs: Seq<Edge>, e: Edge)
    requires
        shortcuts_through(es, via, inn, outs).contains(e),
    ensures
        exists|j: int|
            0 <= j < outs.len() && needs_shortcut(es, via, inn, outs[j]) && e == shortcut(
                inn,
                #[trigger] outs[j],
            ),
    decreases outs.len(),
{
    let all = shortcuts_through(es, via, inn, outs);
    let i = choose|i: int| 0 <= i < all.len() && all[i] == e;
    if outs.len() > 0 {
        let rest = shortcuts_through(es, via, inn, outs.drop_last());
        if i < rest.len() {
            assert(rest[i] == e);
            assert(rest.contains(e));
            lemma_shortcuts_through(es, via, inn, outs.drop_last(), e);
            let j = choose|j: int|
                0 <= j < outs.drop_last().len() && needs_shortcut(
                    es,
                    via,
                    inn,
                    outs.drop_last()[j],
                ) && e == shortcut(inn, #[trigger] outs.drop_last()[j]);
            assert(outs[j] == outs.drop_last()[j]);
        } else {
            assert(e == shortcut(inn, outs[outs.len() - 1]));
        }
    }
}

/// Every shortcut stands for an edge of `ins` followed by an edge of `outs`
/// that needs one.
pub proof fn lemma_all_shortcuts(es: Set<Edge>, via: u32, ins: Seq<Edge>, outs: Seq<Edge>, e: Edge)
    requires
        all_shortcuts(es, via, ins, outs).contains(e),
    ensures
        exists|i: int, j: int|
            0 <= i < ins.len() && 0 <= j < outs.len() && needs_shortcut(es, via, ins[i], outs[j])
                && e == shortcut(#[trigger] ins[i], #[trigger] outs[j]),
    decreases ins.len(),
{
    let all = all_shortcuts(es, via, ins, outs);
    let k = choose|k: int| 0 <= k < all.len() && all[k] == e;
    if ins.len() > 0 {
        let rest = all_shortcuts(es, via, ins.drop_last(), outs);
        let row = shortcuts_through(es, via, ins.last(), outs);
        if k < rest.len() {
            assert(rest[k] == e);
            assert(rest.contains(e));
            lemma_all_shortcuts(es, via, ins.drop_last(), outs, e);
            let (i, j) = choose|i: int, j: int|
                0 <= i < ins.drop_last().len() && 0 <= j < outs.len() && needs_shortcut(
                    es,
                    via,
                    ins.drop_last()[i],
                    outs[j],
                ) && e == shortcut(#[trigger] ins.drop_last()[i], #[trigger] outs[j]);
            assert(ins[i] == ins.drop_last()[i]);
        } else {
            assert(row[k - rest.len()] == e);
            assert(row.contains(e));
            lemma_shortcuts_through(es, via, ins.last(), outs, e);
            let j = choose|j: int|
                0 <= j < outs.len() && needs_shortcut(es, via, ins.last(), outs[j]) && e
                    == shortcut(ins.last(), #[trigger] outs[j]);
            assert(ins[ins.len() - 1] == ins.last());
        }
    }
}

/// Every pair of an edge of `ins` and an edge of `outs` that needs a
/// shortcut has it among the shortcuts.
pub proof fn lemma_all_shortcuts_has(
    es: Set<Edge>,
    via: u32,
    ins: Seq<Edge>,
    outs: Seq<Edge>,
    i: int,
    j: int,
)
    requires
        0 <= i < ins.len(),
        0 <= j < outs.len(),
        needs_shortcut(es, via, ins[i], outs[j]),
    ensures
        all_shortcuts(es, via, ins, outs).contains(shortcut(ins[i], outs[j])),
    decreases ins.len(),
{
    let all = all_shortcuts(es, via, ins, outs);
    let rest = all_shortcuts(es, via, ins.drop_last(), outs);
    let row = shortcuts_through(es, via, ins.last(), outs);
    let e = shortcut(ins[i], outs[j]);
    if i < ins.len() - 1 {
        assert(ins.drop_last()[i] == ins[i]);
        lemma_all_shortcuts_has(es, via, ins.drop_last(), outs, i, j);
        let k = choose|k: int| 0 <= k < rest.len() && rest[k] == e;
        assert(all[k] == e);
    } else {
        lemma_shortcuts_through_has(es, via, ins.last(), outs, j);
        let k = choose|k: int| 0 <= k < row.len() && row[k] == e;
        assert(all[rest.len() + k] == e);
    }
}

proof fn lemma_shortcuts_through_has(es: Set<Edge>, via: u32, inn: Edge, outs: Seq<Edge>, j: int)
    requires
        0 <= j < outs.len(),
        needs_shortcut(es, via, inn, outs[j]),
    ensures
        shortcuts_through(es, via, inn, outs).contains(shortcut(inn, outs[j])),
    decreases outs.len(),
{
    let all = shortcuts_through(es, via, inn, outs);
    let rest = shortcuts_through(es, via, inn, outs.drop_last());
    let e = shortcut(inn, outs[j]);
    if j < outs.len() - 1 {
        assert(outs.drop_last()[j] == outs[j]);
        lemma_shortcuts_through_has(es, via, inn, outs.drop_last(), j);
        let k = choose|k: int| 0 <= k < rest.len() && rest[k] == e;
        assert(all[k] == e);
    } else {
        assert(all[all.len() - 1] == e);
    }
}

/// Finds the shortcuts that contracting a node of a graph store asks for.
pub struct ShortcutGenerator<'a> {
    graph: &'a BidirectionalGraph,
}

impl<'a> ShortcutGenerator<'a> {
    /// The store that the generator reads.
    pub closed spec fn store(&self) -> BidirectionalGraph {
        *self.graph
    }

    pub fn new(graph: &'a BidirectionalGraph) -> (generator: Self)
        ensures
            generator.store() == *graph,
    {
        Self { graph }
    }

    /// The shortcuts that the incoming edge `inn` of `v` asks for: one for
    /// each outgoing edge of `v` whose target no path that keeps clear of `v`
    /// reaches from the source of `inn` at the same cost or less.
    pub fn shortcuts_from(&self, v: u32, inn: Edge) -> (shortcuts: Vec<Edge>)
        requires
            self.store().wf(),
            v < self.store().nodes(),
            inn.source < self.store().nodes(),
        ensures
            shortcuts@ == shortcuts_through(
                self.store().out_edges(),
                v,
                inn,
                self.store().out()[v as int],
            ),
    {
        let outs = &self.graph.outgoing_edges[v as usize];
        let ghost es = self.graph.out_edges();
        let mut dearest: u32 = 0;
        let mut j: usize = 0;
        while j < outs.len()
            invariant
                0 <= j <= outs@.len(),
                forall|k: int| 0 <= k < j ==> (#[trigger] outs@[k]).cost <= dearest,
            decreases outs@.len() - j,
        {
            if outs[j].cost > dearest {
                dearest = outs[j].cost;
            }
            j += 1;
        }
        let ceiling: u32 = if inn.cost as u64 + dearest as u64 >= u32::MAX as u64 {
            u32::MAX
        } else {
            inn.cost + dearest
        };
        let helper = DijkstraHelper::new(self.graph);
        let costs = helper.single_source_cost_without(inn.source, v, ceiling);
        let mut shortcuts: Vec<Edge> = Vec::new();
        let mut j: usize = 0;
        assert(outs@.take(0) =~= Seq::<Edge>::empty());
        while j < outs.len()
            invariant
                0 <= j <= outs@.len(),
                outs@ == self.store().out()[v as int],
                es == self.store().out_edges(),
                forall|k: int| 0 <= k < outs@.len() ==> (#[trigger] outs@[k]).cost <= dearest,
                ceiling == (if inn.cost + dearest >= u32::MAX {
                    u32::MAX
                } else {
                    (inn.cost + dearest) as u32
                }),
                is_cost_table(avoiding(es, v), inn.source, cost_limit(ceiling), costs@),
                shortcuts@ == shortcuts_through(es, v, inn, outs@.take(j as int)),
            decreases outs@.len() - j,
        {
            let out = outs[j];
            let cost: u64 = inn.cost as u64 + out.cost as u64;
            let mut needed = false;
            if cost < u32::MAX as u64 {
                needed = match map_get(&costs, out.target) {
                    Some(known) => cost < known as u64,
                    None => true,
                };
                proof {
                    let table = costs@;
                    assert(cost <= cost_limit(ceiling));
                    if table.contains_key(out.target) {
                        assert(is_distance(
                            avoiding(es, v),
                            inn.source,
                            out.target,
                            table[out.target] as nat,
                        ));
                        if !needed {
                            let p = choose|p: Seq<Edge>|
                                is_path(avoiding(es, v), p, inn.source, out.target) && path_cost(p)
                                    == table[out.target] as nat;
                            assert(!needs_shortcut(es, v, inn, out));
                        }
                    } else {
                        assert forall|p: Seq<Edge>| #[trigger]
                            is_path(avoiding(es, v), p, inn.source, out.target) implies path_cost(
                            p,
                        ) > inn.cost + out.cost by {
                            if path_cost(p) <= cost_limit(ceiling) {
                                assert(table.contains_key(out.target));
                            }
                        }
                    }
                    assert(needed == needs_shortcut(es, v, inn, out));
                }
            }
            proof {
                let next = outs@.take(j + 1);
                assert(next.drop_last() =~= outs@.take(j as int));
                assert(next.last() == out);
            }
            if needed {
                shortcuts.push(Edge { source: inn.source, target: out.target, cost: cost as u32 });
            }
            j += 1;
        }
        assert(outs@.take(j as int) =~= outs@);
        shortcuts
    }

    /// The shortcuts that contracting `v` asks for: for each incoming edge
    /// and each outgoing edge of `v`, in the order of the two lists, one
    /// where no path that keeps clear of `v` is as cheap or cheaper.
    pub fn naive_shortcuts(&self, v: u32) -> (shortcuts: Vec<Edge>)
        requires
            self.store().wf(),
            v < self.store().nodes(),
        ensures
            shortcuts@ == all_shortcuts(
                self.store().out_edges(),
                v,
                self.store().inc()[v as int],
                self.store().out()[v as int],
            ),
    {
        let ins = &self.graph.incoming_edges[v as usize];
        let ghost es = self.graph.out_edges();
        let ghost outs = self.graph.out()[v as int];
        let mut shortcuts: Vec<Edge> = Vec::new();
        let mut i: usize = 0;
        assert(ins@.take(0) =~= Seq::<Edge>::empty());
        while i < ins.len()
            invariant
                0 <= i <= ins@.len(),
                self.store().wf(),
                v < self.store().nodes(),
                ins@ == self.store().inc()[v as int],
                es == self.store().out_edges(),
                outs == self.store().out()[v as int],
                shortcuts@ == all_shortcuts(es, v, ins@.take(i as int), outs),
            decreases ins@.len() - i,
        {
            let inn = ins[i];
            proof {
                assert(self.store().inc()[v as int][i as int].source < self.store().nodes());
            }
            let mut found = self.shortcuts_from(v, inn);
            proof {
                let next = ins@.take(i + 1);
                assert(next.drop_last() =~= ins@.take(i as int));
                assert(next.last() == inn);
            }
            shortcuts.append(&mut found);
            i += 1;
        }
        assert(ins@.take(i as int) =~= ins@);
        shortcuts
    }

    /// Whether the shortcut `e`, with a path before it and a path after it
    /// that keep clear of `v`, gives a cheaper way than the shortcut `s`.
    fn is_beaten_by(&self, v: u32, s: Edge, e: Edge) -> (beats: bool)
        requires
            self.store().wf(),
            s.source < self.store().nodes(),
            e.target < self.store().nodes(),
        ensures
            beats == beaten_by(self.store().out_edges(), v, s, e),
    {
        let ghost es = avoiding(self.graph.out_edges(), v);
        if e.cost > s.cost {
            return false;
        }
        let spare = s.cost - e.cost;
        let helper = DijkstraHelper::new(self.graph);
        let before = helper.single_pair_with_max_cost_without_node(s.source, e.source, v, spare);
        match before {
            None => {
                proof {
                    assert forall|p: Seq<Edge>, q: Seq<Edge>| #[trigger]
                        is_path(es, p, s.source, e.source) && #[trigger] is_path(
                            es,
                            q,
                            e.target,
                            s.target,
                        ) implies !(path_cost(p) + e.cost + path_cost(q) < s.cost) by {
                        assert(path_cost(p) > cost_limit(spare));
                    }
                }
                false
            },
            Some(a) => {
                let after = helper.single_pair_with_max_cost_without_node(
                    e.target,
                    s.target,
                    v,
                    spare - a,
                );
                match after {
                    None => {
                        proof {
                            assert forall|p: Seq<Edge>, q: Seq<Edge>| #[trigger]
                                is_path(es, p, s.source, e.source) && #[trigger] is_path(
                                    es,
                                    q,
                                    e.target,
                                    s.target,
                                ) implies !(path_cost(p) + e.cost + path_cost(q) < s.cost) by {
                                assert(a <= path_cost(p));
                                assert(path_cost(q) > cost_limit((spare - a) as u32));
                            }
                        }
                        false
                    },
                    Some(b) => {
                        let total: u64 = a as u64 + e.cost as u64 + b as u64;
                        proof {
                            if total < s.cost {
                                let p = choose|p: Seq<Edge>|
                                    is_path(es, p, s.source, e.source) && path_cost(p) == a as nat;
                                let q = choose|q: Seq<Edge>|
                                    is_path(es, q, e.target, s.target) && path_cost(q) == b as nat;
                                assert(is_path(es, p, s.source, e.source) && is_path(
                                    es,
                                    q,
                                    e.target,
                                    s.target,
                                ) && path_cost(p) + e.cost + path_cost(q) < s.cost);
                            } else {
                                assert forall|p: Seq<Edge>, q: Seq<Edge>| #[trigger]
                                    is_path(es, p, s.source, e.source) && #[trigger] is_path(
                                        es,
                                        q,
                                        e.target,
                                        s.target,
                                    ) implies !(path_cost(p) + e.cost + path_cost(q)
                                    < s.cost) by {
                                    assert(a <= path_cost(p));
                                    assert(b <= path_cost(q));
                                }
                            }
                        }
                        total < s.cost as u64
                    },
                }
            },
        }
    }

    /// Drops from `shortcuts` each one that another of them beats: one that,
    /// with a path before it and a path after it that keep clear of `v`,
    /// gives a cheaper way between the same two nodes.
    pub fn remove_unnecessary_shortcuts(&self, shortcuts: Vec<Edge>, v: u32) -> (remaining: Vec<
        Edge,
    >)
        requires
            self.store().wf(),
            forall|k: int|
                0 <= k < shortcuts@.len() ==> (#[trigger] shortcuts@[k]).source
                    < self.store().nodes() && shortcuts@[k].target < self.store().nodes(),
        ensures
            remaining@ == kept(
                shortcuts@,
                |s: Edge| !beaten(self.store().out_edges(), v, s, shortcuts@),
            ),
    {
        let ghost es = self.graph.out_edges();
        let ghost keep = |s: Edge| !beaten(es, v, s, shortcuts@);
        let mut remaining: Vec<Edge> = Vec::new();
        let mut i: usize = 0;
        assert(shortcuts@.take(0) =~= Seq::<Edge>::empty());
        while i < shortcuts.len()
            invariant
                0 <= i <= shortcuts@.len(),
                self.store().wf(),
                es == self.store().out_edges(),
                keep == (|s: Edge| !beaten(es, v, s, shortcuts@)),
                forall|k: int|
                    0 <= k < shortcuts@.len() ==> (#[trigger] shortcuts@[k]).source
                        < self.store().nodes() && shortcuts@[k].target < self.store().nodes(),
                remaining@ == kept(shortcuts@.take(i as int), keep),
            decreases shortcuts@.len() - i,
        {
            let s = shortcuts[i];
            let mut is_beaten = false;
            let mut k: usize = 0;
            while k < shortcuts.len() && !is_beaten
                invariant
                    0 <= k <= shortcuts@.len(),
                    self.store().wf(),
                    es == self.store().out_edges(),
                    s == shortcuts@[i as int],
                    i < shortcuts@.len(),
                    forall|k: int|
                        0 <= k < shortcuts@.len() ==> (#[trigger] shortcuts@[k]).source
                            < self.store().nodes() && shortcuts@[k].target < self.store().nodes(),
                    !is_beaten ==> forall|m: int|
                        0 <= m < k ==> !beaten_by(es, v, s, #[trigger] shortcuts@[m]),
                    is_beaten ==> beaten(es, v, s, shortcuts@),
                decreases shortcuts@.len() - k,
            {
                let e = shortcuts[k];
                if self.is_beaten_by(v, s, e) {
                    is_beaten = true;
                    assert(beaten_by(es, v, s, shortcuts@[k as int]));
                }
                k += 1;
            }
            proof {
                let next = shortcuts@.take(i + 1);
                assert(next.drop_last() =~= shortcuts@.take(i as int));
                assert(next.last() == s);
                assert(keep(s) == !is_beaten);
            }
            if !is_beaten {
                remaining.push(s);
            }
            i += 1;
        }
        assert(shortcuts@.take(i as int) =~= shortcuts@);
        remaining
    }
}

} // verus!
