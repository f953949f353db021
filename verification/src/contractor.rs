//! The contractor: takes the nodes of a graph out one by one, in the order
//! of the contraction queue, and puts in their place the shortcuts that keep
//! every cheapest path as cheap as it was.

use crate::bidirectional_graph::BidirectionalGraph;
use crate::bidirectional_graph::rows_cleared;
use crate::bidirectional_graph::rows_with;
use crate::bidirectional_graph::without_node;
use crate::clock::elapsed_since;
use crate::clock::is_longer;
use crate::clock::start_clock;
use crate::contraction::among_live;
use crate::contraction::bridges;
use crate::contraction::contracting;
use crate::contraction::hierarchy_of;
use crate::contraction::lemma_cleaned_covers;
use crate::contraction::lemma_contract_node;
use crate::contraction::lemma_contracting_start;
use crate::contraction::lemma_hierarchy;
use crate::course::Course;
use crate::course::Outcome;
use crate::course::advanced;
use crate::course::chosen;
use crate::course::current;
use crate::course::finished;
use crate::course::lemma_next_unique;
use crate::course::lemma_run_stuck;
use crate::course::outcome;
use crate::course::rows_cleaned;
use crate::course::run;
use crate::course::start;
use crate::course::step;
use crate::course::waits;
use crate::graph::Edge;
use crate::graph_cleaner::cheapest_of;
use crate::graph_cleaner::lemma_deduplicated;
use crate::graph_cleaner::lemma_kept_unique;
use crate::graph_cleaner::loop_free;
use crate::graph_cleaner::remove_edge_to_self;
use crate::graph_cleaner::removing_double_edges;
use crate::graph_cleaner::unique_ends;
use crate::hierarchy::downward;
use crate::hierarchy::upward;
use crate::queue::CHQueue;
use crate::queue::DEFAULT_SEED;
use crate::queue::Weights;
use crate::queue::initial_held;
use crate::queue::is_next;
use crate::queue::lemma_stored;
use crate::queue::shallow;
use crate::queue::unit_weights;
use crate::queue::unmarked;
use crate::rows::Retain;
use crate::rows::edges_kept;
use crate::rows::goes_down;
use crate::rows::goes_up;
use crate::rows::lemma_rows_kept_by_source;
use crate::rows::lemma_rows_kept_by_target;
use crate::rows::level_of;
use crate::rows::retain_in_rows;
use crate::rows::rows_kept;
use crate::shortcut_generator::ShortcutGenerator;
use crate::shortcut_generator::all_shortcuts;
use crate::shortcut_generator::lemma_all_shortcuts;
use crate::state::CHState;
use std::time::Duration;
use vstd::prelude::*;

verus! {

pub struct Contractor {
    graph: BidirectionalGraph,
    queue: CHQueue,
    levels: Vec<u32>,
}

/// The edges that contraction starts from: of the edges of `original` that
/// join two nodes, the cheapest between each two.
pub open spec fn base_of(original: Set<Edge>) -> Set<Edge> {
    loop_free(cheapest_of(original))
}

/// Some node has the level `l`.
pub open spec fn has_level(levels: Seq<u32>, l: u32) -> bool {
    exists|v: int| 0 <= v < levels.len() && #[trigger] levels[v] == l
}

/// The levels below `count` have been given out, each to one node, and no
/// other: every other node is at `u32::MAX`.
pub open spec fn ranked(levels: Seq<u32>, count: nat) -> bool {
    &&& forall|v: int|
        0 <= v < levels.len() ==> #[trigger] levels[v] == u32::MAX || levels[v] < count
    &&& forall|l: u32| l < count ==> #[trigger] has_level(levels, l)
    &&& forall|v: int, w: int|
        0 <= v < levels.len() && 0 <= w < levels.len() && #[trigger] levels[v]
            == #[trigger] levels[w] && levels[v] < u32::MAX ==> v == w
}

/// Every node has a level: the levels are the numbers below the number of
/// nodes, each of them once.
pub open spec fn all_ranked(levels: Seq<u32>) -> bool {
    &&& ranked(levels, levels.len())
    &&& forall|v: int| 0 <= v < levels.len() ==> #[trigger] levels[v] < levels.len()
}

impl Contractor {
    /// The graph as it stands.
    pub closed spec fn store(&self) -> BidirectionalGraph {
        self.graph
    }

    /// The level of each node: the rank at which it was contracted, or
    /// `u32::MAX` if it has not been.
    pub closed spec fn levels(&self) -> Seq<u32> {
        self.levels@
    }

    /// The contraction queue.
    pub closed spec fn queue(&self) -> CHQueue {
        self.queue
    }

    /// The number of nodes that have been contracted: those that wait no
    /// longer.
    pub open spec fn contracted(&self) -> nat {
        if self.queue().entries().len() <= self.store().nodes() {
            (self.store().nodes() - self.queue().entries().len()) as nat
        } else {
            0
        }
    }

    /// The graph is well formed, every node has a level, and the queue
    /// serves the nodes of the graph.
    pub closed spec fn wf(&self) -> bool {
        &&& self.graph.wf()
        &&& self.levels@.len() == self.graph.nodes()
        &&& self.queue.wf(self.graph.nodes())
    }

    /// Nothing has been contracted yet: both structures of the graph hold
    /// the same edges, every node waits, and none has a level.
    pub closed spec fn is_fresh(&self) -> bool {
        &&& self.wf()
        &&& self.graph.mirrored()
        &&& forall|v: int| 0 <= v < self.levels@.len() ==> #[trigger] self.levels@[v] == u32::MAX
        &&& self.queue.held() == initial_held(
            self.queue.weights(),
            self.graph.out(),
            self.graph.inc(),
        )
        &&& self.queue.entries().len() == self.graph.nodes()
        &&& self.queue.deleted() == unmarked(self.graph.nodes())
        &&& self.queue.depth() == shallow(self.graph.nodes())
    }

    /// Where the contraction stands, with the shortcuts found so far and
    /// the level of the next node.
    pub closed spec fn course(&self, shortcuts: Seq<Edge>, next: nat) -> Course {
        Course {
            out: self.graph.out(),
            inc: self.graph.inc(),
            held: self.queue.held(),
            deleted: self.queue.deleted(),
            depth: self.queue.depth(),
            levels: self.levels@,
            shortcuts,
            next,
        }
    }

    /// Contraction is under way: `base` are the edges that it started from,
    /// `shortcuts` the ones added so far, and `next` the level of the next
    /// node. The graph holds what is left among the nodes that wait, which
    /// are the nodes without a level; the others hold the levels below
    /// `next`.
    pub closed spec fn progress(&self, base: Set<Edge>, shortcuts: Seq<Edge>, next: int) -> bool {
        &&& self.wf()
        &&& self.graph.mirrored()
        &&& contracting(base, shortcuts.to_set(), self.levels@, next)
        &&& self.graph.out_edges() == among_live(base + shortcuts.to_set(), self.levels@)
        &&& forall|v: u32| #[trigger]
            self.queue.members().contains(v) ==> level_of(self.levels@, v) == u32::MAX
        &&& forall|v: u32|
            v < self.levels@.len() && #[trigger] level_of(self.levels@, v) == u32::MAX
                ==> self.queue.members().contains(v)
        &&& forall|l: u32| l < next ==> #[trigger] has_level(self.levels@, l)
        &&& self.queue.entries().len() + next == self.graph.nodes()
    }

    /// What `progress` says of the levels and of the number of nodes that
    /// wait.
    proof fn lemma_progress(&self, base: Set<Edge>, shortcuts: Seq<Edge>, next: int)
        requires
            self.progress(base, shortcuts, next),
        ensures
            self.queue.entries().len() <= self.graph.nodes(),
            self.contracted() == next,
            ranked(self.levels@, next as nat),
            self.queue.entries().len() == 0 ==> all_ranked(self.levels@),
    {
        let levels = self.levels@;
        assert forall|v: int| 0 <= v < levels.len() implies #[trigger] levels[v] == u32::MAX
            || levels[v] < next by {
            assert(level_of(levels, v as u32) == levels[v]);
        }
        assert forall|v: int, w: int|
            0 <= v < levels.len() && 0 <= w < levels.len() && #[trigger] levels[v]
                == #[trigger] levels[w] && levels[v] < u32::MAX implies v == w by {
            assert(level_of(levels, v as u32) == levels[v]);
            assert(level_of(levels, w as u32) == levels[w]);
        }
        if self.queue.entries().len() == 0 {
            assert forall|v: int| 0 <= v < levels.len() implies #[trigger] levels[v]
                < levels.len() by {
                let node = v as u32;
                assert(level_of(levels, node) == levels[v]);
                if levels[v] == u32::MAX {
                    assert(self.queue.members().contains(node));
                    let x = choose|x: CHState| #[trigger]
                        self.queue.entries().contains(x) && x.node_id == node;
                    assert(self.queue.entries().count(x) > 0);
                    vstd::multiset::lemma_multiset_empty_len(self.queue.entries());
                }
            }
        }
    }

    /// A contractor for `graph`, with every node in the queue at its
    /// priority.
    pub fn new(graph: BidirectionalGraph) -> (contractor: Self)
        requires
            graph.wf(),
            graph.mirrored(),
        ensures
            contractor.is_fresh(),
            contractor.wf(),
            contractor.store() == graph,
            contractor.levels() == Seq::new(graph.nodes(), |i: int| u32::MAX),
            contractor.queue().weights() == unit_weights(),
    {
        let weights = Weights {
            deleted_neighbors: 1,
            cost_of_queries: 1,
            edge_difference: 1,
            voronoi_region: 1,
        };
        Contractor::with_seed(graph, weights, DEFAULT_SEED)
    }

    /// A contractor for `graph` whose queue weighs its terms by `weights`
    /// and is filled in an order shuffled with `seed`.
    pub fn with_seed(graph: BidirectionalGraph, weights: Weights, seed: u64) -> (contractor: Self)
        requires
            graph.wf(),
            graph.mirrored(),
        ensures
            contractor.is_fresh(),
            contractor.wf(),
            contractor.store() == graph,
            contractor.levels() == Seq::new(graph.nodes(), |i: int| u32::MAX),
            contractor.queue().weights() == weights,
    {
        let n = graph.outgoing_edges.len();
        let mut levels: Vec<u32> = Vec::with_capacity(n);
        let mut i: usize = 0;
        while i < n
            invariant
                0 <= i <= n,
                levels@.len() == i,
                forall|v: int| 0 <= v < i ==> #[trigger] levels@[v] == u32::MAX,
            decreases n - i,
        {
            levels.push(u32::MAX);
            i += 1;
        }
        assert(levels@ =~= Seq::new(graph.nodes(), |i: int| u32::MAX));
        let queue = CHQueue::with_seed(&graph, weights, seed);
        Contractor { graph, queue, levels }
    }

    /// Hands the graph out.
    pub fn get_graph(self) -> (graph: Option<BidirectionalGraph>)
        ensures
            graph == Some(self.store()),
    {
        Some(self.graph)
    }

    /// The level of each node.
    pub fn node_levels(&self) -> (levels: &Vec<u32>)
        ensures
            levels@ == self.levels(),
    {
        &self.levels
    }

    /// The number of nodes that wait in the queue.
    pub fn waiting(&self) -> (n: usize)
        ensures
            n == self.queue().entries().len(),
    {
        self.queue.len()
    }

    /// The number of nodes that have been contracted.
    pub fn count_contracted(&self) -> (n: usize)
        requires
            self.wf(),
        ensures
            n == self.contracted(),
    {
        let nodes = self.levels.len();
        let waiting = self.queue.len();
        if waiting <= nodes {
            nodes - waiting
        } else {
            0
        }
    }

    /// Inserts each shortcut into the outgoing list of its source and the
    /// incoming list of its target.
    pub fn add_shortcuts(&mut self, shortcuts: &Vec<Edge>)
        requires
            old(self).wf(),
            forall|k: int|
                0 <= k < shortcuts@.len()
                    ==> (#[trigger] shortcuts@[k]).source < old(self).store().nodes()
                    && shortcuts@[k].target < old(self).store().nodes(),
        ensures
            final(self).wf(),
            final(self).store().wf(),
            final(self).levels() == old(self).levels(),
            final(self).queue() == old(self).queue(),
            final(self).store().nodes() == old(self).store().nodes(),
            final(self).store().out() == rows_with(old(self).store().out(), shortcuts@, true),
            final(self).store().inc() == rows_with(old(self).store().inc(), shortcuts@, false),
            final(self).store().out_edges() == old(self).store().out_edges()
                + shortcuts@.to_set(),
            final(self).store().in_edges() == old(self).store().in_edges() + shortcuts@.to_set(),
            old(self).store().mirrored() ==> final(self).store().mirrored(),
    {
        self.graph.add_edges(shortcuts);
    }

    /// Takes `node_id` out of the graph: empties both of its lists, and
    /// takes every edge that ends or starts at it out of the lists of the
    /// other nodes.
    pub fn disconnect(&mut self, node_id: u32)
        requires
            old(self).wf(),
            old(self).store().mirrored(),
            node_id < old(self).store().nodes(),
        ensures
            final(self).wf(),
            final(self).store().wf(),
            final(self).levels() == old(self).levels(),
            final(self).queue() == old(self).queue(),
            final(self).store().mirrored(),
            final(self).store().nodes() == old(self).store().nodes(),
            final(self).store().out_edges() == without_node(
                old(self).store().out_edges(),
                node_id,
            ),
            final(self).store().out() == rows_cleared(
                old(self).store().out(),
                node_id as int,
                Retain::NotInto(node_id).as_spec(),
            ),
            final(self).store().inc() == rows_cleared(
                old(self).store().inc(),
                node_id as int,
                Retain::NotOutOf(node_id).as_spec(),
            ),
    {
        self.graph.disconnect(node_id);
    }

    /// Contracts `v`: finds the shortcuts that it asks for, inserts them,
    /// and takes `v` out of the graph.
    pub fn contract_node(&mut self, v: u32) -> (shortcuts: Vec<Edge>)
        requires
            old(self).wf(),
            old(self).store().mirrored(),
            v < old(self).store().nodes(),
        ensures
            final(self).wf(),
            final(self).store().wf(),
            final(self).levels() == old(self).levels(),
            final(self).queue() == old(self).queue(),
            final(self).store().mirrored(),
            final(self).store().nodes() == old(self).store().nodes(),
            shortcuts@ == all_shortcuts(
                old(self).store().out_edges(),
                v,
                old(self).store().inc()[v as int],
                old(self).store().out()[v as int],
            ),
            final(self).store().out_edges() == without_node(
                old(self).store().out_edges() + shortcuts@.to_set(),
                v,
            ),
            final(self).store().out() == rows_cleared(
                rows_with(old(self).store().out(), shortcuts@, true),
                v as int,
                Retain::NotInto(v).as_spec(),
            ),
            final(self).store().inc() == rows_cleared(
                rows_with(old(self).store().inc(), shortcuts@, false),
                v as int,
                Retain::NotOutOf(v).as_spec(),
            ),
    {
        let generator = ShortcutGenerator::new(&self.graph);
        let shortcuts = generator.naive_shortcuts(v);
        proof {
            let es = self.graph.out_edges();
            let ins = self.graph.inc()[v as int];
            let outs = self.graph.out()[v as int];
            assert forall|k: int| 0 <= k < shortcuts@.len()
                implies (#[trigger] shortcuts@[k]).source
                < self.graph.nodes() && shortcuts@[k].target < self.graph.nodes() by {
                assert(shortcuts@.contains(shortcuts@[k]));
                lemma_all_shortcuts(es, v, ins, outs, shortcuts@[k]);
                let (i, j) = choose|i: int, j: int|
                    0 <= i < ins.len() && 0 <= j < outs.len()
                        && crate::shortcut_generator::needs_shortcut(es, v, ins[i], outs[j])
                        && shortcuts@[k] == crate::shortcut_generator::shortcut(
                        #[trigger] ins[i],
                        #[trigger] outs[j],
                    );
                assert(ins[i].source < self.graph.nodes());
                assert(outs[j].target < self.graph.nodes());
            }
        }
        self.add_shortcuts(&shortcuts);
        self.disconnect(v);
        shortcuts
    }

    /// Enforces the level property: the outgoing lists keep the edges whose
    /// target is at least as high as their source, the incoming lists those
    /// whose source is at least as high as their target.
    pub fn removing_level_property(&mut self)
        requires
            old(self).wf(),
        ensures
            final(self).wf(),
            final(self).store().wf(),
            final(self).levels() == old(self).levels(),
            final(self).queue() == old(self).queue(),
            final(self).store().out() == rows_kept(
                old(self).store().out(),
                goes_up(old(self).levels()),
            ),
            final(self).store().inc() == rows_kept(
                old(self).store().inc(),
                goes_down(old(self).levels()),
            ),
            final(self).store().out_edges() == upward(
                old(self).store().out_edges(),
                old(self).levels(),
                0,
            ),
            final(self).store().in_edges() == downward(
                old(self).store().in_edges(),
                old(self).levels(),
                0,
            ),
    {
        let ghost out0 = self.graph.out();
        let ghost inc0 = self.graph.inc();
        retain_in_rows(&mut self.graph.outgoing_edges, &Retain::Upward(&self.levels));
        retain_in_rows(&mut self.graph.incoming_edges, &Retain::Downward(&self.levels));
        proof {
            let up = goes_up(self.levels@);
            let down = goes_down(self.levels@);
            assert(Retain::Upward(&self.levels).as_spec() =~= up);
            assert(Retain::Downward(&self.levels).as_spec() =~= down);
            lemma_rows_kept_by_source(out0, up);
            lemma_rows_kept_by_target(inc0, down);
            assert(edges_kept(old(self).graph.out_edges(), up) =~= upward(
                old(self).graph.out_edges(),
                self.levels@,
                0,
            ));
            assert(edges_kept(old(self).graph.in_edges(), down) =~= downward(
                old(self).graph.in_edges(),
                self.levels@,
                0,
            ));
        }
    }

    /// Contracts the next node of the queue, if there is one: gives it the
    /// level `level` and appends the shortcuts that it asks for to
    /// `shortcuts`. Says whether there was one.
    fn contract_next(
        &mut self,
        level: u32,
        shortcuts: &mut Vec<Edge>,
        Ghost(base): Ghost<Set<Edge>>,
    ) -> (more: bool)
        requires
            old(self).progress(base, old(shortcuts)@, level as int),
            level < u32::MAX,
        ensures
            more ==> final(self).progress(base, final(shortcuts)@, level + 1)
                && final(self).queue.entries().len() < old(self).queue.entries().len(),
            !more ==> final(self).progress(base, final(shortcuts)@, level as int)
                && final(shortcuts)@ == old(shortcuts)@ && final(self).levels@ == old(self).levels@
                && final(self).queue.entries().len() == 0,
            final(self).graph.nodes() == old(self).graph.nodes(),
            final(self).queue.weights() == old(self).queue.weights(),
            final(self).course(final(shortcuts)@, (if more {
                level + 1
            } else {
                level as int
            }) as nat) == advanced(
                old(self).queue.weights(),
                old(self).course(old(shortcuts)@, level as nat),
            ),
    {
        let ghost n = self.graph.nodes();
        let ghost added = shortcuts@.to_set();
        let ghost levels0 = self.levels@;
        let ghost live = self.graph.out_edges();
        let ghost ins = self.graph.inc();
        let ghost outs = self.graph.out();
        let ghost waiting0 = self.queue.members();
        proof {
            self.queue.lemma_wf(n);
        }
        let ghost weights = self.queue.weights();
        let ghost course0 = self.course(shortcuts@, level as nat);
        proof {
            assert(self.queue.priorities(&self.graph) =~= current(weights, course0)) by {
                assert forall|w: u32| #[trigger]
                    (self.queue.priorities(&self.graph))(w) == (current(weights, course0))(w) by {
                    self.queue.lemma_priority(&self.graph, w);
                }
            }
        }
        match self.queue.lazy_pop(&self.graph) {
            None => {
                proof {
                    assert(!waits(course0));
                    assert(self.course(shortcuts@, level as nat) == course0);
                }
                false
            },
            Some(v) => {
                proof {
                    assert(course0.held.contains_key(v));
                    assert(waits(course0));
                    assert(is_next(course0.held, current(weights, course0), v));
                    let picked = chosen(weights, course0);
                    lemma_next_unique(course0.held, current(weights, course0), v, picked);
                    assert(waiting0.contains(v));
                    assert(level_of(levels0, v) == u32::MAX);
                    assert(v < n);
                }
                let mut found = self.contract_node(v);
                self.levels[v as usize] = level;
                let ghost found_seq = found@;
                let ghost before = shortcuts@;
                shortcuts.append(&mut found);
                proof {
                    assert(self.graph.in_edges() == self.graph.out_edges());
                    assert forall|e: Edge|
                        ins[v as int].contains(e) <==> live.contains(e) && e.target == v by {
                        if ins[v as int].contains(e) {
                            let i = choose|i: int|
                                0 <= i < ins[v as int].len() && ins[v as int][i] == e;
                            assert(ins[v as int][i].target == v);
                            assert(old(self).graph.in_edges().contains(e));
                        }
                        if live.contains(e) && e.target == v {
                            assert(old(self).graph.in_edges().contains(e));
                        }
                    }
                    assert forall|e: Edge|
                        outs[v as int].contains(e) <==> live.contains(e) && e.source == v by {
                        if outs[v as int].contains(e) {
                            let i = choose|i: int|
                                0 <= i < outs[v as int].len() && outs[v as int][i] == e;
                            assert(outs[v as int][i].source == v);
                        }
                    }
                    lemma_contract_node(
                        base,
                        added,
                        levels0,
                        level as int,
                        v,
                        ins[v as int],
                        outs[v as int],
                    );
                    assert(shortcuts@ =~= before + found_seq);
                    assert(shortcuts@.to_set() =~= added + found_seq.to_set()) by {
                        assert forall|e: Edge| shortcuts@.to_set().contains(e) == (added
                            + found_seq.to_set()).contains(e) by {
                            if shortcuts@.contains(e) {
                                let k = choose|k: int| 0 <= k < shortcuts@.len()
                                    && shortcuts@[k] == e;
                                if k < before.len() {
                                    assert(before[k] == e);
                                } else {
                                    assert(found_seq[k - before.len()] == e);
                                }
                            }
                            if before.contains(e) {
                                let k = choose|k: int| 0 <= k < before.len() && before[k] == e;
                                assert(shortcuts@[k] == e);
                            }
                            if found_seq.contains(e) {
                                let k = choose|k: int|
                                    0 <= k < found_seq.len() && found_seq[k] == e;
                                assert(shortcuts@[before.len() + k] == e);
                            }
                        }
                    }
                    assert(self.graph.out_edges() =~= without_node(live + found_seq.to_set(), v));
                    assert(self.course(shortcuts@, (level + 1) as nat) == step(weights, course0));
                    assert forall|w: u32| #[trigger]
                        self.queue.members().contains(w) implies level_of(self.levels@, w)
                        == u32::MAX by {
                        assert(waiting0.contains(w));
                    }
                    assert forall|w: u32|
                        w < self.levels@.len() && #[trigger] level_of(self.levels@, w)
                            == u32::MAX implies self.queue.members().contains(w) by {
                        assert(w != v);
                        assert(level_of(levels0, w) == u32::MAX);
                        assert(waiting0.contains(w));
                    }
                    assert forall|l: u32| l < level + 1 implies #[trigger] has_level(
                        self.levels@,
                        l,
                    ) by {
                        if l == level {
                            assert(self.levels@[v as int] == l);
                        } else {
                            assert(has_level(levels0, l));
                            let x = choose|x: int|
                                0 <= x < levels0.len() && #[trigger] levels0[x] == l;
                            assert(level_of(levels0, v) == levels0[v as int]);
                            assert(x != v);
                            assert(self.levels@[x] == l);
                        }
                    }
                }
                true
            },
        }
    }

    /// Puts the graph back to what it was before contraction, unions in the
    /// shortcuts, cleans it up and enforces the level property.
    fn finish(
        &mut self,
        snapshot: BidirectionalGraph,
        shortcuts: &Vec<Edge>,
        Ghost(original): Ghost<Set<Edge>>,
        Ghost(next): Ghost<int>,
    )
        requires
            old(self).progress(base_of(original), shortcuts@, next),
            snapshot.wf(),
            snapshot.mirrored(),
            snapshot.nodes() == old(self).graph.nodes(),
            snapshot.out_edges() == base_of(original),
        ensures
            final(self).wf(),
            final(self).levels@ == old(self).levels@,
            final(self).queue == old(self).queue,
            final(self).graph.nodes() == old(self).graph.nodes(),
            is_hierarchy(
                original,
                shortcuts@,
                final(self).levels@,
                final(self).graph.out(),
                final(self).graph.inc(),
            ),
            final(self).graph.out() == rows_kept(
                rows_cleaned(rows_with(snapshot.out(), shortcuts@, true)),
                goes_up(final(self).levels@),
            ),
            final(self).graph.inc() == rows_kept(
                rows_cleaned(rows_with(snapshot.inc(), shortcuts@, false)),
                goes_down(final(self).levels@),
            ),
            final(self).graph.out_edges() == upward(
                base_of(base_of(original) + shortcuts@.to_set()),
                final(self).levels@,
                0,
            ),
            final(self).graph.in_edges() == downward(
                base_of(base_of(original) + shortcuts@.to_set()),
                final(self).levels@,
                0,
            ),
    {
        let ghost base = base_of(original);
        let ghost levels = self.levels@;
        let ghost all = base + shortcuts@.to_set();
        self.graph = snapshot;
        proof {
            assert forall|k: int| 0 <= k < shortcuts@.len()
                implies (#[trigger] shortcuts@[k]).source
                < self.graph.nodes() && shortcuts@[k].target < self.graph.nodes() by {
                assert(shortcuts@.to_set().contains(shortcuts@[k]));
                assert(all.contains(shortcuts@[k]));
            }
        }
        self.graph.add_edges(shortcuts);
        let ghost rows0 = self.graph.out();
        let ghost rows0_in = self.graph.inc();
        removing_double_edges(&mut self.graph);
        let ghost rows1 = self.graph.out();
        let ghost rows1_in = self.graph.inc();
        remove_edge_to_self(&mut self.graph);
        let ghost rows2 = self.graph.out();
        let ghost rows2_in = self.graph.inc();
        let ghost kept = self.graph.out_edges();
        proof {
            assert(kept == base_of(all));
            assert(self.graph.in_edges() == kept);
        }
        self.removing_level_property();
        proof {
            lemma_cleaned_covers(original);
            lemma_cleaned_covers(all);
            lemma_hierarchy(original, base, shortcuts@.to_set(), levels, next, kept);
            let out = self.graph.out();
            let inc = self.graph.inc();
            assert(levels.len() == out.len());
            assert forall|k: int| 0 <= k < shortcuts@.len() implies bridges(
                all,
                levels,
                #[trigger] shortcuts@[k],
            ) by {
                assert(shortcuts@.to_set().contains(shortcuts@[k]));
            }
            assert forall|u: int| 0 <= u < out.len() implies unique_ends(#[trigger] out[u]) by {
                lemma_rows_unique(
                    rows0[u],
                    rows1[u],
                    rows2[u],
                    out[u],
                    |e: Edge| crate::graph_cleaner::no_loop(e),
                    goes_up(levels),
                );
            }
            assert forall|u: int| 0 <= u < inc.len() implies unique_ends(#[trigger] inc[u]) by {
                lemma_rows_unique(
                    rows0_in[u],
                    rows1_in[u],
                    rows2_in[u],
                    inc[u],
                    |e: Edge| crate::graph_cleaner::no_loop(e),
                    goes_down(levels),
                );
            }
        }
    }

    /// Cleans the graph up before the first node is contracted, and hands
    /// out a copy of it as it then stands.
    fn prepare(&mut self) -> (snapshot: BidirectionalGraph)
        requires
            old(self).is_fresh(),
        ensures
            final(self).progress(base_of(old(self).graph.out_edges()), Seq::<Edge>::empty(), 0),
            final(self).queue == old(self).queue,
            final(self).levels == old(self).levels,
            final(self).graph.nodes() == old(self).graph.nodes(),
            final(self).course(Seq::<Edge>::empty(), 0) == start(
                old(self).queue.weights(),
                old(self).graph.out(),
                old(self).graph.inc(),
            ),
            snapshot.wf(),
            snapshot.mirrored(),
            snapshot.nodes() == old(self).graph.nodes(),
            snapshot.out_edges() == base_of(old(self).graph.out_edges()),
            snapshot.out() == rows_cleaned(old(self).graph.out()),
            snapshot.inc() == rows_cleaned(old(self).graph.inc()),
    {
        let ghost base = base_of(self.graph.out_edges());
        let ghost out0 = self.graph.out();
        removing_double_edges(&mut self.graph);
        remove_edge_to_self(&mut self.graph);
        let snapshot = self.graph.clone_snapshot();
        proof {
            let levels = self.levels@;
            let none = Seq::<Edge>::empty();
            assert(levels =~= Seq::new(out0.len(), |i: int| u32::MAX));
            assert(self.graph.out_edges() == base);
            assert(none.to_set() =~= Set::<Edge>::empty());
            assert forall|e: Edge| #[trigger] base.contains(e) implies e.source < levels.len()
                && e.target < levels.len() && e.source != e.target by {
                let u = e.source as int;
                let i = choose|i: int|
                    0 <= i < self.graph.out()[u].len() && self.graph.out()[u][i] == e;
                assert(self.graph.out()[u][i].target < self.graph.nodes());
            }
            lemma_contracting_start(base, levels);
            self.queue.lemma_wf(self.graph.nodes());
            lemma_stored(self.queue.entries(), self.queue.deleted(), self.graph.nodes());
            assert forall|v: u32|
                v < levels.len() && #[trigger] level_of(levels, v)
                    == u32::MAX implies self.queue.members().contains(v) by {
                assert(self.queue.held().contains_key(v));
            }
            assert(snapshot.out_edges() =~= base);
            assert(snapshot.in_edges() =~= self.graph.in_edges());
        }
        snapshot
    }

    /// Builds the hierarchy: cleans the graph up, contracts nodes in the
    /// order of the queue until none waits or more than `max_time` has
    /// passed since the start, then puts the graph back, unions in the
    /// shortcuts, cleans it up again and enforces the level property. Hands
    /// back the shortcuts in the order in which they were found.
    ///
    /// The clock is read after each node, so at least one node is
    /// contracted if the graph has any. Whenever contraction stops, the
    /// graph is a hierarchy: nodes that were not reached keep the level
    /// `u32::MAX` and their edges in both directions. What is left is what
    /// the contraction of as many nodes as have left the queue leaves; the
    /// clock decides how many they are, and nothing else. Where no node
    /// waits at the end, every node has a level.
    pub fn contract(&mut self, max_time: Duration) -> (shortcuts: Vec<Edge>)
        requires
            old(self).is_fresh(),
        ensures
            final(self).wf(),
            final(self).store().wf(),
            final(self).store().nodes() == old(self).store().nodes(),
            is_hierarchy(
                old(self).store().out_edges(),
                shortcuts@,
                final(self).levels(),
                final(self).store().out(),
                final(self).store().inc(),
            ),
            left_by(*final(self), shortcuts@) == outcome(
                old(self).queue().weights(),
                old(self).store().out(),
                old(self).store().inc(),
                final(self).contracted(),
            ),
            final(self).queue().entries().len() <= old(self).store().nodes(),
            old(self).store().nodes() > 0 ==> final(self).contracted() >= 1,
            ranked(final(self).levels(), final(self).contracted()),
            final(self).queue().entries().len() == 0 ==> all_ranked(final(self).levels()),
    {
        let ghost original = self.graph.out_edges();
        let ghost out0 = self.graph.out();
        let ghost inc0 = self.graph.inc();
        let ghost weights = self.queue.weights();
        let snapshot = self.prepare();
        let mut shortcuts: Vec<Edge> = Vec::new();
        let mut level: u32 = 0;
        let start = start_clock();
        while level < u32::MAX
            invariant
                self.progress(base_of(original), shortcuts@, level as int),
                self.graph.nodes() == snapshot.nodes(),
                self.queue.weights() == weights,
                self.course(shortcuts@, level as nat) == run(
                    weights,
                    crate::course::start(weights, out0, inc0),
                    level as nat,
                ),
            ensures
                level >= 1 || self.queue.entries().len() == 0,
            decreases self.queue.entries().len(),
        {
            let ghost before = self.course(shortcuts@, level as nat);
            if !self.contract_next(level, &mut shortcuts, Ghost(base_of(original))) {
                break;
            }
            proof {
                assert(waits(before)) by {
                    if !waits(before) {
                        assert(advanced(weights, before) == before);
                    }
                }
            }
            level += 1;
            let passed = elapsed_since(&start);
            if is_longer(&passed, &max_time) {
                break;
            }
        }
        let ghost end = self.course(shortcuts@, level as nat);
        proof {
            self.lemma_progress(base_of(original), shortcuts@, level as int);
        }
        self.finish(snapshot, &shortcuts, Ghost(original), Ghost(level as int));
        proof {
            assert(left_by(*self, shortcuts@) == finished(out0, inc0, end));
        }
        shortcuts
    }

    /// Builds the hierarchy as `contract` does, but stops after `max_nodes`
    /// nodes instead of after some time.
    pub fn contract_nodes(&mut self, max_nodes: usize) -> (shortcuts: Vec<Edge>)
        requires
            old(self).is_fresh(),
        ensures
            final(self).wf(),
            final(self).store().wf(),
            final(self).store().nodes() == old(self).store().nodes(),
            is_hierarchy(
                old(self).store().out_edges(),
                shortcuts@,
                final(self).levels(),
                final(self).store().out(),
                final(self).store().inc(),
            ),
            max_nodes == 0 ==> shortcuts@.len() == 0 && forall|v: int|
                0 <= v < final(self).levels().len() ==> #[trigger] final(self).levels()[v]
                    == u32::MAX,
            left_by(*final(self), shortcuts@) == outcome(
                old(self).queue().weights(),
                old(self).store().out(),
                old(self).store().inc(),
                max_nodes as nat,
            ),
            final(self).queue().entries().len() <= old(self).store().nodes(),
            final(self).contracted() <= max_nodes,
            final(self).contracted() < max_nodes ==> final(self).queue().entries().len() == 0
                || final(self).contracted() == u32::MAX,
            ranked(final(self).levels(), final(self).contracted()),
            final(self).queue().entries().len() == 0 ==> all_ranked(final(self).levels()),
    {
        let ghost original = self.graph.out_edges();
        let ghost out0 = self.graph.out();
        let ghost inc0 = self.graph.inc();
        let ghost weights = self.queue.weights();
        let snapshot = self.prepare();
        let mut shortcuts: Vec<Edge> = Vec::new();
        let mut level: u32 = 0;
        while level < u32::MAX && (level as usize) < max_nodes
            invariant
                self.progress(base_of(original), shortcuts@, level as int),
                self.graph.nodes() == snapshot.nodes(),
                level <= max_nodes,
                level == 0 ==> shortcuts@.len() == 0 && self.levels@ == old(self).levels@,
                self.queue.weights() == weights,
                self.course(shortcuts@, level as nat) == run(
                    weights,
                    crate::course::start(weights, out0, inc0),
                    level as nat,
                ),
            ensures
                self.queue.entries().len() == 0 || level >= u32::MAX || level >= max_nodes,
            decreases self.queue.entries().len(),
        {
            let ghost before = self.course(shortcuts@, level as nat);
            if !self.contract_next(level, &mut shortcuts, Ghost(base_of(original))) {
                break;
            }
            proof {
                assert(waits(before)) by {
                    if !waits(before) {
                        assert(advanced(weights, before) == before);
                    }
                }
            }
            level += 1;
        }
        proof {
            self.lemma_progress(base_of(original), shortcuts@, level as int);
            if level < max_nodes {
                if self.queue.entries().len() == 0 {
                    self.queue.lemma_wf(self.graph.nodes());
                    lemma_stored(self.queue.entries(), self.queue.deleted(), self.graph.nodes());
                    assert forall|v: u32| !self.queue.held().contains_key(v) by {
                        if self.queue.held().contains_key(v) {
                            let x = CHState { priority: self.queue.held()[v], node_id: v };
                            assert(self.queue.entries().count(x) > 0);
                            vstd::multiset::lemma_multiset_empty_len(self.queue.entries());
                        }
                    }
                    assert(!waits(self.course(shortcuts@, level as nat)));
                }
                lemma_run_stuck(
                    weights,
                    crate::course::start(weights, out0, inc0),
                    level as nat,
                    max_nodes as nat,
                );
            }
        }
        let ghost levels_before = self.levels@;
        let ghost end = self.course(shortcuts@, level as nat);
        self.finish(snapshot, &shortcuts, Ghost(original), Ghost(level as int));
        proof {
            assert(left_by(*self, shortcuts@) == finished(out0, inc0, end));
            if max_nodes == 0 {
                assert(level == 0);
                assert(self.levels@ == levels_before);
                assert forall|v: int| 0 <= v < self.levels().len()
                    implies #[trigger] self.levels()[v]
                    == u32::MAX by {
                    assert(old(self).levels@[v] == u32::MAX);
                }
            }
        }
        shortcuts
    }
}

/// What `contractor` holds once a contraction has handed back `shortcuts`.
pub open spec fn left_by(contractor: Contractor, shortcuts: Seq<Edge>) -> Outcome {
    Outcome {
        shortcuts,
        levels: contractor.levels(),
        out: contractor.store().out(),
        inc: contractor.store().inc(),
    }
}

/// What a finished contraction leaves: `out` and `inc` are the two sides of
/// a hierarchy over `original`, level by level, without loops and without
/// two edges between the same nodes; every shortcut bridges a node that
/// was contracted before its ends; and no two nodes share a level.
pub open spec fn is_hierarchy(
    original: Set<Edge>,
    shortcuts: Seq<Edge>,
    levels: Seq<u32>,
    out: Seq<Seq<Edge>>,
    inc: Seq<Seq<Edge>>,
) -> bool {
    let all = base_of(original) + shortcuts.to_set();
    let ups = crate::rows::edges_by_source(out);
    let downs = crate::rows::edges_by_target(inc);
    &&& levels.len() == out.len()
    &&& ups == upward(base_of(all), levels, 0)
    &&& downs == downward(base_of(all), levels, 0)
    &&& hierarchy_of(original, ups, downs)
    &&& forall|u: int| 0 <= u < out.len() ==> unique_ends(#[trigger] out[u])
    &&& forall|v: int| 0 <= v < inc.len() ==> unique_ends(#[trigger] inc[v])
    &&& forall|k: int| 0 <= k < shortcuts.len() ==> bridges(all, levels, #[trigger] shortcuts[k])
    &&& forall|x: u32, y: u32|
        #[trigger] level_of(levels, x) == #[trigger] level_of(levels, y) && level_of(levels, x)
            < u32::MAX ==> x == y
}

/// A row that is deduplicated and of which then some edges are kept, twice
/// over, holds no two edges between the same nodes.
pub proof fn lemma_rows_unique(
    row: Seq<Edge>,
    first: Seq<Edge>,
    second: Seq<Edge>,
    third: Seq<Edge>,
    keep: spec_fn(Edge) -> bool,
    keep_again: spec_fn(Edge) -> bool,
)
    requires
        first == crate::graph_cleaner::deduplicated(row),
        second == crate::rows::kept(first, keep),
        third == crate::rows::kept(second, keep_again),
    ensures
        unique_ends(third),
{
    lemma_deduplicated(row);
    lemma_kept_unique(first, keep);
    lemma_kept_unique(second, keep_again);
}

} // verus!
