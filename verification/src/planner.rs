//! The three operations that a route planner is made of: load a graph,
//! contract it into a hierarchy, and query the hierarchy.

use crate::bidirectional_graph::BidirectionalGraph;
use crate::bidirectional_graph::rows_with;
use crate::ch_dijkstra::ChDijsktra;
use crate::ch_dijkstra::QueryError;
use crate::contraction::hierarchy_of;
use crate::contractor::Contractor;
use crate::contractor::all_ranked;
use crate::contractor::ranked;
use crate::course::outcome;
use crate::fmi_reader::ParseError;
use crate::fmi_reader::counts_ok;
use crate::fmi_reader::edge_count;
use crate::fmi_reader::edges_of;
use crate::fmi_reader::line_ok;
use crate::fmi_reader::node_count;
use crate::fmi_reader::parse_graph;
use crate::graph::Edge;
use crate::laws::lemma_query_finds_distance;
use crate::laws::lemma_query_finds_none;
use crate::paths::inverted;
use crate::paths::is_distance;
use crate::paths::is_path;
use crate::paths::lemma_inverted_twice;
use crate::paths::path_cost;
use crate::queue::unit_weights;
use std::time::Duration;
use vstd::prelude::*;

verus! {

/// A contraction hierarchy, frozen for queries, with the graph that it was
/// built from in mind.
pub struct ContractionHierarchy {
    engine: ChDijsktra,
    levels: Vec<u32>,
    shortcuts: Vec<Edge>,
    contracted: usize,
    original: Ghost<Set<Edge>>,
}

impl ContractionHierarchy {
    /// The edges of the graph that the hierarchy was built from.
    pub closed spec fn original(&self) -> Set<Edge> {
        self.original@
    }

    /// The number of nodes.
    pub closed spec fn nodes(&self) -> nat {
        self.engine.nodes()
    }

    /// The two sides of the query engine are the two sides of a hierarchy
    /// over the original graph.
    pub closed spec fn wf(&self) -> bool {
        &&& self.engine.wf()
        &&& hierarchy_of(self.original@, self.engine.forward(), inverted(self.engine.backward()))
    }

    /// The level of each node.
    pub closed spec fn ranks(&self) -> Seq<u32> {
        self.levels@
    }

    /// The shortcuts that contraction added.
    pub closed spec fn added(&self) -> Seq<Edge> {
        self.shortcuts@
    }

    /// The number of nodes that were contracted.
    pub closed spec fn contracted(&self) -> nat {
        self.contracted as nat
    }

    /// The number of nodes that were contracted.
    pub fn count_contracted(&self) -> (n: usize)
        ensures
            n == self.contracted(),
    {
        self.contracted
    }

    /// The level of each node: the rank at which it was contracted, or
    /// `u32::MAX` if it was not.
    pub fn levels(&self) -> (levels: &Vec<u32>)
        ensures
            levels@ == self.ranks(),
    {
        &self.levels
    }

    /// The shortcuts that contraction added, in the order in which they
    /// were found.
    pub fn shortcuts(&self) -> (shortcuts: &Vec<Edge>)
        ensures
            shortcuts@ == self.added(),
    {
        &self.shortcuts
    }

    /// The query engine.
    pub fn engine(&self) -> (engine: &ChDijsktra)
        requires
            self.wf(),
        ensures
            engine.wf(),
            engine.nodes() == self.nodes(),
            hierarchy_of(self.original(), engine.forward(), inverted(engine.backward())),
    {
        &self.engine
    }
}

/// Reads the text of a graph file into a graph store: as many nodes as the
/// file announces, and every edge of the file, in the order of the file, in
/// the outgoing list of its source and the incoming list of its target. An
/// edge to or from a node beyond those that the file announces makes the
/// store grow. A text that is not as the format asks gives the first line
/// that is missing or malformed.
pub fn load_graph(text: &[u8]) -> (loaded: Result<BidirectionalGraph, ParseError>)
    ensures
        match loaded {
            Ok(store) => counts_ok(text@) && (forall|k: nat| line_ok(text@, k)) && store.wf()
                && store.mirrored() && store.out() == rows_with(
                Seq::new(node_count(text@), |u: int| Seq::<Edge>::empty()),
                edges_of(text@, edge_count(text@)),
                true,
            ) && store.inc() == rows_with(
                Seq::new(node_count(text@), |u: int| Seq::<Edge>::empty()),
                edges_of(text@, edge_count(text@)),
                false,
            ),
            Err(error) => !line_ok(text@, error.line as nat) && forall|k: nat|
                k < error.line ==> line_ok(text@, k),
        },
{
    match parse_graph(text) {
        Err(error) => Err(error),
        Ok(file) => {
            let mut store = BidirectionalGraph::with_nodes(file.nodes.len());
            store.add_edges(&file.edges);
            proof {
                assert(file.edges@ =~= edges_of(text@, edge_count(text@)));
            }
            Ok(store)
        },
    }
}

/// Builds the hierarchy of `store`, contracting nodes until none is left
/// or more than `time_budget` has passed. The time is looked at after each
/// node, so at least one node is contracted if the graph has any. The
/// shortcuts and the levels are those that the contraction of as many nodes
/// as were contracted leaves; where that is every node, every node has a
/// level.
pub fn contract(store: BidirectionalGraph, time_budget: Duration) -> (ch: ContractionHierarchy)
    requires
        store.wf(),
        store.mirrored(),
    ensures
        ch.wf(),
        ch.original() == store.out_edges(),
        ch.nodes() == store.nodes(),
        ch.added() == outcome(
            unit_weights(),
            store.out(),
            store.inc(),
            ch.contracted(),
        ).shortcuts,
        ch.ranks() == outcome(unit_weights(), store.out(), store.inc(), ch.contracted()).levels,
        ch.ranks().len() == store.nodes(),
        ch.contracted() <= store.nodes(),
        store.nodes() > 0 ==> ch.contracted() >= 1,
        ranked(ch.ranks(), ch.contracted()),
        ch.contracted() == store.nodes() ==> all_ranked(ch.ranks()),
{
    let ghost original = store.out_edges();
    let mut contractor = Contractor::new(store);
    let shortcuts = contractor.contract(time_budget);
    let contracted = contractor.count_contracted();
    let levels = copy_levels(contractor.node_levels());
    let graph = match contractor.get_graph() {
        Some(graph) => graph,
        None => BidirectionalGraph::new(),
    };
    let engine = ChDijsktra::new(graph);
    proof {
        lemma_inverted_twice(graph.in_edges());
    }
    ContractionHierarchy { engine, levels, shortcuts, contracted, original: Ghost(original) }
}

/// Builds the hierarchy of `store` as `contract` does, if the store is well
/// formed and holds the same edges in both structures; else hands it back.
pub fn try_contract(store: BidirectionalGraph, time_budget: Duration) -> (built: Result<
    ContractionHierarchy,
    BidirectionalGraph,
>)
    ensures
        match built {
            Ok(ch) => {
                &&& store.wf()
                &&& store.mirrored()
                &&& ch.wf()
                &&& ch.original() == store.out_edges()
                &&& ch.nodes() == store.nodes()
                &&& ch.added() == outcome(
                    unit_weights(),
                    store.out(),
                    store.inc(),
                    ch.contracted(),
                ).shortcuts
                &&& ch.ranks() == outcome(
                    unit_weights(),
                    store.out(),
                    store.inc(),
                    ch.contracted(),
                ).levels
                &&& ch.ranks().len() == store.nodes()
                &&& ch.contracted() <= store.nodes()
                &&& store.nodes() > 0 ==> ch.contracted() >= 1
                &&& ranked(ch.ranks(), ch.contracted())
                &&& ch.contracted() == store.nodes() ==> all_ranked(ch.ranks())
            },
            Err(back) => back == store && !(store.wf() && store.mirrored()),
        },
{
    if store.is_well_formed() && store.is_mirrored() {
        Ok(contract(store, time_budget))
    } else {
        Err(store)
    }
}

/// The cost of a cheapest path from `source` to `target` in the graph that
/// `ch` was built from, if there is a path at a cost below `u32::MAX`; or
/// the first of the two nodes that is no node of the graph.
pub fn query(ch: &ContractionHierarchy, source: u32, target: u32) -> (answer: Result<
    Option<u32>,
    QueryError,
>)
    requires
        ch.wf(),
    ensures
        match answer {
            Ok(Some(c)) => source < ch.nodes() && target < ch.nodes() && c < u32::MAX
                && is_distance(ch.original(), source, target, c as nat),
            Ok(None) => source < ch.nodes() && target < ch.nodes()
                && forall|p: Seq<Edge>| #[trigger]
                is_path(ch.original(), p, source, target) ==> path_cost(p) >= u32::MAX,
            Err(QueryError::OutOfRange(node)) => node >= ch.nodes() && (if source >= ch.nodes() {
                node == source
            } else {
                node == target
            }),
        },
{
    let answer = ch.engine.query(source, target);
    proof {
        let ups = ch.engine.forward();
        let downs = inverted(ch.engine.backward());
        lemma_inverted_twice(ch.engine.backward());
        match answer {
            Ok(Some(c)) => {
                lemma_query_finds_distance(ch.original@, ups, downs, source, target, c as nat);
            },
            Ok(None) => {
                lemma_query_finds_none(ch.original@, ups, downs, source, target);
            },
            Err(_) => {},
        }
    }
    answer
}

/// A copy of the levels.
fn copy_levels(levels: &Vec<u32>) -> (copy: Vec<u32>)
    ensures
        copy@ == levels@,
{
    let mut copy: Vec<u32> = Vec::with_capacity(levels.len());
    let mut i: usize = 0;
    while i < levels.len()
        invariant
            0 <= i <= levels@.len(),
            copy@ == levels@.take(i as int),
        decreases levels@.len() - i,
    {
        copy.push(levels[i]);
        assert(copy@ =~= levels@.take(i + 1));
        i += 1;
    }
    assert(levels@.take(i as int) =~= levels@);
    copy
}

} // verus!
