//! The edge difference: how many edges the contraction of a node adds, less
//! how many it takes away.

use crate::bidirectional_graph::BidirectionalGraph;
use crate::priority_term::priority_terms::PriorityTerm;
use crate::priority_term::priority_terms::clamp;
use crate::shortcut_generator::ShortcutGenerator;
use crate::shortcut_generator::all_shortcuts;
use vstd::prelude::*;

verus! {

/// The number of shortcuts that contracting a node would insert, less the
/// number of its incoming and outgoing edges.
pub struct EdgeDifferencePriority {}

impl EdgeDifferencePriority {
    pub fn new() -> (term: Self) {
        Self {  }
    }
}

impl PriorityTerm for EdgeDifferencePriority {
    open spec fn fits(&self, graph: &BidirectionalGraph) -> bool {
        true
    }

    open spec fn value(&self, graph: &BidirectionalGraph, v: u32) -> int {
        all_shortcuts(graph.out_edges(), v, graph.inc()[v as int], graph.out()[v as int]).len()
            - (graph.inc()[v as int].len() + graph.out()[v as int].len())
    }

    fn priority(&self, graph: &BidirectionalGraph, v: u32) -> (p: i32) {
        let generator = ShortcutGenerator::new(graph);
        let shortcuts = generator.naive_shortcuts(v);
        let added = shortcuts.len() as i128;
        let incoming = graph.incoming_edges[v as usize].len() as i128;
        let outgoing = graph.outgoing_edges[v as usize].len() as i128;
        clamp(added - incoming - outgoing)
    }

    /// The term keeps no state.
    fn update(&mut self, graph: &BidirectionalGraph, v: u32) {
    }
}

} // verus!
