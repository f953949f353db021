//! What every priority term offers to the queue.

use crate::bidirectional_graph::BidirectionalGraph;
use vstd::prelude::*;

verus! {

/// `x`, or the bound of `i32` that it lies beyond.
pub open spec fn clamped(x: int) -> i32 {
    if x < i32::MIN {
        i32::MIN
    } else if x > i32::MAX {
        i32::MAX
    } else {
        x as i32
    }
}

/// `x`, or the bound of `i32` that it lies beyond.
pub fn clamp(x: i128) -> (c: i32)
    ensures
        c == clamped(x as int),
{
    if x < i32::MIN as i128 {
        i32::MIN
    } else if x > i32::MAX as i128 {
        i32::MAX
    } else {
        x as i32
    }
}

/// One term of the priority of a node.
pub trait PriorityTerm {
    /// The state of the term covers the nodes of `graph`.
    spec fn fits(&self, graph: &BidirectionalGraph) -> bool;

    /// What the term contributes for `v`, before it is cut to an `i32`.
    spec fn value(&self, graph: &BidirectionalGraph, v: u32) -> int;

    /// What the term contributes for `v` as things stand.
    fn priority(&self, graph: &BidirectionalGraph, v: u32) -> (p: i32)
        requires
            graph.wf(),
            self.fits(graph),
            v < graph.nodes(),
        ensures
            p == clamped(self.value(graph, v)),
    ;

    /// Tells the term that `v` is about to be contracted.
    fn update(&mut self, graph: &BidirectionalGraph, v: u32)
        requires
            graph.wf(),
            old(self).fits(graph),
            v < graph.nodes(),
        ensures
            final(self).fits(graph),
    ;
}

} // verus!
