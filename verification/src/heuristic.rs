//! Bounds on the cost of a cheapest path that need no search.

use vstd::prelude::*;

verus! {

/// An estimate of the cost of a cheapest path between two nodes.
pub trait Heuristic {
    /// Whether the heuristic knows of a way from `source` to `target`, if
    /// it can tell.
    fn is_reachable(&self, source: u32, target: u32) -> Option<bool>;

    /// A cost that a cheapest path from `source` to `target` does not
    /// exceed, if the heuristic knows one.
    fn upper_bound(&self, source: u32, target: u32) -> Option<u32>;

    /// A cost that no path from `source` to `target` is below, if the
    /// heuristic knows one.
    fn lower_bound(&self, source: u32, target: u32) -> Option<u32>;
}

} // verus!
