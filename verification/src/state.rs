//! The entries of the contraction queue and of a search queue.

use crate::binary_heap::HeapOrdered;
use vstd::prelude::*;

verus! {

/// A node with the priority that the queue holds it at.
#[derive(Debug, Clone, Copy, PartialEq, Eq, Structural)]
pub struct CHState {
    pub priority: i32,
    pub node_id: u32,
}

impl CHState {
    pub fn new(priority: i32, node_id: u32) -> (state: Self)
        ensures
            state == (CHState { priority, node_id }),
    {
        Self { priority, node_id }
    }
}

/// The node with the lowest priority leaves first; of two with the same
/// priority, the one with the higher id.
impl HeapOrdered for CHState {
    open spec fn key(&self) -> int {
        self.priority as int
    }

    open spec fn tie(&self) -> int {
        self.node_id as int
    }

    fn precedes(&self, other: &Self) -> (b: bool) {
        self.priority < other.priority || (self.priority == other.priority && self.node_id
            >= other.node_id)
    }
}

/// A node with the cost at which a search holds it.
#[derive(Debug, Clone, Copy, PartialEq, Eq, Structural)]
pub struct State {
    pub node_cost: u32,
    pub node_id: u32,
}

/// The node with the lowest cost leaves first; of two with the same cost,
/// the one with the higher id.
impl HeapOrdered for State {
    open spec fn key(&self) -> int {
        self.node_cost as int
    }

    open spec fn tie(&self) -> int {
        self.node_id as int
    }

    fn precedes(&self, other: &Self) -> (b: bool) {
        self.node_cost < other.node_cost || (self.node_cost == other.node_cost && self.node_id
            >= other.node_id)
    }
}

} // verus!
