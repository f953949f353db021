//! A landmark: a node with the cost of the cheapest path from it to every
//! node, and from every node to it.

use ahash::RandomState;
use crate::bidirectional_graph::BidirectionalGraph;
use crate::dijkstra_helper::is_cost_table;
use crate::graph::Edge;
use crate::hashing::map_copy;
use crate::hashing::map_get;
use crate::paths::inverted;
use crate::paths::is_path;
use crate::paths::lemma_inverted_twice;
use crate::paths::lemma_path_concat;
use crate::paths::lemma_reversed_path;
use crate::paths::path_cost;
use crate::paths::reaches;
use crate::paths::reversed;
use std::collections::HashMap;
use vstd::prelude::*;

verus! {

pub struct Landmark {
    landmark: u32,
    cost_to: HashMap<u32, u32, RandomState>,
    cost_from: HashMap<u32, u32, RandomState>,
}

/// `a - b`, or zero where `b` is larger.
pub open spec fn excess(a: u32, b: u32) -> u32 {
    if a >= b {
        (a - b) as u32
    } else {
        0
    }
}

/// The larger of the two.
pub open spec fn larger(a: u32, b: u32) -> u32 {
    if a >= b {
        a
    } else {
        b
    }
}

impl Landmark {
    /// The node that is the landmark.
    pub closed spec fn node(&self) -> u32 {
        self.landmark
    }

    /// For each node that can be reached from the landmark, the cost of
    /// the way there.
    pub closed spec fn to(&self) -> Map<u32, u32> {
        self.cost_to@
    }

    /// For each node from which the landmark can be reached, the cost of
    /// the way from there.
    pub closed spec fn from(&self) -> Map<u32, u32> {
        self.cost_from@
    }

    /// The two tables hold the costs of the cheapest paths of `store` from
    /// the landmark and to it.
    pub open spec fn describes(&self, store: BidirectionalGraph) -> bool {
        &&& is_cost_table(store.out_edges(), self.node(), (u32::MAX - 1) as u32, self.to())
        &&& is_cost_table(
            inverted(store.in_edges()),
            self.node(),
            (u32::MAX - 1) as u32,
            self.from(),
        )
    }

    /// What `upper_bound` finds.
    pub open spec fn upper(&self, source: u32, target: u32) -> Option<u32> {
        if self.from().contains_key(source) && self.to().contains_key(target)
            && self.from()[source] + self.to()[target] <= u32::MAX {
            Some((self.from()[source] + self.to()[target]) as u32)
        } else {
            None
        }
    }

    /// What `lower_bound` finds.
    pub open spec fn lower(&self, source: u32, target: u32) -> Option<u32> {
        if self.to().contains_key(source) && self.to().contains_key(target)
            && self.from().contains_key(source) && self.from().contains_key(target) {
            Some(
                larger(
                    excess(self.to()[target], self.to()[source]),
                    excess(self.from()[source], self.from()[target]),
                ),
            )
        } else {
            None
        }
    }

    pub fn new(
        landmark: u32,
        cost_to: HashMap<u32, u32, RandomState>,
        cost_from: HashMap<u32, u32, RandomState>,
    ) -> (created: Self)
        ensures
            created.node() == landmark,
            created.to() == cost_to@,
            created.from() == cost_from@,
    {
        Landmark { landmark, cost_to, cost_from }
    }

    /// A landmark with the same node and tables.
    pub fn copy(&self) -> (copy: Self)
        ensures
            copy.node() == self.node(),
            copy.to() == self.to(),
            copy.from() == self.from(),
    {
        Landmark {
            landmark: self.landmark,
            cost_to: map_copy(&self.cost_to),
            cost_from: map_copy(&self.cost_from),
        }
    }

    /// Whether the landmark can be reached from `source` and `target` from
    /// the landmark.
    pub fn is_reachable(&self, source: u32, target: u32) -> (reachable: bool)
        ensures
            reachable == (self.from().contains_key(source) && self.to().contains_key(target)),
    {
        map_get(&self.cost_from, source).is_some() && map_get(&self.cost_to, target).is_some()
    }

    /// The node that is the landmark.
    pub fn landmark(self) -> (node: u32)
        ensures
            node == self.node(),
    {
        self.landmark
    }

    /// The cost of the way from `source` over the landmark to `target`, if
    /// there is one and its cost fits.
    pub fn upper_bound(&self, source: u32, target: u32) -> (bound: Option<u32>)
        ensures
            bound == self.upper(source, target),
    {
        let cost_from_source = match map_get(&self.cost_from, source) {
            Some(cost) => cost,
            None => {
                return None;
            },
        };
        let cost_to_target = match map_get(&self.cost_to, target) {
            Some(cost) => cost,
            None => {
                return None;
            },
        };
        cost_from_source.checked_add(cost_to_target)
    }

    /// By how much `target` lies further from the landmark than `source`,
    /// or the landmark further from `source` than from `target`, whichever
    /// is more; if all four costs are known.
    pub fn lower_bound(&self, source: u32, target: u32) -> (bound: Option<u32>)
        ensures
            bound == self.lower(source, target),
    {
        let cost_to_source = match map_get(&self.cost_to, source) {
            Some(cost) => cost,
            None => {
                return None;
            },
        };
        let cost_to_target = match map_get(&self.cost_to, target) {
            Some(cost) => cost,
            None => {
                return None;
            },
        };
        let cost_from_source = match map_get(&self.cost_from, source) {
            Some(cost) => cost,
            None => {
                return None;
            },
        };
        let cost_from_target = match map_get(&self.cost_from, target) {
            Some(cost) => cost,
            None => {
                return None;
            },
        };
        let ahead = if cost_to_target >= cost_to_source {
            cost_to_target - cost_to_source
        } else {
            0
        };
        let behind = if cost_from_source >= cost_from_target {
            cost_from_source - cost_from_target
        } else {
            0
        };
        if ahead >= behind {
            Some(ahead)
        } else {
            Some(behind)
        }
    }

    /// The upper bound of a landmark is the cost of a path from `source`
    /// to `target`.
    pub proof fn lemma_upper_bound(&self, store: BidirectionalGraph, source: u32, target: u32)
        requires
            self.describes(store),
            store.mirrored(),
            self.upper(source, target) is Some,
        ensures
            reaches(store.out_edges(), source, target, self.upper(source, target)->0 as nat),
    {
        let es = store.out_edges();
        let back = inverted(store.in_edges());
        let l = self.node();
        let p = choose|p: Seq<Edge>|
            is_path(back, p, l, source) && path_cost(p) == self.from()[source] as nat;
        let q = choose|q: Seq<Edge>|
            is_path(es, q, l, target) && path_cost(q) == self.to()[target] as nat;
        lemma_reversed_path(back, p, l, source);
        lemma_inverted_twice(es);
        lemma_path_concat(es, reversed(p), q, source, l, target);
    }

    /// No path from `source` to `target` costs less than the lower bound
    /// of a landmark.
    pub proof fn lemma_lower_bound(
        &self,
        store: BidirectionalGraph,
        source: u32,
        target: u32,
        path: Seq<Edge>,
    )
        requires
            self.describes(store),
            store.mirrored(),
            self.lower(source, target) is Some,
            is_path(store.out_edges(), path, source, target),
        ensures
            self.lower(source, target)->0 <= path_cost(path),
    {
        let es = store.out_edges();
        let back = inverted(store.in_edges());
        let l = self.node();
        // from the landmark to `source` and on along the path
        let p = choose|p: Seq<Edge>|
            is_path(es, p, l, source) && path_cost(p) == self.to()[source] as nat;
        lemma_path_concat(es, p, path, l, source, target);
        assert(self.to()[target] <= path_cost(p + path));
        // along the path and on from `target` to the landmark
        let q = choose|q: Seq<Edge>|
            is_path(back, q, l, target) && path_cost(q) == self.from()[target] as nat;
        lemma_reversed_path(es, path, source, target);
        lemma_path_concat(back, q, reversed(path), l, target, source);
        assert(self.from()[source] <= path_cost(q + reversed(path)));
    }
}

} // verus!
