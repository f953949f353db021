//! The Voronoi-region term: an estimate of how many neighbors a node is the
//! nearest way out for.

use crate::bidirectional_graph::BidirectionalGraph;
use crate::graph::Edge;
use crate::priority_term::priority_terms::PriorityTerm;
use crate::priority_term::priority_terms::clamp;
use vstd::prelude::*;

verus! {

/// No edge of `row`, but for those back to `v`, costs less than `cost`.
pub open spec fn none_cheaper(row: Seq<Edge>, v: u32, cost: u32) -> bool {
    forall|i: int| 0 <= i < row.len() && (#[trigger] row[i]).target != v ==> row[i].cost >= cost
}

/// The edge `e` out of `v` is as cheap as any edge that leaves its target
/// for a node other than `v`.
pub open spec fn in_region(rows: Seq<Seq<Edge>>, v: u32, e: Edge) -> bool {
    e.target < rows.len() ==> none_cheaper(rows[e.target as int], v, e.cost)
}

/// How many edges of `row` lead into the region of `v`.
pub open spec fn region_size(rows: Seq<Seq<Edge>>, v: u32, row: Seq<Edge>) -> nat
    decreases row.len(),
{
    if row.len() == 0 {
        0
    } else {
        region_size(rows, v, row.drop_last()) + (if in_region(rows, v, row.last()) {
            1nat
        } else {
            0nat
        })
    }
}

/// The largest number whose square is at most `n`.
pub open spec fn floor_sqrt(n: nat) -> nat
    decreases n,
{
    if n == 0 {
        0
    } else {
        let r = floor_sqrt((n - 1) as nat);
        if (r + 1) * (r + 1) <= n {
            r + 1
        } else {
            r
        }
    }
}

/// `floor_sqrt(n)` squared is at most `n`, and the next number squared is
/// more.
pub proof fn lemma_floor_sqrt(n: nat)
    ensures
        floor_sqrt(n) * floor_sqrt(n) <= n,
        n < (floor_sqrt(n) + 1) * (floor_sqrt(n) + 1),
    decreases n,
{
    let s = floor_sqrt(n);
    if n == 0 {
        assert(s == 0);
        assert(s * s == 0 && (s + 1) * (s + 1) == 1) by (nonlinear_arith)
            requires
                s == 0,
        ;
    } else {
        lemma_floor_sqrt((n - 1) as nat);
        let r = floor_sqrt((n - 1) as nat);
        if (r + 1) * (r + 1) <= n {
            assert(s == r + 1);
            assert(s * s <= n && n < (s + 1) * (s + 1)) by (nonlinear_arith)
                requires
                    s == r + 1,
                    (r + 1) * (r + 1) <= n,
                    n - 1 < (r + 1) * (r + 1),
            ;
        } else {
            assert(s == r);
            assert(s * s <= n && n < (s + 1) * (s + 1)) by (nonlinear_arith)
                requires
                    s == r,
                    r * r <= n - 1,
                    !((r + 1) * (r + 1) <= n),
            ;
        }
    }
}

/// Only one number has its square at most `n` and the next square above.
pub proof fn lemma_floor_sqrt_unique(n: nat, r: nat)
    requires
        r * r <= n,
        n < (r + 1) * (r + 1),
    ensures
        r == floor_sqrt(n),
{
    lemma_floor_sqrt(n);
    let s = floor_sqrt(n);
    if r < s {
        assert((r + 1) * (r + 1) <= s * s) by (nonlinear_arith)
            requires
                r + 1 <= s,
        ;
    } else if s < r {
        assert((s + 1) * (s + 1) <= r * r) by (nonlinear_arith)
            requires
                s + 1 <= r,
        ;
    }
}

/// The largest number whose square is at most `n`.
pub fn integer_sqrt(n: usize) -> (root: usize)
    ensures
        root == floor_sqrt(n as nat),
{
    let mut root: u64 = 0;
    loop
        invariant
            root * root <= n,
            root <= 0xFFFF_FFFF,
        ensures
            root * root <= n,
            n < (root + 1) * (root + 1),
        decreases 0x1_0000_0000 - root,
    {
        assert((root + 1) * (root + 1) <= 0x1_0000_0000 * 0x1_0000_0000) by (nonlinear_arith)
            requires
                0 <= root <= 0xFFFF_FFFF,
        ;
        let next: u128 = (root as u128 + 1) * (root as u128 + 1);
        if next > n as u128 {
            break;
        }
        assert(root + 1 <= 0xFFFF_FFFF) by (nonlinear_arith)
            requires
                (root + 1) * (root + 1) <= n,
                n < 0x1_0000_0000 * 0x1_0000_0000,
                0 <= root,
        ;
        root += 1;
    }
    proof {
        lemma_floor_sqrt_unique(n as nat, root as nat);
    }
    root as usize
}

/// The square root, rounded down, of the number of outgoing edges of a node
/// that are as cheap as any edge that leaves their target for a third node.
pub struct VoronoiRegion {}

impl VoronoiRegion {
    pub fn new() -> (term: Self) {
        Self {  }
    }
}

impl PriorityTerm for VoronoiRegion {
    open spec fn fits(&self, graph: &BidirectionalGraph) -> bool {
        true
    }

    open spec fn value(&self, graph: &BidirectionalGraph, v: u32) -> int {
        floor_sqrt(region_size(graph.out(), v, graph.out()[v as int])) as int
    }

    fn priority(&self, graph: &BidirectionalGraph, v: u32) -> (p: i32) {
        let row = &graph.outgoing_edges[v as usize];
        let mut size: usize = 0;
        let mut i: usize = 0;
        assert(row@.take(0) =~= Seq::<Edge>::empty());
        while i < row.len()
            invariant
                0 <= i <= row@.len(),
                graph.wf(),
                v < graph.nodes(),
                row@ == graph.out()[v as int],
                size <= i,
                size == region_size(graph.out(), v, row@.take(i as int)),
            decreases row@.len() - i,
        {
            let edge = row[i];
            proof {
                let next = row@.take(i + 1);
                assert(next.drop_last() =~= row@.take(i as int));
                assert(next.last() == edge);
                assert(graph.out()[v as int][i as int].target < graph.nodes());
            }
            let onward = &graph.outgoing_edges[edge.target as usize];
            let mut cheapest = true;
            let mut j: usize = 0;
            while j < onward.len() && cheapest
                invariant
                    0 <= j <= onward@.len(),
                    cheapest ==> forall|k: int|
                        0 <= k < j && (#[trigger] onward@[k]).target != v ==> onward@[k].cost
                            >= edge.cost,
                    !cheapest ==> !none_cheaper(onward@, v, edge.cost),
                decreases onward@.len() - j + (if cheapest { 1int } else { 0int }),
            {
                if onward[j].target != v && onward[j].cost < edge.cost {
                    cheapest = false;
                    assert(!(onward@[j as int].cost >= edge.cost));
                }
                j += 1;
            }
            if cheapest {
                size += 1;
            }
            i += 1;
        }
        assert(row@.take(i as int) =~= row@);
        clamp(integer_sqrt(size) as i128)
    }

    /// The term keeps no state.
    fn update(&mut self, graph: &BidirectionalGraph, v: u32) {
    }
}

} // verus!
