//! The course of a contraction, told without the machine: which node leaves
//! the queue next, which shortcuts it asks for, and what the graph, the
//! queue and the levels are after it. A contraction is then a number of
//! such steps, and what it leaves behind depends on nothing but the graph,
//! the weights of the priority terms and that number.

use crate::bidirectional_graph::rows_cleared;
use crate::bidirectional_graph::rows_with;
use crate::binary_heap::leaves_before;
use crate::graph::Edge;
use crate::graph_cleaner::rows_deduplicated;
use crate::graph_cleaner::rows_without_loops;
use crate::priority_term::cost_of_queries_priority::deepened;
use crate::queue::Weights;
use crate::queue::after_pop;
use crate::queue::effective;
use crate::queue::initial_held;
use crate::queue::is_next;
use crate::queue::priority_from;
use crate::queue::shallow;
use crate::queue::unmarked;
use crate::rows::Retain;
use crate::rows::edges_by_source;
use crate::rows::goes_down;
use crate::rows::goes_up;
use crate::rows::rows_kept;
use crate::shortcut_generator::all_shortcuts;
use vstd::prelude::*;

verus! {

/// Where a contraction stands.
pub struct Course {
    /// The outgoing lists of the nodes that are left.
    pub out: Seq<Seq<Edge>>,
    /// The incoming lists of the nodes that are left.
    pub inc: Seq<Seq<Edge>>,
    /// The priority that the queue holds for each node that waits.
    pub held: Map<u32, i32>,
    /// Which nodes have been contracted.
    pub deleted: Seq<bool>,
    /// The depth of each node.
    pub depth: Seq<u32>,
    /// The level of each node.
    pub levels: Seq<u32>,
    /// The shortcuts found so far.
    pub shortcuts: Seq<Edge>,
    /// The level that the next node gets.
    pub next: nat,
}

/// What a contraction leaves behind.
pub struct Outcome {
    pub shortcuts: Seq<Edge>,
    pub levels: Seq<u32>,
    pub out: Seq<Seq<Edge>>,
    pub inc: Seq<Seq<Edge>>,
}

/// Rows after both cleanup passes.
pub open spec fn rows_cleaned(rows: Seq<Seq<Edge>>) -> Seq<Seq<Edge>> {
    rows_without_loops(rows_deduplicated(rows))
}

/// The priority of each node as the course stands.
pub open spec fn current(weights: Weights, c: Course) -> spec_fn(u32) -> i32 {
    |w: u32| priority_from(weights, c.deleted, c.depth, c.out, c.inc, w)
}

/// Some node waits.
pub open spec fn waits(c: Course) -> bool {
    exists|v: u32| c.held.contains_key(v)
}

/// The node that leaves the queue next.
pub open spec fn chosen(weights: Weights, c: Course) -> u32 {
    choose|v: u32| is_next(c.held, current(weights, c), v)
}

/// The course after the next node has been contracted.
pub open spec fn step(weights: Weights, c: Course) -> Course {
    let v = chosen(weights, c);
    let found = all_shortcuts(
        edges_by_source(c.out),
        v,
        c.inc[v as int],
        c.out[v as int],
    );
    Course {
        out: rows_cleared(rows_with(c.out, found, true), v as int, Retain::NotInto(v).as_spec()),
        inc: rows_cleared(rows_with(c.inc, found, false), v as int, Retain::NotOutOf(v).as_spec()),
        held: after_pop(c.held, current(weights, c), v),
        deleted: c.deleted.update(v as int, true),
        depth: deepened(c.depth, v as int, c.out[v as int]),
        levels: c.levels.update(v as int, c.next as u32),
        shortcuts: c.shortcuts + found,
        next: c.next + 1,
    }
}

/// The course after one more node, if one waits and a level is left for it.
pub open spec fn advanced(weights: Weights, c: Course) -> Course {
    if waits(c) && c.next < u32::MAX {
        step(weights, c)
    } else {
        c
    }
}

/// The course after up to `budget` nodes.
pub open spec fn run(weights: Weights, c: Course, budget: nat) -> Course
    decreases budget,
{
    if budget == 0 {
        c
    } else {
        advanced(weights, run(weights, c, (budget - 1) as nat))
    }
}

/// The course at the start of the contraction of a graph: the graph
/// cleaned up, every node in the queue at the priority that it had before
/// the cleanup, and no node with a level.
pub open spec fn start(weights: Weights, out: Seq<Seq<Edge>>, inc: Seq<Seq<Edge>>) -> Course {
    Course {
        out: rows_cleaned(out),
        inc: rows_cleaned(inc),
        held: initial_held(weights, out, inc),
        deleted: unmarked(out.len()),
        depth: shallow(out.len()),
        levels: Seq::new(out.len(), |i: int| u32::MAX),
        shortcuts: Seq::empty(),
        next: 0,
    }
}

/// What is left when a contraction that started from the rows `out` and
/// `inc` ends at `c`: the rows cleaned up, with the shortcuts in them,
/// cleaned up again, and cut down to the edges that go up, or down.
pub open spec fn finished(out: Seq<Seq<Edge>>, inc: Seq<Seq<Edge>>, c: Course) -> Outcome {
    Outcome {
        shortcuts: c.shortcuts,
        levels: c.levels,
        out: rows_kept(
            rows_cleaned(rows_with(rows_cleaned(out), c.shortcuts, true)),
            goes_up(c.levels),
        ),
        inc: rows_kept(
            rows_cleaned(rows_with(rows_cleaned(inc), c.shortcuts, false)),
            goes_down(c.levels),
        ),
    }
}

/// What the contraction of up to `budget` nodes of a graph leaves behind.
pub open spec fn outcome(
    weights: Weights,
    out: Seq<Seq<Edge>>,
    inc: Seq<Seq<Edge>>,
    budget: nat,
) -> Outcome {
    finished(out, inc, run(weights, start(weights, out, inc), budget))
}

/// Only one node can be the next to leave.
pub proof fn lemma_next_unique(held: Map<u32, i32>, cur: spec_fn(u32) -> i32, a: u32, b: u32)
    requires
        is_next(held, cur, a),
        is_next(held, cur, b),
    ensures
        a == b,
{
    assert(leaves_before(effective(held, cur, a), effective(held, cur, b)));
    assert(leaves_before(effective(held, cur, b), effective(held, cur, a)));
}

/// A course that cannot go on stays as it is, whatever the budget.
pub proof fn lemma_run_stuck(weights: Weights, c: Course, done: nat, budget: nat)
    requires
        !waits(run(weights, c, done)) || run(weights, c, done).next >= u32::MAX,
        done <= budget,
    ensures
        run(weights, c, budget) == run(weights, c, done),
    decreases budget - done,
{
    if done < budget {
        lemma_run_stuck(weights, c, done, (budget - 1) as nat);
    }
}

} // verus!
