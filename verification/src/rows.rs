//! Adjacency lists as rows of edges: how they grow, what is kept of them,
//! and how edges are sorted into them.

use crate::graph::Edge;
use vstd::prelude::*;

verus! {

/// The lists of a `Vec` of adjacency lists, as sequences.
pub open spec fn lists(v: Seq<Vec<Edge>>) -> Seq<Seq<Edge>> {
    Seq::new(v.len(), |i: int| v[i]@)
}

/// `rows` with empty rows added at the end until there are `n` of them.
pub open spec fn grown(rows: Seq<Seq<Edge>>, n: nat) -> Seq<Seq<Edge>> {
    if n <= rows.len() {
        rows
    } else {
        rows + Seq::new((n - rows.len()) as nat, |i: int| Seq::<Edge>::empty())
    }
}

/// `rows` with `edge` appended to row `i`.
pub open spec fn appended(rows: Seq<Seq<Edge>>, i: int, edge: Edge) -> Seq<Seq<Edge>> {
    rows.update(i, rows[i].push(edge))
}

/// The larger endpoint of `edge`.
pub open spec fn top_node(edge: Edge) -> u32 {
    if edge.source >= edge.target {
        edge.source
    } else {
        edge.target
    }
}

/// The edges held in rows indexed by source node.
pub open spec fn edges_by_source(rows: Seq<Seq<Edge>>) -> Set<Edge> {
    Set::new(|e: Edge| e.source < rows.len() && rows[e.source as int].contains(e))
}

/// The edges held in rows indexed by target node.
pub open spec fn edges_by_target(rows: Seq<Seq<Edge>>) -> Set<Edge> {
    Set::new(|e: Edge| e.target < rows.len() && rows[e.target as int].contains(e))
}

/// Each edge is in the row of its source, and ends at a node that has a row.
pub open spec fn rows_by_source(rows: Seq<Seq<Edge>>) -> bool {
    forall|u: int, i: int|
        0 <= u < rows.len() && 0 <= i < rows[u].len() ==> (#[trigger] rows[u][i]).source == u
            && rows[u][i].target < rows.len()
}

/// Each edge is in the row of its target, and starts at a node that has a row.
pub open spec fn rows_by_target(rows: Seq<Seq<Edge>>) -> bool {
    forall|v: int, i: int|
        0 <= v < rows.len() && 0 <= i < rows[v].len() ==> (#[trigger] rows[v][i]).target == v
            && rows[v][i].source < rows.len()
}

/// The edges of `row` that `keep` holds of, in their order.
pub open spec fn kept(row: Seq<Edge>, keep: spec_fn(Edge) -> bool) -> Seq<Edge>
    decreases row.len(),
{
    if row.len() == 0 {
        row
    } else if keep(row.last()) {
        kept(row.drop_last(), keep).push(row.last())
    } else {
        kept(row.drop_last(), keep)
    }
}

/// An edge is among the kept ones if and only if it is in the row and
/// `keep` holds of it, and the kept ones are no more than the row.
pub proof fn lemma_kept(row: Seq<Edge>, keep: spec_fn(Edge) -> bool)
    ensures
        forall|e: Edge| #[trigger] kept(row, keep).contains(e) ==> row.contains(e) && keep(e),
        forall|e: Edge| #[trigger] row.contains(e) && keep(e) ==> kept(row, keep).contains(e),
        kept(row, keep).len() <= row.len(),
    decreases row.len(),
{
    if row.len() > 0 {
        let rest = row.drop_last();
        let last = row.last();
        lemma_kept(rest, keep);
        let k = kept(row, keep);
        let kr = kept(rest, keep);
        assert forall|e: Edge| #[trigger] k.contains(e) implies row.contains(e) && keep(e) by {
            let i = choose|i: int| 0 <= i < k.len() && k[i] == e;
            if i < kr.len() {
                assert(kr[i] == e);
                assert(kr.contains(e));
                assert(rest.contains(e));
                let j = choose|j: int| 0 <= j < rest.len() && rest[j] == e;
                assert(row[j] == e);
            } else {
                assert(e == last);
                assert(row[row.len() - 1] == e);
            }
        }
        assert forall|e: Edge| #[trigger] row.contains(e) && keep(e) implies k.contains(e) by {
            let j = choose|j: int| 0 <= j < row.len() && row[j] == e;
            if j < rest.len() {
                assert(rest[j] == e);
                assert(rest.contains(e));
                assert(kr.contains(e));
                let i = choose|i: int| 0 <= i < kr.len() && kr[i] == e;
                assert(k[i] == e);
            } else {
                assert(k[k.len() - 1] == e);
            }
        }
    }
}

/// The level of `node`: its entry in `levels`, or `u32::MAX`, the level of a
/// node that has not been contracted, where it has none.
pub open spec fn level_of(levels: Seq<u32>, node: u32) -> u32 {
    if node < levels.len() {
        levels[node as int]
    } else {
        u32::MAX
    }
}

/// Whether an edge leads to a node that is at least as high as its source.
pub open spec fn goes_up(levels: Seq<u32>) -> spec_fn(Edge) -> bool {
    |e: Edge| level_of(levels, e.source) <= level_of(levels, e.target)
}

/// Whether an edge leaves a node that is at least as high as its target.
pub open spec fn goes_down(levels: Seq<u32>) -> spec_fn(Edge) -> bool {
    |e: Edge| level_of(levels, e.source) >= level_of(levels, e.target)
}

/// A rule that says which edges of a list stay.
pub enum Retain<'a> {
    /// Edges that do not lead from a node to itself.
    NoLoops,
    /// Edges that do not end in the node.
    NotInto(u32),
    /// Edges that do not start at the node.
    NotOutOf(u32),
    /// Edges whose target is at least as high as their source.
    Upward(&'a Vec<u32>),
    /// Edges whose source is at least as high as their target.
    Downward(&'a Vec<u32>),
}

impl<'a> Retain<'a> {
    /// Whether `edge` stays.
    pub open spec fn holds(&self, edge: Edge) -> bool {
        match self {
            Retain::NoLoops => edge.source != edge.target,
            Retain::NotInto(node) => edge.target != *node,
            Retain::NotOutOf(node) => edge.source != *node,
            Retain::Upward(levels) => level_of(levels@, edge.source) <= level_of(
                levels@,
                edge.target,
            ),
            Retain::Downward(levels) => level_of(levels@, edge.source) >= level_of(
                levels@,
                edge.target,
            ),
        }
    }

    /// The rule as a predicate.
    pub open spec fn as_spec(&self) -> spec_fn(Edge) -> bool {
        |e: Edge| self.holds(e)
    }

    /// Whether `edge` stays.
    pub fn applies(&self, edge: &Edge) -> (stays: bool)
        ensures
            stays == self.holds(*edge),
    {
        match self {
            Retain::NoLoops => edge.source != edge.target,
            Retain::NotInto(node) => edge.target != *node,
            Retain::NotOutOf(node) => edge.source != *node,
            Retain::Upward(levels) => read_level(levels, edge.source) <= read_level(
                levels,
                edge.target,
            ),
            Retain::Downward(levels) => read_level(levels, edge.source) >= read_level(
                levels,
                edge.target,
            ),
        }
    }
}

/// The level of `node`.
pub fn read_level(levels: &Vec<u32>, node: u32) -> (level: u32)
    ensures
        level == level_of(levels@, node),
{
    if (node as usize) < levels.len() {
        levels[node as usize]
    } else {
        u32::MAX
    }
}

/// Keeps the edges of `row` that `rule` holds of, in their order.
pub fn retain_edges(row: &mut Vec<Edge>, rule: &Retain)
    ensures
        final(row)@ == kept(old(row)@, rule.as_spec()),
{
    let ghost before = row@;
    let mut out: Vec<Edge> = Vec::new();
    let mut i: usize = 0;
    assert(before.take(0) =~= Seq::<Edge>::empty());
    while i < row.len()
        invariant
            0 <= i <= row@.len(),
            row@ == before,
            out@ == kept(before.take(i as int), rule.as_spec()),
        decreases row@.len() - i,
    {
        let edge = row[i];
        let stays = rule.applies(&edge);
        proof {
            let next = before.take(i + 1);
            assert(next.drop_last() =~= before.take(i as int));
            assert(next.last() == edge);
        }
        if stays {
            out.push(edge);
        }
        i += 1;
    }
    assert(before.take(i as int) =~= before);
    *row = out;
}

/// Keeps in row `i` the edges that `rule` holds of.
pub fn retain_in_row(rows: &mut Vec<Vec<Edge>>, i: usize, rule: &Retain)
    requires
        i < old(rows)@.len(),
    ensures
        final(rows)@.len() == old(rows)@.len(),
        lists(final(rows)@) == lists(old(rows)@).update(
            i as int,
            kept(lists(old(rows)@)[i as int], rule.as_spec()),
        ),
{
    let ghost before = rows@;
    retain_edges(&mut rows[i], rule);
    assert(lists(rows@) =~~= lists(before).update(
        i as int,
        kept(lists(before)[i as int], rule.as_spec()),
    ));
}

/// Each row with only the edges that `keep` holds of.
pub open spec fn rows_kept(rows: Seq<Seq<Edge>>, keep: spec_fn(Edge) -> bool) -> Seq<Seq<Edge>> {
    Seq::new(rows.len(), |u: int| kept(rows[u], keep))
}

/// The rows of `rows`, the first `n` of them with only the edges that `keep`
/// holds of.
pub open spec fn rows_kept_until(rows: Seq<Seq<Edge>>, keep: spec_fn(Edge) -> bool, n: int) -> Seq<
    Seq<Edge>,
> {
    Seq::new(
        rows.len(),
        |u: int|
            if u < n {
                kept(rows[u], keep)
            } else {
                rows[u]
            },
    )
}

/// The edges of `es` that `keep` holds of.
pub open spec fn edges_kept(es: Set<Edge>, keep: spec_fn(Edge) -> bool) -> Set<Edge> {
    Set::new(|e: Edge| es.contains(e) && keep(e))
}

/// Keeping edges in rows indexed by source keeps them in the set of edges.
pub proof fn lemma_rows_kept_by_source(rows: Seq<Seq<Edge>>, keep: spec_fn(Edge) -> bool)
    requires
        rows_by_source(rows),
    ensures
        rows_by_source(rows_kept(rows, keep)),
        edges_by_source(rows_kept(rows, keep)) == edges_kept(edges_by_source(rows), keep),
{
    let after = rows_kept(rows, keep);
    assert forall|u: int, i: int| 0 <= u < after.len() && 0 <= i < after[u].len() implies (
    #[trigger] after[u][i]).source == u && after[u][i].target < after.len() by {
        let e = after[u][i];
        assert(kept(rows[u], keep).contains(e));
        lemma_kept(rows[u], keep);
        let j = choose|j: int| 0 <= j < rows[u].len() && rows[u][j] == e;
        assert(rows[u][j].source == u);
    }
    assert forall|e: Edge| edges_by_source(after).contains(e) == edges_kept(
        edges_by_source(rows),
        keep,
    ).contains(e) by {
        let u = e.source as int;
        if u < rows.len() {
            lemma_kept(rows[u], keep);
        }
    }
    assert(edges_by_source(after) =~= edges_kept(edges_by_source(rows), keep));
}

/// Keeping edges in rows indexed by target keeps them in the set of edges.
pub proof fn lemma_rows_kept_by_target(rows: Seq<Seq<Edge>>, keep: spec_fn(Edge) -> bool)
    requires
        rows_by_target(rows),
    ensures
        rows_by_target(rows_kept(rows, keep)),
        edges_by_target(rows_kept(rows, keep)) == edges_kept(edges_by_target(rows), keep),
{
    let after = rows_kept(rows, keep);
    assert forall|v: int, i: int| 0 <= v < after.len() && 0 <= i < after[v].len() implies (
    #[trigger] after[v][i]).target == v && after[v][i].source < after.len() by {
        let e = after[v][i];
        assert(kept(rows[v], keep).contains(e));
        lemma_kept(rows[v], keep);
        let j = choose|j: int| 0 <= j < rows[v].len() && rows[v][j] == e;
        assert(rows[v][j].target == v);
    }
    assert forall|e: Edge| edges_by_target(after).contains(e) == edges_kept(
        edges_by_target(rows),
        keep,
    ).contains(e) by {
        let v = e.target as int;
        if v < rows.len() {
            lemma_kept(rows[v], keep);
        }
    }
    assert(edges_by_target(after) =~= edges_kept(edges_by_target(rows), keep));
}

/// A row of which `keep` holds of every edge is kept whole.
pub proof fn lemma_kept_all(row: Seq<Edge>, keep: spec_fn(Edge) -> bool)
    requires
        forall|i: int| 0 <= i < row.len() ==> keep(#[trigger] row[i]),
    ensures
        kept(row, keep) == row,
    decreases row.len(),
{
    if row.len() > 0 {
        let rest = row.drop_last();
        assert forall|i: int| 0 <= i < rest.len() implies keep(#[trigger] rest[i]) by {
            assert(rest[i] == row[i]);
        }
        lemma_kept_all(rest, keep);
        assert(keep(row[row.len() - 1]));
        assert(rest.push(row.last()) =~= row);
    }
}

/// Keeping the same edges a second time changes nothing.
pub proof fn lemma_kept_twice(row: Seq<Edge>, keep: spec_fn(Edge) -> bool)
    ensures
        kept(kept(row, keep), keep) == kept(row, keep),
    decreases row.len(),
{
    if row.len() > 0 {
        lemma_kept_twice(row.drop_last(), keep);
        if keep(row.last()) {
            let k = kept(row.drop_last(), keep).push(row.last());
            assert(k.drop_last() =~= kept(row.drop_last(), keep));
        }
    }
}

/// Keeps in every row the edges that `rule` holds of.
pub fn retain_in_rows(rows: &mut Vec<Vec<Edge>>, rule: &Retain)
    ensures
        lists(final(rows)@) == rows_kept(lists(old(rows)@), rule.as_spec()),
{
    let ghost before = lists(rows@);
    let n = rows.len();
    let mut i: usize = 0;
    assert(lists(rows@) =~~= rows_kept_until(before, rule.as_spec(), 0));
    while i < n
        invariant
            0 <= i <= n,
            n == rows@.len(),
            n == before.len(),
            lists(rows@) == rows_kept_until(before, rule.as_spec(), i as int),
        decreases n - i,
    {
        retain_in_row(rows, i, rule);
        assert(lists(rows@) =~~= rows_kept_until(before, rule.as_spec(), i + 1));
        i += 1;
    }
    assert(lists(rows@) =~~= rows_kept(before, rule.as_spec()));
}

/// Takes the last edge out of row `i`.
pub fn pop_from_row(rows: &mut Vec<Vec<Edge>>, i: usize) -> (last: Option<Edge>)
    requires
        i < old(rows)@.len(),
    ensures
        final(rows)@.len() == old(rows)@.len(),
        match last {
            Some(e) => lists(old(rows)@)[i as int].len() > 0 && e
                == lists(old(rows)@)[i as int].last() && lists(final(rows)@)
                == lists(old(rows)@).update(
                i as int,
                lists(old(rows)@)[i as int].drop_last(),
            ),
            None => lists(old(rows)@)[i as int].len() == 0 && lists(final(rows)@)
                == lists(old(rows)@),
        },
{
    let ghost before = rows@;
    let last = rows[i].pop();
    proof {
        match last {
            Some(e) => {
                assert(lists(rows@) =~~= lists(before).update(
                    i as int,
                    lists(before)[i as int].drop_last(),
                ));
            },
            None => {
                assert(lists(rows@) =~~= lists(before));
            },
        }
    }
    last
}

/// Appends empty rows to `rows` until there are more than `node` of them.
pub fn grow_rows(rows: &mut Vec<Vec<Edge>>, node: u32)
    ensures
        lists(final(rows)@) == grown(lists(old(rows)@), (node + 1) as nat),
        final(rows)@.len() > node,
        final(rows)@.len() >= old(rows)@.len(),
{
    let ghost start = lists(rows@);
    assert(lists(rows@) =~~= grown(start, rows@.len()));
    while rows.len() <= node as usize
        invariant
            rows@.len() >= start.len(),
            rows@.len() == start.len() || rows@.len() <= node + 1,
            lists(rows@) == grown(start, rows@.len()),
        decreases node + 1 - rows@.len(),
    {
        let ghost before = rows@;
        rows.push(Vec::new());
        assert(lists(rows@) =~~= grown(start, rows@.len())) by {
            assert(lists(before) == grown(start, before.len()));
            assert forall|i: int| 0 <= i < rows@.len() implies lists(rows@)[i] =~= grown(
                start,
                rows@.len(),
            )[i] by {
                if i < before.len() {
                    assert(lists(rows@)[i] == lists(before)[i]);
                }
            }
        }
    }
    assert(lists(rows@) =~~= grown(start, (node + 1) as nat));
}

/// Appends `edge` to row `i`.
pub fn append_to_row(rows: &mut Vec<Vec<Edge>>, i: usize, edge: Edge)
    requires
        i < old(rows)@.len(),
    ensures
        lists(final(rows)@) == appended(lists(old(rows)@), i as int, edge),
{
    let ghost before = rows@;
    rows[i].push(edge);
    assert(lists(rows@) =~~= appended(lists(before), i as int, edge));
}

/// The edges of `rows`, row after row.
pub open spec fn flat(rows: Seq<Seq<Edge>>) -> Seq<Edge>
    decreases rows.len(),
{
    if rows.len() == 0 {
        Seq::empty()
    } else {
        flat(rows.drop_last()) + rows.last()
    }
}

/// Each of `edges` walked the other way.
pub open spec fn all_inverted(edges: Seq<Edge>) -> Seq<Edge> {
    Seq::new(
        edges.len(),
        |i: int| Edge { source: edges[i].target, target: edges[i].source, cost: edges[i].cost },
    )
}

/// An edge is among the edges of rows if and only if it is in one of them.
pub proof fn lemma_flat(rows: Seq<Seq<Edge>>)
    ensures
        forall|e: Edge| #[trigger]
            flat(rows).contains(e) <==> exists|u: int|
                0 <= u < rows.len() && (#[trigger] rows[u]).contains(e),
    decreases rows.len(),
{
    if rows.len() > 0 {
        let rest = rows.drop_last();
        lemma_flat(rest);
        assert forall|e: Edge| #[trigger]
            flat(rows).contains(e) <==> exists|u: int|
                0 <= u < rows.len() && (#[trigger] rows[u]).contains(e) by {
            let all = flat(rows);
            if all.contains(e) {
                let k = choose|k: int| 0 <= k < all.len() && all[k] == e;
                if k < flat(rest).len() {
                    assert(flat(rest)[k] == e);
                    assert(flat(rest).contains(e));
                    let u = choose|u: int| 0 <= u < rest.len() && (#[trigger] rest[u]).contains(e);
                    assert(rows[u] == rest[u]);
                } else {
                    assert(rows.last()[k - flat(rest).len()] == e);
                    assert(rows[rows.len() - 1].contains(e));
                }
            }
            if exists|u: int| 0 <= u < rows.len() && (#[trigger] rows[u]).contains(e) {
                let u = choose|u: int| 0 <= u < rows.len() && (#[trigger] rows[u]).contains(e);
                if u < rest.len() {
                    assert(rest[u] == rows[u]);
                    assert(flat(rest).contains(e));
                    let k = choose|k: int| 0 <= k < flat(rest).len() && flat(rest)[k] == e;
                    assert(all[k] == e);
                } else {
                    let i = choose|i: int| 0 <= i < rows[u].len() && rows[u][i] == e;
                    assert(all[flat(rest).len() + i] == e);
                }
            }
        }
    }
}

/// All edges of `rows`, row after row; each one inverted if `invert` is
/// set.
pub fn flatten_rows(rows: &Vec<Vec<Edge>>, invert: bool) -> (edges: Vec<Edge>)
    ensures
        edges@ == (if invert {
            all_inverted(flat(lists(rows@)))
        } else {
            flat(lists(rows@))
        }),
{
    let mut edges: Vec<Edge> = Vec::new();
    let ghost all = lists(rows@);
    let mut u: usize = 0;
    assert(all.take(0) =~= Seq::<Seq<Edge>>::empty());
    assert(all_inverted(Seq::<Edge>::empty()) =~= Seq::<Edge>::empty());
    while u < rows.len()
        invariant
            0 <= u <= rows@.len(),
            all == lists(rows@),
            edges@ == (if invert {
                all_inverted(flat(all.take(u as int)))
            } else {
                flat(all.take(u as int))
            }),
        decreases rows@.len() - u,
    {
        let row = &rows[u];
        let ghost done = flat(all.take(u as int));
        let mut i: usize = 0;
        assert(done + row@.take(0) =~= done);
        while i < row.len()
            invariant
                0 <= i <= row@.len(),
                edges@ == (if invert {
                    all_inverted(done + row@.take(i as int))
                } else {
                    done + row@.take(i as int)
                }),
            decreases row@.len() - i,
        {
            let edge = if invert {
                row[i].invert()
            } else {
                row[i]
            };
            edges.push(edge);
            proof {
                assert(done + row@.take(i + 1) =~= (done
                    + row@.take(i as int)).push(row@[i as int]));
                if invert {
                    assert(all_inverted(done + row@.take(i + 1)) =~= all_inverted(
                        done + row@.take(i as int),
                    ).push(edge));
                }
            }
            i += 1;
        }
        proof {
            assert(row@.take(i as int) =~= row@);
            assert(all.take(u + 1).drop_last() =~= all.take(u as int));
            assert(all.take(u + 1).last() == row@);
        }
        u += 1;
    }
    assert(all.take(u as int) =~= all);
    edges
}

/// The rows that hold `edges`, each in the row of its source and in the
/// order of `edges`, over at least `nodes` nodes and as many as the endpoints
/// ask for.
pub open spec fn bucketed(edges: Seq<Edge>, nodes: nat) -> Seq<Seq<Edge>>
    decreases edges.len(),
{
    if edges.len() == 0 {
        grown(Seq::<Seq<Edge>>::empty(), nodes)
    } else {
        appended(
            grown(bucketed(edges.drop_last(), nodes), (top_node(edges.last()) + 1) as nat),
            edges.last().source as int,
            edges.last(),
        )
    }
}

/// Bucketed rows hold each edge in the row of its source, cover every
/// endpoint, and hold the given edges and no others.
pub proof fn lemma_bucketed(edges: Seq<Edge>, nodes: nat)
    ensures
        rows_by_source(bucketed(edges, nodes)),
        bucketed(edges, nodes).len() >= nodes,
        edges_by_source(bucketed(edges, nodes)) == edges.to_set(),
    decreases edges.len(),
{
    let rows = bucketed(edges, nodes);
    if edges.len() == 0 {
        assert(edges_by_source(rows) =~= edges.to_set()) by {
            assert forall|e: Edge| !edges_by_source(rows).contains(e) by {
                if e.source < rows.len() {
                    assert(rows[e.source as int] =~= Seq::<Edge>::empty());
                }
            }
        }
    } else {
        let rest = edges.drop_last();
        let last = edges.last();
        let before = bucketed(rest, nodes);
        lemma_bucketed(rest, nodes);
        let wide = grown(before, (top_node(last) + 1) as nat);
        assert forall|u: int, i: int| 0 <= u < rows.len() && 0 <= i < rows[u].len() implies (
        #[trigger] rows[u][i]).source == u && rows[u][i].target < rows.len() by {
            if u < before.len() {
                assert(wide[u] == before[u]);
                if i < before[u].len() {
                    assert(before[u][i].source == u);
                }
            } else {
                assert(wide[u] =~= Seq::<Edge>::empty());
            }
        }
        assert(edges_by_source(rows) =~= edges.to_set()) by {
            assert forall|e: Edge| edges_by_source(rows).contains(e) == edges.to_set().contains(
                e,
            ) by {
                let u = e.source as int;
                if edges.to_set().contains(e) {
                    let k = choose|k: int| 0 <= k < edges.len() && edges[k] == e;
                    if k < rest.len() {
                        assert(rest[k] == e);
                        assert(rest.to_set().contains(e));
                        assert(edges_by_source(before).contains(e));
                        let i = choose|i: int| 0 <= i < before[u].len() && before[u][i] == e;
                        assert(wide[u] == before[u]);
                        if u == last.source {
                            assert(rows[u][i] == e);
                        } else {
                            assert(rows[u][i] == e);
                        }
                    } else {
                        assert(e == last);
                        assert(rows[u][wide[u].len() as int] == e);
                    }
                }
                if edges_by_source(rows).contains(e) {
                    let i = choose|i: int| 0 <= i < rows[u].len() && rows[u][i] == e;
                    if u == last.source && i == wide[u].len() {
                        assert(edges[edges.len() - 1] == e);
                    } else {
                        assert(wide[u][i] == e);
                        if u < before.len() {
                            assert(before[u][i] == e);
                            assert(edges_by_source(before).contains(e));
                            assert(rest.to_set().contains(e));
                            let k = choose|k: int| 0 <= k < rest.len() && rest[k] == e;
                            assert(edges[k] == e);
                        } else {
                            assert(wide[u] =~= Seq::<Edge>::empty());
                        }
                    }
                }
            }
        }
    }
}

/// Rows bucketed over `nodes` nodes have exactly `nodes` rows if no endpoint
/// asks for more.
pub proof fn lemma_bucketed_exact(edges: Seq<Edge>, nodes: nat)
    requires
        forall|k: int| 0 <= k < edges.len() ==> top_node(#[trigger] edges[k]) < nodes,
    ensures
        bucketed(edges, nodes).len() == nodes,
    decreases edges.len(),
{
    if edges.len() > 0 {
        let rest = edges.drop_last();
        assert forall|k: int| 0 <= k < rest.len() implies top_node(#[trigger] rest[k]) < nodes by {
            assert(rest[k] == edges[k]);
        }
        lemma_bucketed_exact(rest, nodes);
        assert(top_node(edges[edges.len() - 1]) < nodes);
    }
}

/// Buckets `edges` by source node.
pub fn bucket_edges(edges: &Vec<Edge>, nodes: usize) -> (rows: Vec<Vec<Edge>>)
    requires
        nodes <= u32::MAX + 1,
    ensures
        lists(rows@) == bucketed(edges@, nodes as nat),
{
    let mut rows: Vec<Vec<Edge>> = Vec::new();
    assert(lists(rows@) =~= Seq::<Seq<Edge>>::empty());
    if nodes > 0 {
        grow_rows(&mut rows, (nodes - 1) as u32);
    }
    assert(edges@.take(0) =~= Seq::<Edge>::empty());
    let mut k: usize = 0;
    while k < edges.len()
        invariant
            0 <= k <= edges@.len(),
            lists(rows@) == bucketed(edges@.take(k as int), nodes as nat),
        decreases edges@.len() - k,
    {
        let edge = edges[k];
        let top = if edge.source >= edge.target {
            edge.source
        } else {
            edge.target
        };
        grow_rows(&mut rows, top);
        append_to_row(&mut rows, edge.source as usize, edge);
        proof {
            let next = edges@.take(k + 1);
            assert(next.drop_last() =~= edges@.take(k as int));
            assert(next.last() == edge);
        }
        k += 1;
    }
    assert(edges@.take(k as int) =~= edges@);
    rows
}

} // verus!
