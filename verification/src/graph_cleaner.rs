//! The two cleanup passes that come before and after contraction: of several
//! edges between the same two nodes only a cheapest one stays, and no edge
//! from a node to itself stays.

use ahash::RandomState;
use crate::bidirectional_graph::BidirectionalGraph;
use crate::graph::Edge;
use crate::hashing::map_get;
use crate::hashing::map_insert;
use crate::hashing::map_remove;
use crate::hashing::map_with_hasher;
use crate::rows::Retain;
use crate::rows::edges_by_source;
use crate::rows::edges_by_target;
use crate::rows::kept;
use crate::rows::lemma_kept;
use crate::rows::lemma_kept_all;
use crate::rows::lists;
use crate::rows::retain_in_row;
use crate::rows::rows_by_source;
use crate::rows::rows_by_target;
use vstd::prelude::*;

verus! {

/// `e` does not lead from a node to itself.
pub open spec fn no_loop(e: Edge) -> bool {
    e.source != e.target
}

/// `a` and `b` join the same two nodes in the same direction.
pub open spec fn same_ends(a: Edge, b: Edge) -> bool {
    a.source == b.source && a.target == b.target
}

/// The edge at `i` is the one of its two nodes that stays: no edge of `row`
/// between them is cheaper, and none of the same cost comes earlier.
pub open spec fn cheapest_first(row: Seq<Edge>, i: int) -> bool {
    forall|j: int|
        0 <= j < row.len() && same_ends(#[trigger] row[j], row[i]) ==> row[i].cost < row[j].cost
            || (
        row[i].cost == row[j].cost && i <= j)
}

/// Of the first `n` edges of `row`, those that stay, in their order.
pub open spec fn chosen(row: Seq<Edge>, n: int) -> Seq<Edge>
    decreases n,
{
    if n <= 0 {
        Seq::empty()
    } else if cheapest_first(row, n - 1) {
        chosen(row, n - 1).push(row[n - 1])
    } else {
        chosen(row, n - 1)
    }
}

/// `row` with one cheapest edge left for each pair of nodes.
pub open spec fn deduplicated(row: Seq<Edge>) -> Seq<Edge> {
    chosen(row, row.len() as int)
}

/// `row` after both passes.
pub open spec fn cleaned(row: Seq<Edge>) -> Seq<Edge> {
    kept(deduplicated(row), |e: Edge| no_loop(e))
}

/// No two edges of `row` join the same two nodes in the same direction.
pub open spec fn unique_ends(row: Seq<Edge>) -> bool {
    forall|a: int, b: int|
        0 <= a < row.len() && 0 <= b < row.len() && a != b ==> !same_ends(
            #[trigger] row[a],
            #[trigger] row[b],
        )
}

/// Each row cleaned of its own.
pub open spec fn rows_deduplicated(rows: Seq<Seq<Edge>>) -> Seq<Seq<Edge>> {
    Seq::new(rows.len(), |u: int| deduplicated(rows[u]))
}

/// Each row without its loops.
pub open spec fn rows_without_loops(rows: Seq<Seq<Edge>>) -> Seq<Seq<Edge>> {
    Seq::new(rows.len(), |u: int| kept(rows[u], |e: Edge| no_loop(e)))
}

/// The position in `row` of the edge at `a` among the chosen of the first `n`.
pub open spec fn chosen_from(row: Seq<Edge>, n: int, a: int) -> int
    decreases n,
{
    if n <= 0 {
        0
    } else if cheapest_first(row, n - 1) && a == chosen(row, n - 1).len() {
        n - 1
    } else {
        chosen_from(row, n - 1, a)
    }
}

/// Every chosen edge comes from a position that stays, two chosen edges from
/// two such positions in the same order, and every position that stays gives
/// a chosen edge.
pub proof fn lemma_chosen_positions(row: Seq<Edge>, n: int)
    requires
        0 <= n <= row.len(),
    ensures
        chosen(row, n).len() <= n,
        forall|a: int|
            0 <= a < chosen(row, n).len() ==> 0 <= #[trigger] chosen_from(row, n, a) < n
                && cheapest_first(row, chosen_from(row, n, a)) && chosen(row, n)[a]
                == row[chosen_from(row, n, a)],
        forall|a: int, b: int|
            0 <= a < b < chosen(row, n).len() ==> #[trigger] chosen_from(row, n, a)
                < #[trigger] chosen_from(row, n, b),
        forall|i: int|
            0 <= i < n && cheapest_first(row, i) ==> chosen(row, n).contains(#[trigger] row[i]),
    decreases n,
{
    if n > 0 {
        lemma_chosen_positions(row, n - 1);
        let c = chosen(row, n);
        let r = chosen(row, n - 1);
        assert forall|a: int| 0 <= a < c.len() implies 0 <= #[trigger] chosen_from(row, n, a) < n
            && cheapest_first(row, chosen_from(row, n, a)) && c[a] == row[chosen_from(
            row,
            n,
            a,
        )] by {
            if a < r.len() {
                assert(0 <= chosen_from(row, n - 1, a) < n - 1);
                assert(c[a] == r[a]);
            }
        }
        assert forall|a: int, b: int| 0 <= a < b < c.len() implies #[trigger] chosen_from(
            row,
            n,
            a,
        ) < #[trigger] chosen_from(row, n, b) by {
            assert(0 <= chosen_from(row, n - 1, a) < n - 1);
            if b < r.len() {
                assert(chosen_from(row, n - 1, a) < chosen_from(row, n - 1, b));
            }
        }
        assert forall|i: int| 0 <= i < n && cheapest_first(row, i) implies c.contains(
            #[trigger] row[i],
        ) by {
            if i < n - 1 {
                assert(r.contains(row[i]));
                let a = choose|a: int| 0 <= a < r.len() && r[a] == row[i];
                assert(c[a] == row[i]);
            } else {
                assert(c[c.len() - 1] == row[i]);
            }
        }
    }
}

/// Among the edges that join the same nodes as the one at `i`, one stays,
/// and it costs no more.
pub proof fn lemma_cheapest_exists(row: Seq<Edge>, i: int) -> (k: int)
    requires
        0 <= i < row.len(),
    ensures
        0 <= k < row.len(),
        cheapest_first(row, k),
        same_ends(row[k], row[i]),
        row[k].cost <= row[i].cost,
    decreases row[i].cost, i,
{
    if cheapest_first(row, i) {
        i
    } else {
        let j = choose|j: int|
            0 <= j < row.len() && same_ends(#[trigger] row[j], row[i]) && !(row[i].cost
                < row[j].cost || (row[i].cost == row[j].cost && i <= j));
        lemma_cheapest_exists(row, j)
    }
}

/// What stays of a row: only edges of the row, each the cheapest between its
/// nodes; for every edge of the row one between the same nodes that costs no
/// more; and no two between the same nodes.
pub proof fn lemma_deduplicated(row: Seq<Edge>)
    ensures
        deduplicated(row).len() <= row.len(),
        forall|e: Edge| #[trigger]
            deduplicated(row).contains(e) ==> row.contains(e) && forall|f: Edge|
                row.contains(f) && same_ends(f, e) ==> e.cost <= f.cost,
        forall|f: Edge| #[trigger]
            row.contains(f) ==> exists|e: Edge| #[trigger]
                deduplicated(row).contains(e) && same_ends(e, f) && e.cost <= f.cost,
        unique_ends(deduplicated(row)),
{
    let d = deduplicated(row);
    lemma_chosen_positions(row, row.len() as int);
    assert forall|e: Edge| #[trigger] d.contains(e) implies row.contains(e) && forall|f: Edge|
        row.contains(f) && same_ends(f, e) ==> e.cost <= f.cost by {
        let a = choose|a: int| 0 <= a < d.len() && d[a] == e;
        let i = chosen_from(row, row.len() as int, a);
        assert(row[i] == e);
        assert forall|f: Edge| row.contains(f) && same_ends(f, e) implies e.cost <= f.cost by {
            let j = choose|j: int| 0 <= j < row.len() && row[j] == f;
            assert(same_ends(row[j], row[i]));
        }
    }
    assert forall|f: Edge| #[trigger] row.contains(f) implies exists|e: Edge| #[trigger]
        d.contains(e) && same_ends(e, f) && e.cost <= f.cost by {
        let i = choose|i: int| 0 <= i < row.len() && row[i] == f;
        let k = lemma_cheapest_exists(row, i);
        assert(d.contains(row[k]));
    }
    assert forall|a: int, b: int| 0 <= a < d.len() && 0 <= b < d.len() && a != b implies !same_ends(
        #[trigger] d[a],
        #[trigger] d[b],
    ) by {
        let (lo, hi) = if a < b {
            (a, b)
        } else {
            (b, a)
        };
        let i = chosen_from(row, row.len() as int, lo);
        let j = chosen_from(row, row.len() as int, hi);
        assert(i < j);
        if same_ends(row[i], row[j]) {
            assert(same_ends(row[j], row[i]));
        }
    }
}

/// A row without two edges between the same nodes stays as it is.
pub proof fn lemma_deduplicated_unique(row: Seq<Edge>)
    requires
        unique_ends(row),
    ensures
        deduplicated(row) == row,
{
    lemma_chosen_take(row, row.len() as int);
    assert(row.take(row.len() as int) =~= row);
}

proof fn lemma_chosen_take(row: Seq<Edge>, n: int)
    requires
        unique_ends(row),
        0 <= n <= row.len(),
    ensures
        chosen(row, n) == row.take(n),
    decreases n,
{
    if n > 0 {
        lemma_chosen_take(row, n - 1);
        assert(cheapest_first(row, n - 1)) by {
            assert forall|j: int|
                0 <= j < row.len() && same_ends(#[trigger] row[j], row[n - 1]) implies row[n
                - 1].cost < row[j].cost || (row[n - 1].cost == row[j].cost && n - 1 <= j) by {
                if j != n - 1 {
                    assert(!same_ends(row[j], row[n - 1]));
                }
            }
        }
        assert(row.take(n - 1).push(row[n - 1]) =~= row.take(n));
    } else {
        assert(row.take(0) =~= Seq::<Edge>::empty());
    }
}

/// The position in `row` of the edge at `a` among the kept ones.
pub open spec fn kept_from(row: Seq<Edge>, keep: spec_fn(Edge) -> bool, a: int) -> int
    decreases row.len(),
{
    if row.len() == 0 {
        0
    } else if keep(row.last()) && a == kept(row.drop_last(), keep).len() {
        row.len() - 1
    } else {
        kept_from(row.drop_last(), keep, a)
    }
}

/// The kept edges of a row are in the order of the row: each comes from a
/// position of its own.
pub proof fn lemma_kept_positions(row: Seq<Edge>, keep: spec_fn(Edge) -> bool)
    ensures
        forall|a: int|
            0 <= a < kept(row, keep).len() ==> 0 <= #[trigger] kept_from(row, keep, a) < row.len()
                && kept(row, keep)[a] == row[kept_from(row, keep, a)] && keep(kept(row, keep)[a]),
        forall|a: int, b: int|
            0 <= a < b < kept(row, keep).len() ==> #[trigger] kept_from(row, keep, a)
                < #[trigger] kept_from(row, keep, b),
    decreases row.len(),
{
    if row.len() > 0 {
        let rest = row.drop_last();
        lemma_kept_positions(rest, keep);
        let k = kept(row, keep);
        let r = kept(rest, keep);
        assert forall|a: int| 0 <= a < k.len() implies 0 <= #[trigger] kept_from(row, keep, a)
            < row.len() && k[a] == row[kept_from(row, keep, a)] && keep(k[a]) by {
            if a < r.len() {
                assert(0 <= kept_from(rest, keep, a) < rest.len());
                assert(k[a] == r[a]);
                assert(rest[kept_from(rest, keep, a)] == row[kept_from(rest, keep, a)]);
            }
        }
        assert forall|a: int, b: int| 0 <= a < b < k.len() implies #[trigger] kept_from(
            row,
            keep,
            a,
        ) < #[trigger] kept_from(row, keep, b) by {
            assert(0 <= kept_from(rest, keep, a) < rest.len());
            if b < r.len() {
                assert(kept_from(rest, keep, a) < kept_from(rest, keep, b));
            }
        }
    }
}

/// Keeping some edges of a row leaves no two between the same nodes, if the
/// row had none.
pub proof fn lemma_kept_unique(row: Seq<Edge>, keep: spec_fn(Edge) -> bool)
    requires
        unique_ends(row),
    ensures
        unique_ends(kept(row, keep)),
{
    lemma_kept_positions(row, keep);
    let k = kept(row, keep);
    assert forall|a: int, b: int| 0 <= a < k.len() && 0 <= b < k.len() && a != b implies !same_ends(
        #[trigger] k[a],
        #[trigger] k[b],
    ) by {
        let (lo, hi) = if a < b {
            (a, b)
        } else {
            (b, a)
        };
        let i = kept_from(row, keep, lo);
        let j = kept_from(row, keep, hi);
        assert(i < j);
        assert(!same_ends(row[i], row[j]));
    }
}

/// Cleaning a cleaned row changes nothing.
pub proof fn lemma_cleaned_twice(row: Seq<Edge>)
    ensures
        cleaned(cleaned(row)) == cleaned(row),
        unique_ends(cleaned(row)),
        forall|i: int| 0 <= i < cleaned(row).len() ==> no_loop(#[trigger] cleaned(row)[i]),
{
    let keep = |e: Edge| no_loop(e);
    let d = deduplicated(row);
    let c = kept(d, keep);
    lemma_deduplicated(row);
    lemma_kept_unique(d, keep);
    lemma_kept_positions(d, keep);
    assert forall|i: int| 0 <= i < c.len() implies keep(#[trigger] c[i]) by {
        assert(0 <= kept_from(d, keep, i));
    }
    lemma_deduplicated_unique(c);
    lemma_kept_all(c, keep);
}

/// Leaves in `row` one cheapest edge for each pair of nodes: of several
/// cheapest ones, the first. `by_target` says which end tells the edges of
/// this row apart: the target in a list of outgoing edges, the source in a
/// list of incoming ones.
pub fn deduplicate_row(row: &mut Vec<Edge>, by_target: bool)
    requires
        forall|i: int, j: int|
            0 <= i < old(row)@.len() && 0 <= j < old(row)@.len() ==> (if by_target {
                (#[trigger] old(row)@[i]).source == (#[trigger] old(row)@[j]).source
            } else {
                old(row)@[i].target == old(row)@[j].target
            }),
    ensures
        final(row)@ == deduplicated(old(row)@),
{
    let ghost before = row@;
    let ghost key = |e: Edge|
        if by_target {
            e.target
        } else {
            e.source
        };
    let mut cheapest = map_with_hasher(RandomState::new());
    let mut i: usize = 0;
    while i < row.len()
        invariant
            0 <= i <= row@.len(),
            row@ == before,
            key == (|e: Edge|
                if by_target {
                    e.target
                } else {
                    e.source
                }),
            forall|j: int|
                0 <= j < i ==> cheapest@.contains_key(key(#[trigger] before[j])) && cheapest@[key(
                    before[j],
                )] <= before[j].cost,
            forall|k: u32| #[trigger]
                cheapest@.contains_key(k) ==> exists|j: int|
                    0 <= j < i && key(#[trigger] before[j]) == k && before[j].cost == cheapest@[k],
        decreases row@.len() - i,
    {
        let edge = row[i];
        let k = if by_target {
            edge.target
        } else {
            edge.source
        };
        let ghost old_map = cheapest@;
        let lower = match map_get(&cheapest, k) {
            Some(current) => edge.cost < current,
            None => true,
        };
        if lower {
            map_insert(&mut cheapest, k, edge.cost);
        }
        proof {
            assert(key(edge) == k);
            assert forall|j: int| 0 <= j < i + 1 implies cheapest@.contains_key(
                key(#[trigger] before[j]),
            ) && cheapest@[key(before[j])] <= before[j].cost by {
                if j < i {
                    assert(old_map.contains_key(key(before[j])));
                }
            }
            assert forall|q: u32| #[trigger] cheapest@.contains_key(q) implies exists|j: int|
                0 <= j < i + 1 && key(#[trigger] before[j]) == q && before[j].cost
                    == cheapest@[q] by {
                if lower && q == k {
                    assert(key(before[i as int]) == q);
                } else {
                    assert(old_map.contains_key(q));
                    let j = choose|j: int|
                        0 <= j < i && key(#[trigger] before[j]) == q && before[j].cost
                            == old_map[q];
                    assert(key(before[j]) == q);
                }
            }
        }
        i += 1;
    }
    let ghost least = cheapest@;
    let mut out: Vec<Edge> = Vec::new();
    let mut i: usize = 0;
    while i < row.len()
        invariant
            0 <= i <= row@.len(),
            row@ == before,
            key == (|e: Edge|
                if by_target {
                    e.target
                } else {
                    e.source
                }),
            forall|a: int, b: int|
                0 <= a < before.len() && 0 <= b < before.len() ==> (same_ends(
                    #[trigger] before[a],
                    #[trigger] before[b],
                ) <==> key(before[a]) == key(before[b])),
            forall|j: int|
                0 <= j < before.len() ==> least.contains_key(key(#[trigger] before[j]))
                    && least[key(before[j])] <= before[j].cost,
            forall|k: u32| #[trigger]
                least.contains_key(k) ==> exists|j: int|
                    0 <= j < before.len() && key(#[trigger] before[j]) == k && before[j].cost
                        == least[k],
            forall|k: u32| #[trigger]
                cheapest@.contains_key(k) ==> least.contains_key(k) && cheapest@[k] == least[k],
            forall|k: u32| #[trigger]
                least.contains_key(k) ==> (cheapest@.contains_key(k) <==> forall|j: int|
                    0 <= j < i && key(#[trigger] before[j]) == k ==> before[j].cost != least[k]),
            out@ == chosen(before, i as int),
        decreases row@.len() - i,
    {
        let edge = row[i];
        let k = if by_target {
            edge.target
        } else {
            edge.source
        };
        let ghost old_map = cheapest@;
        let stays = match map_get(&cheapest, k) {
            Some(current) => current == edge.cost,
            None => false,
        };
        proof {
            assert(key(edge) == k);
            assert(least.contains_key(k));
            if stays {
                assert forall|j: int|
                    0 <= j < before.len() && same_ends(
                        #[trigger] before[j],
                        before[i as int],
                    ) implies before[i as int].cost < before[j].cost || (before[i as int].cost
                    == before[j].cost && i <= j) by {
                    assert(key(before[j]) == k);
                    assert(least[k] <= before[j].cost);
                }
            }
            if cheapest_first(before, i as int) {
                let j = choose|j: int|
                    0 <= j < before.len() && key(#[trigger] before[j]) == k && before[j].cost
                        == least[k];
                assert(same_ends(before[j], before[i as int]));
                assert(edge.cost == least[k]);
                assert forall|j: int| 0 <= j < i && key(#[trigger] before[j]) == k
                    implies before[j].cost
                    != least[k] by {
                    assert(same_ends(before[j], before[i as int]));
                }
                assert(old_map.contains_key(k));
            }
            assert(stays == cheapest_first(before, i as int));
        }
        if stays {
            out.push(edge);
            map_remove(&mut cheapest, k);
        }
        proof {
            assert forall|q: u32| #[trigger] least.contains_key(q) implies (cheapest@.contains_key(
                q,
            ) <==> forall|j: int|
                0 <= j < i + 1 && key(#[trigger] before[j]) == q ==> before[j].cost
                    != least[q]) by {
                if q == k {
                    if stays {
                        assert(key(before[i as int]) == q && before[i as int].cost == least[q]);
                    } else if old_map.contains_key(q) {
                        assert(edge.cost != least[q]);
                    } else {
                        let j = choose|j: int|
                            0 <= j < i && key(#[trigger] before[j]) == q && !(before[j].cost
                                != least[q]);
                        assert(key(before[j]) == q);
                    }
                } else {
                    if old_map.contains_key(q) {
                    } else {
                        let j = choose|j: int|
                            0 <= j < i && key(#[trigger] before[j]) == q && !(before[j].cost
                                != least[q]);
                        assert(key(before[j]) == q);
                    }
                }
            }
        }
        i += 1;
    }
    *row = out;
}

/// The edges of `es` that are the cheapest between their two nodes.
pub open spec fn cheapest_of(es: Set<Edge>) -> Set<Edge> {
    Set::new(
        |e: Edge| es.contains(e) && forall|f: Edge| es.contains(f) && same_ends(f, e) ==> e.cost
            <= f.cost,
    )
}

/// The edges of `es` that do not lead from a node to itself.
pub open spec fn loop_free(es: Set<Edge>) -> Set<Edge> {
    Set::new(|e: Edge| es.contains(e) && no_loop(e))
}

/// An edge is in a deduplicated row if and only if it is a cheapest edge of
/// the row between its two nodes.
pub proof fn lemma_deduplicated_contains(row: Seq<Edge>, e: Edge)
    ensures
        deduplicated(row).contains(e) <==> row.contains(e) && forall|f: Edge|
            row.contains(f) && same_ends(f, e) ==> e.cost <= f.cost,
{
    lemma_deduplicated(row);
    if row.contains(e) && (forall|f: Edge| row.contains(f) && same_ends(f, e) ==> e.cost
        <= f.cost) {
        let d = choose|d: Edge| #[trigger]
            deduplicated(row).contains(d) && same_ends(d, e) && d.cost <= e.cost;
        assert(row.contains(d));
        assert(e.cost <= d.cost);
        assert(d == e);
    }
}

/// Deduplicating rows indexed by source leaves the cheapest edges.
pub proof fn lemma_rows_deduplicated_by_source(rows: Seq<Seq<Edge>>)
    requires
        rows_by_source(rows),
    ensures
        rows_by_source(rows_deduplicated(rows)),
        edges_by_source(rows_deduplicated(rows)) == cheapest_of(edges_by_source(rows)),
{
    let after = rows_deduplicated(rows);
    assert forall|u: int, i: int| 0 <= u < after.len() && 0 <= i < after[u].len() implies (
    #[trigger] after[u][i]).source == u && after[u][i].target < after.len() by {
        let e = after[u][i];
        assert(deduplicated(rows[u]).contains(e));
        lemma_deduplicated(rows[u]);
        let j = choose|j: int| 0 <= j < rows[u].len() && rows[u][j] == e;
        assert(rows[u][j].source == u);
    }
    assert forall|e: Edge| edges_by_source(after).contains(e) == cheapest_of(
        edges_by_source(rows),
    ).contains(e) by {
        let u = e.source as int;
        if u < rows.len() {
            lemma_deduplicated_contains(rows[u], e);
            if edges_by_source(after).contains(e) {
                assert forall|f: Edge|
                    edges_by_source(rows).contains(f) && same_ends(f, e) implies e.cost
                    <= f.cost by {
                    assert(rows[u].contains(f));
                }
            }
            if cheapest_of(edges_by_source(rows)).contains(e) {
                assert forall|f: Edge| rows[u].contains(f) && same_ends(f, e) implies e.cost
                    <= f.cost by {
                    let j = choose|j: int| 0 <= j < rows[u].len() && rows[u][j] == f;
                    assert(rows[u][j].source == u);
                    assert(edges_by_source(rows).contains(f));
                }
            }
        }
    }
    assert(edges_by_source(after) =~= cheapest_of(edges_by_source(rows)));
}

/// Deduplicating rows indexed by target leaves the cheapest edges.
pub proof fn lemma_rows_deduplicated_by_target(rows: Seq<Seq<Edge>>)
    requires
        rows_by_target(rows),
    ensures
        rows_by_target(rows_deduplicated(rows)),
        edges_by_target(rows_deduplicated(rows)) == cheapest_of(edges_by_target(rows)),
{
    let after = rows_deduplicated(rows);
    assert forall|v: int, i: int| 0 <= v < after.len() && 0 <= i < after[v].len() implies (
    #[trigger] after[v][i]).target == v && after[v][i].source < after.len() by {
        let e = after[v][i];
        assert(deduplicated(rows[v]).contains(e));
        lemma_deduplicated(rows[v]);
        let j = choose|j: int| 0 <= j < rows[v].len() && rows[v][j] == e;
        assert(rows[v][j].target == v);
    }
    assert forall|e: Edge| edges_by_target(after).contains(e) == cheapest_of(
        edges_by_target(rows),
    ).contains(e) by {
        let v = e.target as int;
        if v < rows.len() {
            lemma_deduplicated_contains(rows[v], e);
            if edges_by_target(after).contains(e) {
                assert forall|f: Edge|
                    edges_by_target(rows).contains(f) && same_ends(f, e) implies e.cost
                    <= f.cost by {
                    assert(rows[v].contains(f));
                }
            }
            if cheapest_of(edges_by_target(rows)).contains(e) {
                assert forall|f: Edge| rows[v].contains(f) && same_ends(f, e) implies e.cost
                    <= f.cost by {
                    let j = choose|j: int| 0 <= j < rows[v].len() && rows[v][j] == f;
                    assert(rows[v][j].target == v);
                    assert(edges_by_target(rows).contains(f));
                }
            }
        }
    }
    assert(edges_by_target(after) =~= cheapest_of(edges_by_target(rows)));
}

/// Taking the loops out of rows indexed by source takes them out of the set
/// of edges.
pub proof fn lemma_rows_without_loops_by_source(rows: Seq<Seq<Edge>>)
    requires
        rows_by_source(rows),
    ensures
        rows_by_source(rows_without_loops(rows)),
        edges_by_source(rows_without_loops(rows)) == loop_free(edges_by_source(rows)),
{
    let keep = |e: Edge| no_loop(e);
    let after = rows_without_loops(rows);
    assert forall|u: int, i: int| 0 <= u < after.len() && 0 <= i < after[u].len() implies (
    #[trigger] after[u][i]).source == u && after[u][i].target < after.len() by {
        let e = after[u][i];
        assert(kept(rows[u], keep).contains(e));
        lemma_kept(rows[u], keep);
        let j = choose|j: int| 0 <= j < rows[u].len() && rows[u][j] == e;
        assert(rows[u][j].source == u);
    }
    assert forall|e: Edge| edges_by_source(after).contains(e) == loop_free(
        edges_by_source(rows),
    ).contains(e) by {
        let u = e.source as int;
        if u < rows.len() {
            lemma_kept(rows[u], keep);
        }
    }
    assert(edges_by_source(after) =~= loop_free(edges_by_source(rows)));
}

/// Taking the loops out of rows indexed by target takes them out of the set
/// of edges.
pub proof fn lemma_rows_without_loops_by_target(rows: Seq<Seq<Edge>>)
    requires
        rows_by_target(rows),
    ensures
        rows_by_target(rows_without_loops(rows)),
        edges_by_target(rows_without_loops(rows)) == loop_free(edges_by_target(rows)),
{
    let keep = |e: Edge| no_loop(e);
    let after = rows_without_loops(rows);
    assert forall|v: int, i: int| 0 <= v < after.len() && 0 <= i < after[v].len() implies (
    #[trigger] after[v][i]).target == v && after[v][i].source < after.len() by {
        let e = after[v][i];
        assert(kept(rows[v], keep).contains(e));
        lemma_kept(rows[v], keep);
        let j = choose|j: int| 0 <= j < rows[v].len() && rows[v][j] == e;
        assert(rows[v][j].target == v);
    }
    assert forall|e: Edge| edges_by_target(after).contains(e) == loop_free(
        edges_by_target(rows),
    ).contains(e) by {
        let v = e.target as int;
        if v < rows.len() {
            lemma_kept(rows[v], keep);
        }
    }
    assert(edges_by_target(after) =~= loop_free(edges_by_target(rows)));
}

/// Leaves in row `i` one cheapest edge for each pair of nodes.
pub fn deduplicate_in_row(rows: &mut Vec<Vec<Edge>>, i: usize, by_target: bool)
    requires
        i < old(rows)@.len(),
        forall|a: int, b: int|
            0 <= a < old(rows)@[i as int]@.len() && 0 <= b < old(rows)@[i as int]@.len() ==> (
            if by_target {
                (#[trigger] old(rows)@[i as int]@[a]).source
                    == (#[trigger] old(rows)@[i as int]@[b]).source
            } else {
                old(rows)@[i as int]@[a].target == old(rows)@[i as int]@[b].target
            }),
    ensures
        lists(final(rows)@) == lists(old(rows)@).update(
            i as int,
            deduplicated(lists(old(rows)@)[i as int]),
        ),
{
    let ghost before = rows@;
    deduplicate_row(&mut rows[i], by_target);
    assert(lists(rows@) =~~= lists(before).update(
        i as int,
        deduplicated(lists(before)[i as int]),
    ));
}

/// The rows of `rows`, the first `n` of them without their loops.
pub open spec fn loops_out_until(rows: Seq<Seq<Edge>>, n: int) -> Seq<Seq<Edge>> {
    Seq::new(
        rows.len(),
        |u: int|
            if u < n {
                kept(rows[u], |e: Edge| no_loop(e))
            } else {
                rows[u]
            },
    )
}

/// The rows of `rows`, the first `n` of them deduplicated.
pub open spec fn deduplicated_until(rows: Seq<Seq<Edge>>, n: int) -> Seq<Seq<Edge>> {
    Seq::new(
        rows.len(),
        |u: int|
            if u < n {
                deduplicated(rows[u])
            } else {
                rows[u]
            },
    )
}

/// Takes every edge from a node to itself out of both structures.
pub fn remove_edge_to_self(graph: &mut BidirectionalGraph)
    requires
        old(graph).wf(),
    ensures
        final(graph).wf(),
        final(graph).out() == rows_without_loops(old(graph).out()),
        final(graph).inc() == rows_without_loops(old(graph).inc()),
        final(graph).out_edges() == loop_free(old(graph).out_edges()),
        final(graph).in_edges() == loop_free(old(graph).in_edges()),
        old(graph).mirrored() ==> final(graph).mirrored(),
        forall|e: Edge| #[trigger] final(graph).out_edges().contains(e) ==> e.source != e.target,
        forall|e: Edge| #[trigger] final(graph).in_edges().contains(e) ==> e.source != e.target,
{
    let ghost out0 = graph.out();
    let ghost inc0 = graph.inc();
    let n = graph.incoming_edges.len();
    assert(Retain::NoLoops.as_spec() =~= (|e: Edge| no_loop(e)));
    let mut i: usize = 0;
    assert(graph.inc() =~~= loops_out_until(inc0, 0));
    while i < n
        invariant
            0 <= i <= n,
            n == graph.incoming_edges@.len(),
            n == inc0.len(),
            graph.out() == out0,
            Retain::NoLoops.as_spec() == (|e: Edge| no_loop(e)),
            graph.inc() == loops_out_until(inc0, i as int),
        decreases n - i,
    {
        retain_in_row(&mut graph.incoming_edges, i, &Retain::NoLoops);
        assert(graph.inc() =~~= loops_out_until(inc0, i + 1));
        i += 1;
    }
    assert(graph.inc() =~~= rows_without_loops(inc0));
    let mut i: usize = 0;
    assert(graph.out() =~~= loops_out_until(out0, 0));
    while i < n
        invariant
            0 <= i <= n,
            n == graph.outgoing_edges@.len(),
            n == out0.len(),
            n == inc0.len(),
            graph.inc() == rows_without_loops(inc0),
            Retain::NoLoops.as_spec() == (|e: Edge| no_loop(e)),
            graph.out() == loops_out_until(out0, i as int),
        decreases n - i,
    {
        retain_in_row(&mut graph.outgoing_edges, i, &Retain::NoLoops);
        assert(graph.out() =~~= loops_out_until(out0, i + 1));
        i += 1;
    }
    proof {
        assert(graph.out() =~~= rows_without_loops(out0));
        lemma_rows_without_loops_by_source(out0);
        lemma_rows_without_loops_by_target(inc0);
    }
}

/// Leaves in every list one cheapest edge for each pair of nodes.
pub fn removing_double_edges(graph: &mut BidirectionalGraph)
    requires
        old(graph).wf(),
    ensures
        final(graph).wf(),
        final(graph).out() == rows_deduplicated(old(graph).out()),
        final(graph).inc() == rows_deduplicated(old(graph).inc()),
        final(graph).out_edges() == cheapest_of(old(graph).out_edges()),
        final(graph).in_edges() == cheapest_of(old(graph).in_edges()),
        old(graph).mirrored() ==> final(graph).mirrored(),
        forall|u: int|
            0 <= u < final(graph).out().len() ==> unique_ends(#[trigger] final(graph).out()[u]),
        forall|v: int|
            0 <= v < final(graph).inc().len() ==> unique_ends(#[trigger] final(graph).inc()[v]),
{
    let ghost out0 = graph.out();
    let ghost inc0 = graph.inc();
    let n = graph.incoming_edges.len();
    let mut i: usize = 0;
    assert(graph.inc() =~~= deduplicated_until(inc0, 0));
    while i < n
        invariant
            0 <= i <= n,
            n == graph.incoming_edges@.len(),
            n == inc0.len(),
            rows_by_target(inc0),
            graph.out() == out0,
            graph.inc() == deduplicated_until(inc0, i as int),
        decreases n - i,
    {
        proof {
            assert(graph.inc()[i as int] == inc0[i as int]);
            assert forall|a: int, b: int|
                0 <= a < inc0[i as int].len() && 0 <= b < inc0[i as int].len() implies (
            #[trigger] inc0[i as int][a]).target == (#[trigger] inc0[i as int][b]).target by {
                assert(inc0[i as int][a].target == i);
                assert(inc0[i as int][b].target == i);
            }
        }
        deduplicate_in_row(&mut graph.incoming_edges, i, false);
        assert(graph.inc() =~~= deduplicated_until(inc0, i + 1));
        i += 1;
    }
    assert(graph.inc() =~~= rows_deduplicated(inc0));
    let mut i: usize = 0;
    assert(graph.out() =~~= deduplicated_until(out0, 0));
    while i < n
        invariant
            0 <= i <= n,
            n == graph.outgoing_edges@.len(),
            n == out0.len(),
            n == inc0.len(),
            rows_by_source(out0),
            graph.inc() == rows_deduplicated(inc0),
            graph.out() == deduplicated_until(out0, i as int),
        decreases n - i,
    {
        proof {
            assert(graph.out()[i as int] == out0[i as int]);
            assert forall|a: int, b: int|
                0 <= a < out0[i as int].len() && 0 <= b < out0[i as int].len() implies (
            #[trigger] out0[i as int][a]).source == (#[trigger] out0[i as int][b]).source by {
                assert(out0[i as int][a].source == i);
                assert(out0[i as int][b].source == i);
            }
        }
        deduplicate_in_row(&mut graph.outgoing_edges, i, true);
        assert(graph.out() =~~= deduplicated_until(out0, i + 1));
        i += 1;
    }
    proof {
        assert(graph.out() =~~= rows_deduplicated(out0));
        lemma_rows_deduplicated_by_source(out0);
        lemma_rows_deduplicated_by_target(inc0);
        assert forall|u: int| 0 <= u < graph.out().len() implies unique_ends(
            #[trigger] graph.out()[u],
        ) by {
            lemma_deduplicated(out0[u]);
        }
        assert forall|v: int| 0 <= v < graph.inc().len() implies unique_ends(
            #[trigger] graph.inc()[v],
        ) by {
            lemma_deduplicated(inc0[v]);
        }
    }
}

} // verus!
