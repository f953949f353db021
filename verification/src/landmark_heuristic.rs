//! Bounds from several landmarks: the best of what each of them knows.

use crate::bidirectional_graph::BidirectionalGraph;
use crate::dijkstra_helper::DijkstraHelper;
use crate::graph::Edge;
use crate::heuristic::Heuristic;
use crate::landmark::Landmark;
use crate::landmark::excess;
use crate::paths::is_path;
use crate::paths::path_cost;
use crate::paths::reaches;
use crate::queue::DEFAULT_SEED;
use crate::shuffle::draw_below;
use crate::shuffle::seeded_generator;
use vstd::prelude::*;

verus! {

/// How many landmarks `tune` keeps at most.
pub const TUNED: usize = 10;

pub struct LandmarkHeuristic {
    landmarks: Vec<Landmark>,
}

/// The smaller of two bounds, where both are known; else the one that is.
pub open spec fn lesser(a: Option<u32>, b: Option<u32>) -> Option<u32> {
    match (a, b) {
        (Some(x), Some(y)) => if x <= y {
            a
        } else {
            b
        },
        (Some(x), None) => a,
        _ => b,
    }
}

/// The larger of two bounds, where both are known; else the one that is.
pub open spec fn greater(a: Option<u32>, b: Option<u32>) -> Option<u32> {
    match (a, b) {
        (Some(x), Some(y)) => if x >= y {
            a
        } else {
            b
        },
        (Some(x), None) => a,
        _ => b,
    }
}

/// The least upper bound that one of `landmarks` knows.
pub open spec fn least_upper(landmarks: Seq<Landmark>, source: u32, target: u32) -> Option<u32>
    decreases landmarks.len(),
{
    if landmarks.len() == 0 {
        None
    } else {
        lesser(
            least_upper(landmarks.drop_last(), source, target),
            landmarks.last().upper(source, target),
        )
    }
}

/// The greatest lower bound that one of `landmarks` knows.
pub open spec fn greatest_lower(landmarks: Seq<Landmark>, source: u32, target: u32) -> Option<u32>
    decreases landmarks.len(),
{
    if landmarks.len() == 0 {
        None
    } else {
        greater(
            greatest_lower(landmarks.drop_last(), source, target),
            landmarks.last().lower(source, target),
        )
    }
}

/// The place that a choice names.
pub open spec fn place_of(choice: Option<(u32, usize)>) -> int {
    match choice {
        Some((_, place)) => place as int,
        None => 0,
    }
}

/// The landmark knows both bounds for the two nodes.
pub open spec fn knows(landmark: Landmark, source: u32, target: u32) -> bool {
    landmark.upper(source, target) is Some && landmark.lower(source, target) is Some
}

/// How far apart the two bounds of the landmark are.
pub open spec fn gap(landmark: Landmark, source: u32, target: u32) -> u32 {
    excess(landmark.upper(source, target)->0, landmark.lower(source, target)->0)
}

/// The landmark at `i` comes before the one at `j` where its bounds are
/// closer together, or as close and it stands earlier.
pub open spec fn closer(landmarks: Seq<Landmark>, source: u32, target: u32, i: int,
    j: int) -> bool {
    gap(landmarks[i], source, target) < gap(landmarks[j], source, target) || (gap(
        landmarks[i],
        source,
        target,
    ) == gap(landmarks[j], source, target) && i < j)
}

/// `picks` are the places of the landmarks with the closest bounds for the
/// two nodes, closest first, `TUNED` of them or all that know both bounds.
pub open spec fn closest(landmarks: Seq<Landmark>, source: u32, target: u32,
    picks: Seq<int>) -> bool {
    &&& picks.len() <= TUNED
    &&& forall|k: int|
        0 <= k < picks.len() ==> 0 <= #[trigger] picks[k] < landmarks.len() && knows(
            landmarks[picks[k]],
            source,
            target,
        )
    &&& forall|k: int|
        0 < k < picks.len() ==> closer(landmarks, source, target, picks[k - 1], #[trigger] picks[k])
    &&& forall|k: int, j: int|
        0 <= k < picks.len() && 0 <= j < landmarks.len() && knows(landmarks[j], source, target)
            && j != picks[k] && (k == 0 || closer(landmarks, source, target, picks[k - 1], j))
            ==> #[trigger] closer(landmarks, source, target, picks[k], j)
    &&& picks.len() < TUNED ==> forall|j: int|
        0 <= j < landmarks.len() && knows(#[trigger] landmarks[j], source, target)
            ==> picks.len() > 0 && (j == picks.last() || closer(
            landmarks,
            source,
            target,
            j,
            picks.last(),
        ))
}

impl LandmarkHeuristic {
    /// The landmarks.
    pub closed spec fn landmarks(&self) -> Seq<Landmark> {
        self.landmarks@
    }

    /// Every landmark holds the costs of the cheapest paths of `store`.
    pub open spec fn describes(&self, store: BidirectionalGraph) -> bool {
        forall|i: int|
            0 <= i < self.landmarks().len() ==> (#[trigger] self.landmarks()[i]).describes(store)
    }

    /// The heuristic with the nodes of `chosen` as landmarks.
    pub fn from_nodes(graph: &BidirectionalGraph, chosen: &Vec<u32>) -> (heuristic: Self)
        requires
            graph.wf(),
            forall|i: int| 0 <= i < chosen@.len() ==> #[trigger] chosen@[i] < graph.nodes(),
        ensures
            heuristic.describes(*graph),
            heuristic.landmarks().len() == chosen@.len(),
            forall|i: int|
                0 <= i < chosen@.len() ==> (#[trigger] heuristic.landmarks()[i]).node()
                    == chosen@[i],
    {
        let helper = DijkstraHelper::new(graph);
        let mut landmarks: Vec<Landmark> = Vec::new();
        let mut i: usize = 0;
        while i < chosen.len()
            invariant
                0 <= i <= chosen@.len(),
                graph.wf(),
                helper.store() == *graph,
                forall|k: int| 0 <= k < chosen@.len() ==> #[trigger] chosen@[k] < graph.nodes(),
                landmarks@.len() == i,
                forall|k: int| 0 <= k < i ==> (#[trigger] landmarks@[k]).describes(*graph),
                forall|k: int| 0 <= k < i ==> (#[trigger] landmarks@[k]).node() == chosen@[k],
            decreases chosen@.len() - i,
        {
            let node = chosen[i];
            let cost_to = helper.single_source(node);
            let cost_from = helper.single_target(node);
            landmarks.push(Landmark::new(node, cost_to, cost_from));
            i += 1;
        }
        LandmarkHeuristic { landmarks }
    }

    /// The heuristic with `resolution` landmarks drawn by chance, with the
    /// default seed. A graph without nodes has no landmarks.
    pub fn new(graph: &BidirectionalGraph, resolution: u32) -> (heuristic: Self)
        requires
            graph.wf(),
        ensures
            heuristic.describes(*graph),
            heuristic.landmarks().len() == (if graph.nodes() == 0 {
                0
            } else {
                resolution as int
            }),
    {
        LandmarkHeuristic::with_seed(graph, resolution, DEFAULT_SEED)
    }

    /// The heuristic with `resolution` landmarks drawn by chance from a
    /// generator seeded with `seed`.
    pub fn with_seed(graph: &BidirectionalGraph, resolution: u32, seed: u64) -> (heuristic: Self)
        requires
            graph.wf(),
        ensures
            heuristic.describes(*graph),
            heuristic.landmarks().len() == (if graph.nodes() == 0 {
                0
            } else {
                resolution as int
            }),
    {
        let n = graph.outgoing_edges.len();
        let mut chosen: Vec<u32> = Vec::new();
        if n > 0 {
            let mut generator = seeded_generator(seed);
            let mut i: u32 = 0;
            while i < resolution
                invariant
                    0 <= i <= resolution,
                    0 < n <= u32::MAX + 1,
                    n == graph.nodes(),
                    chosen@.len() == i,
                    forall|k: int| 0 <= k < i ==> #[trigger] chosen@[k] < n,
                decreases resolution - i,
            {
                let node = if n > u32::MAX as usize {
                    let below = draw_below(&mut generator, u32::MAX);
                    below
                } else {
                    draw_below(&mut generator, n as u32)
                };
                chosen.push(node);
                i += 1;
            }
        }
        LandmarkHeuristic::from_nodes(graph, &chosen)
    }

    /// The heuristic of the landmarks whose two bounds for `source` and
    /// `target` are closest together: `TUNED` of them, or all that know
    /// both bounds, the closest first.
    pub fn tune(&self, source: u32, target: u32) -> (tuned: Self)
        ensures
            exists|picks: Seq<int>|
                #![trigger closest(self.landmarks(), source, target, picks)]
                closest(self.landmarks(), source, target, picks) && tuned.landmarks().len()
                    == picks.len() && forall|k: int|
                    0 <= k < picks.len() ==> (#[trigger] tuned.landmarks()[k]).node()
                        == self.landmarks()[picks[k]].node() && tuned.landmarks()[k].to()
                        == self.landmarks()[picks[k]].to() && tuned.landmarks()[k].from()
                        == self.landmarks()[picks[k]].from(),
    {
        let n = self.landmarks.len();
        let mut landmarks: Vec<Landmark> = Vec::new();
        let ghost mut picks: Seq<int> = Seq::empty();
        let mut last: Option<(u32, usize)> = None;
        let ghost all = self.landmarks@;
        let mut exhausted = false;
        while landmarks.len() < TUNED && !exhausted
            invariant
                n == all.len(),
                all == self.landmarks@,
                landmarks@.len() == picks.len(),
                picks.len() <= TUNED,
                forall|k: int|
                    0 <= k < picks.len() ==> 0 <= #[trigger] picks[k] < n && knows(
                        all[picks[k]],
                        source,
                        target,
                    ),
                forall|k: int|
                    0 < k < picks.len()
                        ==> closer(all, source, target, picks[k - 1], #[trigger] picks[k]),
                forall|k: int, j: int|
                    0 <= k < picks.len() && 0 <= j < n && knows(all[j], source, target) && j
                        != picks[k] && (k == 0 || closer(all, source, target, picks[k - 1], j))
                        ==> #[trigger] closer(all, source, target, picks[k], j),
                forall|k: int|
                    0 <= k < picks.len() ==> (#[trigger] landmarks@[k]).node()
                        == all[picks[k]].node() && landmarks@[k].to() == all[picks[k]].to()
                        && landmarks@[k].from() == all[picks[k]].from(),
                match last {
                    Some((width, place)) => picks.len() > 0 && picks.last() == place && width
                        == gap(all[place as int], source, target),
                    None => picks.len() == 0,
                },
                exhausted ==> forall|j: int|
                    0 <= j < n && knows(#[trigger] all[j], source, target) ==> picks.len() > 0 && (
                    j == picks.last() || closer(all, source, target, j, picks.last())),
            decreases TUNED - landmarks@.len() + (if exhausted { 0int } else { 1int }),
        {
            let mut best: Option<(u32, usize)> = None;
            let mut j: usize = 0;
            while j < n
                invariant
                    0 <= j <= n,
                    n == all.len(),
                    all == self.landmarks@,
                    match last {
                        Some((width, place)) => picks.len() > 0 && picks.last() == place && place
                            < n && width == gap(all[place as int], source, target),
                        None => picks.len() == 0,
                    },
                    match best {
                        Some((width, place)) => place < j && knows(
                            all[place as int],
                            source,
                            target,
                        ) && width == gap(all[place as int], source, target) && (picks.len() > 0
                            ==> closer(all, source, target, picks.last(), place as int)),
                        None => true,
                    },
                    forall|i: int|
                        0 <= i < j && knows(#[trigger] all[i], source, target) && (picks.len() == 0
                            || closer(all, source, target, picks.last(), i)) ==> best is Some && (
                        i == place_of(best) || closer(all, source, target, place_of(best), i)),
                decreases n - j,
            {
                let upper = self.landmarks[j].upper_bound(source, target);
                let lower = self.landmarks[j].lower_bound(source, target);
                if let (Some(high), Some(low)) = (upper, lower) {
                    let width = if high >= low {
                        high - low
                    } else {
                        0
                    };
                    let after_last = match last {
                        Some((last_width, last_place)) => width > last_width || (width
                            == last_width && j > last_place),
                        None => true,
                    };
                    let before_best = match best {
                        Some((best_width, _)) => width < best_width,
                        None => true,
                    };
                    if after_last && before_best {
                        best = Some((width, j));
                    }
                }
                j += 1;
            }
            match best {
                Some((width, place)) => {
                    landmarks.push(self.landmarks[place].copy());
                    proof {
                        let longer = picks.push(place as int);
                        assert forall|k: int, j: int|
                            0 <= k < longer.len() && 0 <= j < n && knows(all[j], source, target)
                                && j != longer[k] && (k == 0 || closer(
                                all,
                                source,
                                target,
                                longer[k - 1],
                                j,
                            )) implies #[trigger] closer(all, source, target, longer[k], j) by {
                            if k < picks.len() {
                                assert(longer[k] == picks[k]);
                                if k > 0 {
                                    assert(longer[k - 1] == picks[k - 1]);
                                }
                            }
                        }
                        assert forall|k: int| 0 < k < longer.len() implies closer(
                            all,
                            source,
                            target,
                            longer[k - 1],
                            #[trigger] longer[k],
                        ) by {
                            if k < picks.len() {
                                assert(longer[k] == picks[k]);
                                assert(longer[k - 1] == picks[k - 1]);
                            }
                        }
                        picks = longer;
                    }
                    last = Some((width, place));
                },
                None => {
                    exhausted = true;
                    proof {
                        assert forall|j: int|
                            0 <= j < n && knows(
                                #[trigger] all[j],
                                source,
                                target,
                            ) implies picks.len() > 0 && (j == picks.last() || closer(
                            all,
                            source,
                            target,
                            j,
                            picks.last(),
                        )) by {
                            if picks.len() == 0 || closer(all, source, target, picks.last(), j) {
                                assert(best is Some);
                            }
                        }
                    }
                },
            }
        }
        let tuned = LandmarkHeuristic { landmarks };
        proof {
            assert(closest(self.landmarks(), source, target, picks));
            assert(tuned.landmarks().len() == picks.len());
            assert forall|k: int| 0 <= k < picks.len()
                implies (#[trigger] tuned.landmarks()[k]).node()
                == self.landmarks()[picks[k]].node() && tuned.landmarks()[k].to()
                == self.landmarks()[picks[k]].to() && tuned.landmarks()[k].from()
                == self.landmarks()[picks[k]].from() by {
                assert(tuned.landmarks()[k] == tuned.landmarks@[k]);
            }
        }
        tuned
    }

    /// The upper bound of the heuristic is the cost of a path from `source`
    /// to `target`.
    pub proof fn lemma_upper_bound(&self, store: BidirectionalGraph, source: u32, target: u32)
        requires
            self.describes(store),
            store.mirrored(),
            least_upper(self.landmarks(), source, target) is Some,
        ensures
            reaches(
                store.out_edges(),
                source,
                target,
                least_upper(self.landmarks(), source, target)->0 as nat,
            ),
    {
        lemma_least_upper(self.landmarks(), store, source, target);
    }

    /// No path from `source` to `target` costs less than the lower bound
    /// of the heuristic.
    pub proof fn lemma_lower_bound(
        &self,
        store: BidirectionalGraph,
        source: u32,
        target: u32,
        path: Seq<Edge>,
    )
        requires
            self.describes(store),
            store.mirrored(),
            greatest_lower(self.landmarks(), source, target) is Some,
            is_path(store.out_edges(), path, source, target),
        ensures
            greatest_lower(self.landmarks(), source, target)->0 <= path_cost(path),
    {
        lemma_greatest_lower(self.landmarks(), store, source, target, path);
    }
}

proof fn lemma_least_upper(
    landmarks: Seq<Landmark>,
    store: BidirectionalGraph,
    source: u32,
    target: u32,
)
    requires
        forall|i: int| 0 <= i < landmarks.len() ==> (#[trigger] landmarks[i]).describes(store),
        store.mirrored(),
        least_upper(landmarks, source, target) is Some,
    ensures
        reaches(store.out_edges(), source, target, least_upper(landmarks, source,
            target)->0 as nat),
    decreases landmarks.len(),
{
    let rest = landmarks.drop_last();
    let last = landmarks.last();
    assert(landmarks[landmarks.len() - 1].describes(store));
    if least_upper(landmarks, source, target) == last.upper(source, target) {
        last.lemma_upper_bound(store, source, target);
    } else {
        assert forall|i: int| 0 <= i < rest.len() implies (#[trigger] rest[i]).describes(store) by {
            assert(rest[i] == landmarks[i]);
        }
        lemma_least_upper(rest, store, source, target);
    }
}

proof fn lemma_greatest_lower(
    landmarks: Seq<Landmark>,
    store: BidirectionalGraph,
    source: u32,
    target: u32,
    path: Seq<Edge>,
)
    requires
        forall|i: int| 0 <= i < landmarks.len() ==> (#[trigger] landmarks[i]).describes(store),
        store.mirrored(),
        greatest_lower(landmarks, source, target) is Some,
        is_path(store.out_edges(), path, source, target),
    ensures
        greatest_lower(landmarks, source, target)->0 <= path_cost(path),
    decreases landmarks.len(),
{
    let rest = landmarks.drop_last();
    let last = landmarks.last();
    assert(landmarks[landmarks.len() - 1].describes(store));
    if greatest_lower(landmarks, source, target) == last.lower(source, target) {
        last.lemma_lower_bound(store, source, target, path);
    } else {
        assert forall|i: int| 0 <= i < rest.len() implies (#[trigger] rest[i]).describes(store) by {
            assert(rest[i] == landmarks[i]);
        }
        lemma_greatest_lower(rest, store, source, target, path);
    }
}

impl Heuristic for LandmarkHeuristic {
    /// Whether some landmark can be reached from `source` and `target`
    /// from that landmark.
    fn is_reachable(&self, source: u32, target: u32) -> (reachable: Option<bool>)
        ensures
            reachable == Some(
                exists|i: int|
                    0 <= i < self.landmarks().len()
                        && (#[trigger] self.landmarks()[i]).from().contains_key(
                        source,
                    ) && self.landmarks()[i].to().contains_key(target),
            ),
    {
        let mut i: usize = 0;
        while i < self.landmarks.len()
            invariant
                0 <= i <= self.landmarks@.len(),
                forall|k: int|
                    0 <= k < i ==> !((#[trigger] self.landmarks@[k]).from().contains_key(source)
                        && self.landmarks@[k].to().contains_key(target)),
            decreases self.landmarks@.len() - i,
        {
            if self.landmarks[i].is_reachable(source, target) {
                assert(self.landmarks()[i as int].from().contains_key(source)
                    && self.landmarks()[i as int].to().contains_key(target));
                return Some(true);
            }
            i += 1;
        }
        Some(false)
    }

    /// The least of the upper bounds of the landmarks.
    fn upper_bound(&self, source: u32, target: u32) -> (bound: Option<u32>)
        ensures
            bound == least_upper(self.landmarks(), source, target),
    {
        let mut bound: Option<u32> = None;
        let mut i: usize = 0;
        assert(self.landmarks@.take(0) =~= Seq::<Landmark>::empty());
        while i < self.landmarks.len()
            invariant
                0 <= i <= self.landmarks@.len(),
                bound == least_upper(self.landmarks@.take(i as int), source, target),
            decreases self.landmarks@.len() - i,
        {
            let found = self.landmarks[i].upper_bound(source, target);
            proof {
                let next = self.landmarks@.take(i + 1);
                assert(next.drop_last() =~= self.landmarks@.take(i as int));
                assert(next.last() == self.landmarks@[i as int]);
            }
            bound = match (bound, found) {
                (Some(x), Some(y)) => if x <= y {
                    bound
                } else {
                    found
                },
                (Some(x), None) => bound,
                _ => found,
            };
            i += 1;
        }
        assert(self.landmarks@.take(i as int) =~= self.landmarks@);
        bound
    }

    /// The greatest of the lower bounds of the landmarks.
    fn lower_bound(&self, source: u32, target: u32) -> (bound: Option<u32>)
        ensures
            bound == greatest_lower(self.landmarks(), source, target),
    {
        let mut bound: Option<u32> = None;
        let mut i: usize = 0;
        assert(self.landmarks@.take(0) =~= Seq::<Landmark>::empty());
        while i < self.landmarks.len()
            invariant
                0 <= i <= self.landmarks@.len(),
                bound == greatest_lower(self.landmarks@.take(i as int), source, target),
            decreases self.landmarks@.len() - i,
        {
            let found = self.landmarks[i].lower_bound(source, target);
            proof {
                let next = self.landmarks@.take(i + 1);
                assert(next.drop_last() =~= self.landmarks@.take(i as int));
                assert(next.last() == self.landmarks@[i as int]);
            }
            bound = match (bound, found) {
                (Some(x), Some(y)) => if x >= y {
                    bound
                } else {
                    found
                },
                (Some(x), None) => bound,
                _ => found,
            };
            i += 1;
        }
        assert(self.landmarks@.take(i as int) =~= self.landmarks@);
        bound
    }
}

} // verus!
