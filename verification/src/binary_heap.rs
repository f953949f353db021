//! A binary min-heap over items that carry their own priority, and the item
//! type that the shortest-path searches push.

use vstd::multiset::Multiset;
use vstd::prelude::*;

verus! {

broadcast use vstd::seq_lib::group_to_multiset_ensures;

/// An item that a [`MinHeap`] can order: the smaller `key` leaves first, and
/// among equal keys the larger `tie`.
pub trait HeapOrdered: Copy {
    spec fn key(&self) -> int;

    spec fn tie(&self) -> int;

    /// Whether `self` leaves the heap no later than `other`.
    fn precedes(&self, other: &Self) -> (b: bool)
        ensures
            b == (self.key() < other.key() || (self.key() == other.key() && self.tie()
                >= other.tie())),
    ;
}

/// The heap order: `a` leaves no later than `b`.
pub open spec fn leaves_before<T: HeapOrdered>(a: T, b: T) -> bool {
    a.key() < b.key() || (a.key() == b.key() && a.tie() >= b.tie())
}

/// A node with the tentative cost at which a search has reached it.
#[derive(Debug, Clone, Copy, PartialEq, Eq, Structural)]
pub struct MinimumItem {
    pub priority: u32,
    pub item: u32,
}

impl MinimumItem {
    pub fn new(priority: u32, item: u32) -> (created: Self)
        ensures
            created == (MinimumItem { priority, item }),
    {
        Self { priority, item }
    }
}

impl HeapOrdered for MinimumItem {
    open spec fn key(&self) -> int {
        self.priority as int
    }

    open spec fn tie(&self) -> int {
        self.item as int
    }

    fn precedes(&self, other: &Self) -> (b: bool) {
        self.priority < other.priority || (self.priority == other.priority && self.item
            >= other.item)
    }
}

/// A binary heap whose `pop` hands out an item that precedes all others.
pub struct MinHeap<T: HeapOrdered> {
    data: Vec<T>,
}

pub open spec fn parent(i: int) -> int {
    (i - 1) / 2
}

/// Every item but the one at `hole` is preceded by its parent, and the parent
/// of `hole` precedes the children of `hole`.
pub open spec fn heap_except<T: HeapOrdered>(s: Seq<T>, hole: int) -> bool {
    &&& forall|i: int| 0 < i < s.len() && i != hole ==> leaves_before(s[parent(i)], #[trigger] s[i])
    &&& forall|i: int|
        0 < i < s.len() && parent(i) == hole && hole > 0 ==> leaves_before(
            s[parent(hole)],
            #[trigger] s[i],
        )
}

/// Every item is preceded by its parent, but perhaps the children of `hole`.
pub open spec fn heap_below<T: HeapOrdered>(s: Seq<T>, hole: int) -> bool {
    &&& forall|i: int|
        0 < i < s.len() && parent(i) != hole ==> leaves_before(s[parent(i)], #[trigger] s[i])
    &&& forall|i: int|
        0 < i < s.len() && parent(i) == hole && hole > 0 ==> leaves_before(
            s[parent(hole)],
            #[trigger] s[i],
        )
}

pub open spec fn is_heap<T: HeapOrdered>(s: Seq<T>) -> bool {
    forall|i: int| 0 < i < s.len() ==> leaves_before(s[parent(i)], #[trigger] s[i])
}

/// In a heap the root precedes every item.
pub proof fn lemma_root_is_least<T: HeapOrdered>(s: Seq<T>, i: int)
    requires
        is_heap(s),
        0 <= i < s.len(),
    ensures
        leaves_before(s[0], s[i]),
    decreases i,
{
    if i > 0 {
        lemma_root_is_least(s, parent(i));
    }
}

impl<T: HeapOrdered> MinHeap<T> {
    /// The items in the heap.
    pub closed spec fn view(&self) -> Multiset<T> {
        self.data@.to_multiset()
    }

    /// The heap order holds between every item and its parent.
    pub closed spec fn wf(&self) -> bool {
        is_heap(self.data@)
    }

    pub fn new() -> (heap: Self)
        ensures
            heap.wf(),
            heap@ == Multiset::<T>::empty(),
    {
        let heap = MinHeap { data: Vec::new() };
        assert(heap.data@.to_multiset() =~= Multiset::<T>::empty());
        heap
    }

    pub fn len(&self) -> (n: usize)
        ensures
            n == self@.len(),
    {
        self.data.len()
    }

    pub fn is_empty(&self) -> (b: bool)
        ensures
            b == (self@.len() == 0),
    {
        self.data.len() == 0
    }

    /// The item that `pop` would hand out.
    pub fn peek(&self) -> (top: Option<T>)
        requires
            self.wf(),
        ensures
            self@.len() == 0 ==> top is None,
            self@.len() > 0 ==> top is Some && is_least(self@, top->0),
    {
        if self.data.len() == 0 {
            None
        } else {
            let top = self.data[0];
            proof {
                assert(self.data@.contains(top));
                assert forall|y: T| self@.contains(y) implies leaves_before(top, y) by {
                    let j = choose|j: int| 0 <= j < self.data@.len() && self.data@[j] == y;
                    lemma_root_is_least(self.data@, j);
                }
            }
            Some(top)
        }
    }

    pub fn push(&mut self, item: T)
        requires
            old(self).wf(),
        ensures
            final(self).wf(),
            final(self)@ == old(self)@.insert(item),
    {
        self.data.push(item);
        let mut i: usize = self.data.len() - 1;
        while i > 0
            invariant
                0 <= i < self.data@.len(),
                heap_except(self.data@, i as int),
                self.data@.to_multiset() == old(self)@.insert(item),
            ensures
                is_heap(self.data@),
                self.data@.to_multiset() == old(self)@.insert(item),
            decreases i,
        {
            let p: usize = (i - 1) / 2;
            let child = self.data[i];
            let above = self.data[p];
            if above.precedes(&child) {
                break;
            }
            let ghost before = self.data@;
            self.data[i] = above;
            self.data[p] = child;
            proof {
                let after = self.data@;
                assert(after.to_multiset() =~= before.to_multiset());
                assert(after =~= before.update(i as int, above).update(p as int, child));
                lemma_lift(before, after, i as int);
            }
            i = p;
        }
    }

    /// Takes out an item that precedes every other one.
    pub fn pop(&mut self) -> (top: Option<T>)
        requires
            old(self).wf(),
        ensures
            final(self).wf(),
            old(self)@.len() == 0 ==> top is None && final(self)@ == old(self)@,
            old(self)@.len() > 0 ==> top is Some && is_least(old(self)@, top->0) && final(self)@
                == old(self)@.remove(top->0),
    {
        let n = self.data.len();
        if n == 0 {
            return None;
        }
        let top = self.data[0];
        proof {
            assert(self.data@.contains(top));
            assert forall|y: T| self@.contains(y) implies leaves_before(top, y) by {
                let j = choose|j: int| 0 <= j < self.data@.len() && self.data@[j] == y;
                lemma_root_is_least(self.data@, j);
            }
        }
        let ghost full = self.data@;
        let last = self.data.pop().unwrap();
        proof {
            assert(self.data@ =~= full.remove(n - 1));
        }
        if n == 1 {
            return Some(top);
        }
        let ghost shorter = self.data@;
        self.data[0] = last;
        proof {
            assert(self.data@ =~= shorter.update(0, last));
            assert(self.data@.to_multiset() =~= full.to_multiset().remove(top));
        }
        let m = n - 1;
        let mut i: usize = 0;
        loop
            invariant
                m == self.data@.len(),
                0 <= i < m,
                heap_below(self.data@, i as int),
                self.data@.to_multiset() == old(self)@.remove(top),
            ensures
                is_heap(self.data@),
                self.data@.to_multiset() == old(self)@.remove(top),
            decreases m - i,
        {
            if i >= m / 2 {
                break;
            }
            let left: usize = 2 * i + 1;
            let right: usize = left + 1;
            let mut least: usize = left;
            if right < m {
                let r = self.data[right];
                let l = self.data[left];
                if !l.precedes(&r) {
                    least = right;
                }
            }
            let here = self.data[i];
            let below = self.data[least];
            if here.precedes(&below) {
                break;
            }
            let ghost before = self.data@;
            self.data[i] = below;
            self.data[least] = here;
            proof {
                let after = self.data@;
                assert(after.to_multiset() =~= before.to_multiset());
                assert(after =~= before.update(i as int, below).update(least as int, here));
                lemma_sink(before, after, i as int, least as int);
            }
            i = least;
        }
        Some(top)
    }
}

/// Swapping the item at `hole` with its parent, which does not precede it,
/// moves the hole up.
proof fn lemma_lift<T: HeapOrdered>(before: Seq<T>, after: Seq<T>, hole: int)
    requires
        0 < hole < before.len(),
        heap_except(before, hole),
        !leaves_before(before[parent(hole)], before[hole]),
        after == before.update(hole, before[parent(hole)]).update(parent(hole), before[hole]),
    ensures
        heap_except(after, parent(hole)),
{
    let p = parent(hole);
    assert forall|i: int| 0 < i < after.len() && i != p implies leaves_before(
        after[parent(i)],
        #[trigger] after[i],
    ) by {
        if i == hole {
        } else if parent(i) == hole {
            assert(leaves_before(before[p], before[i]));
        } else if parent(i) == p {
            assert(leaves_before(before[p], before[i]));
        } else {
            assert(leaves_before(before[parent(i)], before[i]));
        }
    }
    assert forall|i: int| 0 < i < after.len() && parent(i) == p && p > 0 implies leaves_before(
        after[parent(p)],
        #[trigger] after[i],
    ) by {
        assert(leaves_before(before[parent(p)], before[p]));
        if i == hole {
        } else {
            assert(leaves_before(before[p], before[i]));
        }
    }
}

/// Swapping the item at `hole` with the child that precedes the other, and
/// which it does not precede, moves the hole down.
proof fn lemma_sink<T: HeapOrdered>(before: Seq<T>, after: Seq<T>, hole: int, least: int)
    requires
        0 <= hole < least < before.len(),
        parent(least) == hole,
        heap_below(before, hole),
        forall|i: int|
            0 < i < before.len() && parent(i) == hole ==> leaves_before(
                before[least],
                #[trigger] before[i],
            ),
        !leaves_before(before[hole], before[least]),
        after == before.update(hole, before[least]).update(least, before[hole]),
    ensures
        heap_below(after, least),
{
    assert forall|i: int| 0 < i < after.len() && parent(i) != least implies leaves_before(
        after[parent(i)],
        #[trigger] after[i],
    ) by {
        if i == hole {
            assert(leaves_before(before[parent(hole)], before[least]));
        } else if parent(i) == hole {
            assert(leaves_before(before[least], before[i]));
        } else {
            assert(leaves_before(before[parent(i)], before[i]));
        }
    }
    assert forall|i: int|
        0 < i < after.len() && parent(i) == least && least > 0 implies leaves_before(
        after[parent(least)],
        #[trigger] after[i],
    ) by {
        assert(leaves_before(before[least], before[i]));
    }
}

/// `x` is in `items` and precedes every item in it.
pub open spec fn is_least<T: HeapOrdered>(items: Multiset<T>, x: T) -> bool {
    &&& items.contains(x)
    &&& forall|y: T| items.contains(y) ==> leaves_before(x, y)
}

} // verus!
