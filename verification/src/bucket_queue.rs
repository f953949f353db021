//! A queue of buckets that are served in a circle: for keys that never lie
//! further ahead of the bucket last served than there are buckets.

use vstd::prelude::*;

verus! {

pub struct BucketQueue {
    i: usize,
    buckets: Vec<Vec<u32>>,
}

/// The buckets of a `Vec` of buckets, as sequences.
pub open spec fn bucket_views(buckets: Seq<Vec<u32>>) -> Seq<Seq<u32>> {
    Seq::new(buckets.len(), |k: int| buckets[k]@)
}

/// The bucket that lies `ahead` buckets after `cursor`, in a circle of `n`.
pub open spec fn slot_after(cursor: int, ahead: int, n: int) -> int {
    (cursor + ahead) % n
}

/// The bucket `ahead` buckets after `cursor` is the first from there that
/// holds a value, `value` is the one that was put into it last, and `after`
/// is `before` without it, with the cursor at that bucket.
pub open spec fn serves(
    before: Seq<Seq<u32>>,
    cursor: int,
    ahead: int,
    value: u32,
    after: Seq<Seq<u32>>,
    cursor_after: int,
) -> bool {
    let n = before.len() as int;
    let idx = slot_after(cursor, ahead, n);
    &&& 0 <= ahead < n
    &&& forall|k: int| 0 <= k < ahead ==> before[#[trigger] slot_after(cursor, k, n)].len() == 0
    &&& 0 <= idx < n
    &&& before[idx].len() > 0
    &&& value == before[idx].last()
    &&& after == before.update(idx, before[idx].drop_last())
    &&& cursor_after == idx
}

impl BucketQueue {
    /// The values in each bucket.
    pub closed spec fn slots(&self) -> Seq<Seq<u32>> {
        bucket_views(self.buckets@)
    }

    /// The bucket that was served last.
    pub closed spec fn cursor(&self) -> int {
        self.i as int
    }

    /// The cursor points at a bucket, if there is one.
    pub closed spec fn wf(&self) -> bool {
        self.i < self.buckets@.len() || self.i == 0
    }

    /// A queue of `max` empty buckets.
    pub fn new(max: u32) -> (queue: BucketQueue)
        ensures
            queue.wf(),
            queue.cursor() == 0,
            queue.slots().len() == max,
            forall|k: int| 0 <= k < max ==> (#[trigger] queue.slots()[k]).len() == 0,
    {
        let mut buckets: Vec<Vec<u32>> = Vec::new();
        let mut k: u32 = 0;
        while k < max
            invariant
                0 <= k <= max,
                buckets@.len() == k,
                forall|j: int| 0 <= j < k ==> (#[trigger] buckets@[j])@.len() == 0,
            decreases max - k,
        {
            buckets.push(Vec::new());
            k += 1;
        }
        BucketQueue { i: 0, buckets }
    }

    /// Puts `value` into the bucket of `key`: the one at `key` modulo the
    /// number of buckets.
    pub fn insert(&mut self, key: u32, value: u32)
        requires
            old(self).wf(),
            old(self).slots().len() > 0,
        ensures
            final(self).wf(),
            final(self).cursor() == old(self).cursor(),
            final(self).slots() == old(self).slots().update(
                key as int % old(self).slots().len() as int,
                old(self).slots()[key as int % old(self).slots().len() as int].push(value),
            ),
    {
        let idx = key as usize % self.buckets.len();
        let ghost before = self.buckets@;
        self.buckets[idx].push(value);
        assert(bucket_views(self.buckets@) =~~= bucket_views(before).update(
            idx as int,
            bucket_views(before)[idx as int].push(value),
        ));
    }

    /// Takes the value that was put last into the first bucket that holds
    /// one, counting in a circle from the bucket that was served last, and
    /// moves the cursor there.
    pub fn pop(&mut self) -> (value: Option<u32>)
        requires
            old(self).wf(),
        ensures
            final(self).wf(),
            match value {
                Some(v) => exists|ahead: int| #[trigger]
                    serves(
                        old(self).slots(),
                        old(self).cursor(),
                        ahead,
                        v,
                        final(self).slots(),
                        final(self).cursor(),
                    ),
                None => final(self).slots() == old(self).slots() && final(self).cursor()
                    == old(self).cursor() && forall|k: int|
                    0 <= k < old(self).slots().len() ==> (#[trigger] old(self).slots()[k]).len()
                        == 0,
            },
    {
        let n = self.buckets.len();
        let ghost slots0 = self.slots();
        let ghost cursor0 = self.i as int;
        let mut j: usize = 0;
        while j < n
            invariant
                0 <= j <= n,
                n == self.buckets@.len(),
                slots0 == old(self).slots(),
                cursor0 == old(self).cursor(),
                self.i == cursor0,
                self.i < n || self.i == 0,
                self.slots() == slots0,
                n == slots0.len(),
                forall|k: int|
                    0 <= k < j ==> slots0[#[trigger] slot_after(cursor0, k, n as int)].len() == 0,
            decreases n - j,
        {
            let idx = if j < n - self.i {
                self.i + j
            } else {
                j - (n - self.i)
            };
            proof {
                assert(idx == slot_after(cursor0, j as int, n as int)) by {
                    if j < n - self.i {
                        vstd::arithmetic::div_mod::lemma_small_mod((cursor0 + j) as nat, n as nat);
                    } else {
                        vstd::arithmetic::div_mod::lemma_mod_add_multiples_vanish(
                            cursor0 + j - n,
                            n as int,
                        );
                        vstd::arithmetic::div_mod::lemma_small_mod(
                            (cursor0 + j - n) as nat,
                            n as nat,
                        );
                    }
                }
            }
            if let Some(value) = self.buckets[idx].pop() {
                self.i = idx;
                proof {
                    assert(bucket_views(self.buckets@) =~~= slots0.update(
                        idx as int,
                        slots0[idx as int].drop_last(),
                    ));
                    assert(serves(slots0, cursor0, j as int, value, self.slots(), self.cursor()));
                }
                return Some(value);
            }
            proof {
                assert(bucket_views(self.buckets@) =~~= slots0);
            }
            j += 1;
        }
        proof {
            assert forall|k: int| 0 <= k < n implies (#[trigger] slots0[k]).len() == 0 by {
                let ahead = if k >= cursor0 {
                    k - cursor0
                } else {
                    k + n - cursor0
                };
                if k >= cursor0 {
                    vstd::arithmetic::div_mod::lemma_small_mod(k as nat, n as nat);
                } else {
                    vstd::arithmetic::div_mod::lemma_mod_add_multiples_vanish(k, n as int);
                    vstd::arithmetic::div_mod::lemma_small_mod(k as nat, n as nat);
                }
                assert(slot_after(cursor0, ahead, n as int) == k);
            }
        }
        None
    }
}

} // verus!
