use vstd::prelude::*;
use vstd::multiset::Multiset;

verus! {

broadcast use vstd::seq_lib::group_to_multiset_ensures;

/// A min-priority queue of `(cost, node)` items whose costs lie below a
/// fixed limit: one bucket per cost, and a cursor below which every bucket
/// is empty.
pub struct BucketQueue {
    buckets: Vec<Vec<u32>>,
    cursor: usize,
    items: Ghost<Multiset<(u16, u32)>>,
}

impl View for BucketQueue {
    type V = Multiset<(u16, u32)>;

    closed spec fn view(&self) -> Multiset<(u16, u32)> {
        self.items@
    }
}

impl BucketQueue {
    /// Every item's cost is below this limit.
    pub closed spec fn limit(&self) -> nat {
        self.buckets@.len()
    }

    /// The buckets hold exactly the items, and none lies below the cursor.
    pub closed spec fn wf(&self) -> bool {
        &&& self.buckets@.len() <= 65536
        &&& self.cursor <= self.buckets@.len()
        &&& forall|c: int| 0 <= c < self.cursor ==> (#[trigger] self.buckets@[c])@.len() == 0
        &&& forall|p: (u16, u32)|
            #[trigger] self.items@.count(p) == if (p.0 as int) < self.buckets@.len() {
                self.buckets@[p.0 as int]@.to_multiset().count(p.1)
            } else {
                0
            }
    }

    /// An empty queue for costs below `limit`.
    pub fn new(limit: u16) -> (q: BucketQueue)
        ensures
            q.wf(),
            q.limit() == limit as nat,
            q@ =~= Multiset::empty(),
    {
        let mut buckets: Vec<Vec<u32>> = Vec::new();
        let mut i: u16 = 0;
        while i < limit
            invariant
                i <= limit,
                buckets@.len() == i as nat,
                forall|c: int| 0 <= c < i ==> (#[trigger] buckets@[c])@.len() == 0,
            decreases limit - i,
        {
            buckets.push(Vec::new());
            i = i + 1;
        }
        let q = BucketQueue { buckets, cursor: 0, items: Ghost(Multiset::empty()) };
        assert forall|p: (u16, u32)| #[trigger] q.items@.count(p) == if (p.0 as int) < q.buckets@.len() {
            q.buckets@[p.0 as int]@.to_multiset().count(p.1)
        } else {
            0
        } by {
            if (p.0 as int) < q.buckets@.len() {
                let s = q.buckets@[p.0 as int]@;
                assert(!s.contains(p.1));
            }
        }
        q
    }

    /// Adds the item `(cost, node)`.
    pub fn push(&mut self, cost: u16, node: u32)
        requires
            old(self).wf(),
            (cost as nat) < old(self).limit(),
        ensures
            final(self).wf(),
            final(self).limit() == old(self).limit(),
            final(self)@ == old(self)@.insert((cost, node)),
    {
        let ghost old_buckets = self.buckets@;
        let c = cost as usize;
        self.buckets[c].push(node);
        if c < self.cursor {
            self.cursor = c;
        }
        self.items = Ghost(self.items@.insert((cost, node)));
        assert forall|p: (u16, u32)| #[trigger] self.items@.count(p) == if (p.0 as int) < self.buckets@.len() {
            self.buckets@[p.0 as int]@.to_multiset().count(p.1)
        } else {
            0
        } by {
            if p.0 == cost {
                assert(self.buckets@[c as int]@ == old_buckets[c as int]@.push(node));
            }
        }
    }

    /// Removes and returns an item of least cost, or `None` where the queue
    /// is empty.
    pub fn pop(&mut self) -> (r: Option<(u16, u32)>)
        requires
            old(self).wf(),
        ensures
            final(self).wf(),
            final(self).limit() == old(self).limit(),
            match r {
                None => old(self)@.len() == 0 && final(self)@ == old(self)@,
                Some(x) => {
                    &&& old(self)@.count(x) > 0
                    &&& forall|y: (u16, u32)| old(self)@.count(y) > 0 ==> x.0 <= y.0
                    &&& final(self)@ == old(self)@.remove(x)
                },
            },
    {
        let limit = self.buckets.len();
        let mut k = self.cursor;
        while k < limit && self.buckets[k].len() == 0
            invariant
                self.wf(),
                limit == self.buckets@.len(),
                self.cursor <= k <= limit,
                forall|c: int| 0 <= c < k ==> (#[trigger] self.buckets@[c])@.len() == 0,
            decreases limit - k,
        {
            k = k + 1;
        }
        if k == limit {
            assert(self.items@ =~= Multiset::empty()) by {
                assert forall|p: (u16, u32)| #[trigger] self.items@.count(p) == 0 by {
                    if (p.0 as int) < self.buckets@.len() {
                        assert(self.buckets@[p.0 as int]@.len() == 0);
                        assert(!self.buckets@[p.0 as int]@.contains(p.1));
                    }
                }
            }
            self.cursor = limit;
            return None;
        }
        let ghost old_items = self.items@;
        let ghost old_bucket = self.buckets@[k as int]@;
        assert forall|y: (u16, u32)| old_items.count(y) > 0 implies k <= y.0 by {
            if (y.0 as int) < k {
                assert(self.buckets@[y.0 as int]@.len() == 0);
                assert(!self.buckets@[y.0 as int]@.contains(y.1));
            }
        }
        self.cursor = k;
        let node = self.buckets[k].pop().unwrap();
        let cost = k as u16;
        assert(old_bucket.drop_last() =~= old_bucket.remove(old_bucket.len() - 1));
        assert(old_bucket.contains(node));
        self.items = Ghost(self.items@.remove((cost, node)));
        assert forall|p: (u16, u32)| #[trigger] self.items@.count(p) == if (p.0 as int) < self.buckets@.len() {
            self.buckets@[p.0 as int]@.to_multiset().count(p.1)
        } else {
            0
        } by {
            if p.0 == cost {
                assert(self.buckets@[k as int]@ == old_bucket.drop_last());
            }
        }
        Some((cost, node))
    }
}

} // verus!
