//! Bags of retired objects and the global garbage queue.
//!
//! A thread buffers retired objects in a bounded [`Bag`].  When the bag is
//! full (or the thread exits) the bag is stamped with the epoch observed at
//! that moment and appended to the global [`GarbageQueue`].  A queued bag
//! may be drained -- its objects disposed of -- only once the global epoch
//! lies a whole generation past the bag's stamp.

use vstd::prelude::*;
use crate::epoch::{epoch_distance, epoch_since, COLLECT_DISTANCE};

verus! {

broadcast use vstd::seq_lib::group_seq_properties;

/// Capacity of a thread-local bag: how many retired objects a thread
/// buffers before handing them to the global queue.
pub const BAG_CAPACITY: usize = 64;

/// A bounded, thread-owned buffer of retired objects, identified by their
/// handles.
pub struct Bag {
    pub objects: Vec<u64>,
}

impl Bag {
    /// A bag never holds more than its capacity.
    pub open spec fn wf(self) -> bool {
        self.objects@.len() <= BAG_CAPACITY
    }

    /// An empty bag.
    pub fn new() -> (r: Bag)
        ensures
            r.objects@ == Seq::<u64>::empty(),
            r.wf(),
    {
        Bag { objects: Vec::new() }
    }

    /// Append one retired object, unless the bag is already at capacity.
    /// Returns whether the object was taken; a `false` return tells the
    /// caller to seal this bag and start a fresh one.
    pub fn try_insert(&mut self, obj: u64) -> (r: bool)
        requires
            old(self).wf(),
        ensures
            final(self).wf(),
            r == (old(self).objects@.len() < BAG_CAPACITY),
            r ==> final(self).objects@ == old(self).objects@.push(obj),
            !r ==> final(self).objects@ == old(self).objects@,
    {
        if self.objects.len() < BAG_CAPACITY {
            self.objects.push(obj);
            true
        } else {
            false
        }
    }

    /// Number of objects currently buffered.
    pub fn len(&self) -> (r: usize)
        ensures
            r == self.objects@.len(),
    {
        self.objects.len()
    }
}

/// A bag that has been handed to the global queue, stamped with the epoch
/// observed at the hand-off.
pub struct SealedBag {
    pub epoch: u64,
    pub objects: Vec<u64>,
}

/// The mathematical content of a sealed bag: its stamp and its objects.
#[verifier::ext_equal]
pub struct BagV {
    pub epoch: u64,
    pub objects: Seq<u64>,
}

impl View for SealedBag {
    type V = BagV;

    open spec fn view(&self) -> BagV {
        BagV { epoch: self.epoch, objects: self.objects@ }
    }
}

/// A queued bag may be drained once the global epoch lies at least a whole
/// generation (two advances) past the bag's stamp.
pub open spec fn collectable(global: u64, b: BagV) -> bool {
    epoch_distance(global, b.epoch) >= COLLECT_DISTANCE
}

/// Length of the longest drainable prefix of the queue: draining stops at
/// the first bag that is still too young.
pub open spec fn drain_count(q: Seq<BagV>, global: u64) -> int
    decreases q.len(),
{
    if q.len() > 0 && collectable(global, q[0]) {
        1 + drain_count(q.drop_first(), global)
    } else {
        0
    }
}

/// All objects of a run of bags, oldest bag first.
pub open spec fn bag_objects(q: Seq<BagV>) -> Seq<u64>
    decreases q.len(),
{
    if q.len() == 0 {
        Seq::empty()
    } else {
        q[0].objects + bag_objects(q.drop_first())
    }
}

/// The drainable prefix is exactly the bags that are old enough, stopping
/// at the first one that is not.
pub proof fn lemma_drain_count_bounds(q: Seq<BagV>, global: u64)
    ensures
        0 <= drain_count(q, global) <= q.len(),
        forall|i: int| 0 <= i < drain_count(q, global) ==> collectable(global, q[i]),
        drain_count(q, global) < q.len() ==> !collectable(global, q[drain_count(q, global)]),
    decreases q.len(),
{
    if q.len() > 0 && collectable(global, q[0]) {
        lemma_drain_count_bounds(q.drop_first(), global);
        assert forall|i: int| 0 <= i < drain_count(q, global) implies collectable(global, q[i]) by {
            if i > 0 {
                assert(q[i] == q.drop_first()[i - 1]);
            }
        }
    }
}

/// A position that is drainable up to itself and not past itself pins the
/// drain count down.
pub proof fn lemma_drain_count_is(q: Seq<BagV>, global: u64, n: int)
    requires
        0 <= n <= q.len(),
        forall|i: int| 0 <= i < n ==> collectable(global, q[i]),
        n < q.len() ==> !collectable(global, q[n]),
    ensures
        drain_count(q, global) == n,
    decreases q.len(),
{
    if q.len() > 0 && collectable(global, q[0]) {
        assert(n >= 1);
        assert forall|i: int| 0 <= i < n - 1 implies collectable(global, q.drop_first()[i]) by {
            assert(q.drop_first()[i] == q[i + 1]);
        }
        assert(n - 1 < q.drop_first().len() ==> !collectable(global, q.drop_first()[n - 1]));
        lemma_drain_count_is(q.drop_first(), global, n - 1);
    }
}

/// Every object of every bag in a run appears among the run's objects.
pub proof fn lemma_bag_objects_contains(q: Seq<BagV>, j: int, x: int)
    requires
        0 <= j < q.len(),
        0 <= x < q[j].objects.len(),
    ensures
        bag_objects(q).contains(q[j].objects[x]),
    decreases q.len(),
{
    if j == 0 {
        assert(bag_objects(q)[x] == q[0].objects[x]);
    } else {
        lemma_bag_objects_contains(q.drop_first(), j - 1, x);
        assert(q.drop_first()[j - 1] == q[j]);
        let o = q[j].objects[x];
        let y = choose|y: int|
            0 <= y < bag_objects(q.drop_first()).len() && bag_objects(q.drop_first())[y] == o;
        assert(bag_objects(q)[q[0].objects.len() + y] == o);
    }
}

/// Appending a bag extends the object run at the back.
pub proof fn lemma_bag_objects_push(q: Seq<BagV>, b: BagV)
    ensures
        bag_objects(q.push(b)) == bag_objects(q) + b.objects,
    decreases q.len(),
{
    if q.len() == 0 {
        assert(q.push(b)[0] == b);
        assert(q.push(b).drop_first() =~= Seq::<BagV>::empty());
        assert(bag_objects(Seq::<BagV>::empty()) =~= Seq::<u64>::empty());
        assert(bag_objects(q.push(b)) =~= b.objects);
        assert(bag_objects(q) + b.objects =~= b.objects);
    } else {
        assert(q.push(b).drop_first() =~= q.drop_first().push(b));
        lemma_bag_objects_push(q.drop_first(), b);
        assert(bag_objects(q.push(b)) =~= bag_objects(q) + b.objects);
    }
}

/// The global, epoch-stamped queue of sealed bags, oldest first.
pub struct GarbageQueue {
    pub bags: Vec<SealedBag>,
}

impl View for GarbageQueue {
    type V = Seq<BagV>;

    open spec fn view(&self) -> Seq<BagV> {
        self.bags@.map_values(|b: SealedBag| b@)
    }
}

impl GarbageQueue {
    /// An empty queue.
    pub fn new() -> (r: GarbageQueue)
        ensures
            r@ == Seq::<BagV>::empty(),
    {
        let r = GarbageQueue { bags: Vec::new() };
        proof {
            assert(r@ =~= Seq::<BagV>::empty());
        }
        r
    }

    /// Seal a run of objects with the given stamp and append it at the
    /// back of the queue.
    pub fn push(&mut self, objects: Vec<u64>, epoch: u64)
        ensures
            final(self)@ == old(self)@.push(BagV { epoch, objects: objects@ }),
    {
        let ghost target = old(self)@.push(BagV { epoch, objects: objects@ });
        self.bags.push(SealedBag { epoch, objects });
        proof {
            assert(self@ =~= target);
        }
    }

    /// Dispose of every bag that is old enough: pop bags from the front
    /// while their stamp lies a whole generation behind `global`, and
    /// append their objects, in order, to `disposed`.  Draining stops at
    /// the first bag that is still too young.
    pub fn collect(&mut self, global: u64, disposed: &mut Vec<u64>)
        ensures
            final(self)@ == old(self)@.skip(drain_count(old(self)@, global)),
            final(disposed)@ == old(disposed)@
                + bag_objects(old(self)@.take(drain_count(old(self)@, global))),
    {
        let ghost q0 = old(self)@;
        let ghost d0 = old(disposed)@;
        let len0 = self.bags.len();
        let mut n: usize = 0;
        proof {
            assert(q0.len() == len0);
            assert(self@ =~= q0.skip(0));
            assert(q0.take(0) =~= Seq::<BagV>::empty());
            assert(d0 + bag_objects(q0.take(0)) =~= d0);
        }
        loop
            invariant
                n <= q0.len(),
                q0.len() == len0,
                self@ == q0.skip(n as int),
                disposed@ == d0 + bag_objects(q0.take(n as int)),
                forall|i: int| 0 <= i < n ==> collectable(global, q0[i]),
            ensures
                n <= q0.len(),
                self@ == q0.skip(n as int),
                disposed@ == d0 + bag_objects(q0.take(n as int)),
                forall|i: int| 0 <= i < n ==> collectable(global, q0[i]),
                n < q0.len() ==> !collectable(global, q0[n as int]),
            decreases q0.len() - n,
        {
            if self.bags.len() == 0 {
                proof {
                    assert(self@.len() == self.bags@.len());
                    assert(n == q0.len());
                }
                break;
            }
            proof {
                assert(self@.len() == self.bags@.len());
                assert(n < q0.len());
                assert(self@[0] == self.bags@[0]@);
                assert(self@[0] == q0[n as int]);
            }
            let stamp = self.bags[0].epoch;
            if epoch_since(global, stamp) < COLLECT_DISTANCE {
                break;
            }
            let ghost bags_before = self.bags@;
            let mut bag = self.bags.remove(0);
            proof {
                assert(bag@ == q0[n as int]);
                bags_before.remove_ensures(0);
                assert forall|i: int| 0 <= i < self@.len() implies self@[i] == q0[n + 1 + i] by {
                    assert(self@[i] == self.bags@[i]@);
                    assert(self.bags@[i] == bags_before[i + 1]);
                    assert(q0.skip(n as int)[i + 1] == bags_before[i + 1]@);
                    assert(q0.skip(n as int)[i + 1] == q0[n + 1 + i]);
                }
                assert(self@.len() == q0.len() - (n + 1));
                assert(self@ =~= q0.skip(n + 1));
            }
            let mut j: usize = 0;
            let m = bag.objects.len();
            proof {
                assert(bag@.objects.take(0) =~= Seq::<u64>::empty());
                assert(disposed@ + bag@.objects.take(0) =~= disposed@);
            }
            let ghost dmid = disposed@;
            while j < m
                invariant
                    j <= m,
                    m == bag.objects@.len(),
                    disposed@ =~= dmid + bag.objects@.take(j as int),
                decreases m - j,
            {
                let obj = bag.objects[j];
                disposed.push(obj);
                proof {
                    assert(bag.objects@.take(j + 1) =~= bag.objects@.take(j as int).push(obj));
                }
                j = j + 1;
            }
            proof {
                assert(bag.objects@.take(m as int) =~= bag.objects@);
                assert(q0.take(n + 1) =~= q0.take(n as int).push(q0[n as int]));
                lemma_bag_objects_push(q0.take(n as int), q0[n as int]);
                assert(disposed@ =~= d0 + bag_objects(q0.take(n + 1)));
            }
            n = n + 1;
        }
        proof {
            lemma_drain_count_is(q0, global, n as int);
        }
    }

    /// Number of queued bags.
    pub fn len(&self) -> (r: usize)
        ensures
            r == self@.len(),
    {
        self.bags.len()
    }
}

} // verus!
