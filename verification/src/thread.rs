//! Thread registration, pinning, and the global protocol state.
//!
//! Every participating thread has an entry in a registry anchored in
//! [`Global`]; the entry's state word says whether the thread is pinned and
//! at which epoch.  A thread pins itself before touching shared cells and
//! unpins on the way out; every so many pinnings it opportunistically tries
//! to advance the global epoch and to collect garbage that has aged out.

use vstd::prelude::*;
use crate::epoch::{
    epoch_add2, is_pinned_state, lemma_pinned_state, lemma_unpinned_state, make_pinned_state,
    read_pinned_flag, read_state_epoch, PINS_BETWEEN_COLLECT,
};
use crate::garbage::{Bag, BagV, GarbageQueue, BAG_CAPACITY};
use crate::laws::{
    inv, lemma_advance_keeps_entry, lemma_collect_inv, lemma_find_after_update,
    lemma_pin_thread_inv, lemma_push_inv, lemma_register_inv, lemma_try_advance_inv,
    lemma_unpin_thread_inv, lemma_unregister_inv,
};
use crate::model::id_count;
use crate::model::{
    find_thread, has_thread, is_stale, lemma_find_thread, lemma_find_thread_is,
    lemma_scan_stop_is, lemma_survivors_push, lemma_unlinked_ids_push, m_collect, m_pin_thread,
    m_push, m_register, m_try_advance, m_unpin_thread, m_unregister, scan_stop, survivors,
    unlinked_ids, GlobalV,
};

verus! {

broadcast use vstd::seq_lib::group_seq_properties;

/// One entry in the registry of participating threads.
///
/// The state word is written only by the owning thread: its low bit says
/// whether the thread is currently pinned, the remaining bits carry the
/// epoch observed at pin time.  `deleted` models the tag an exiting thread
/// sets on its forward link: a deleted entry stays in the registry until an
/// epoch-advance scan physically unlinks it.
#[derive(Clone, Copy, PartialEq, Eq, Structural)]
pub struct Thread {
    /// Stable identifier of the owning thread.
    pub id: u64,
    /// Pinned flag in the low bit, pin-time epoch above it.
    pub state: u64,
    /// Whether the owning thread has exited and the entry awaits unlinking.
    pub deleted: bool,
}

/// The shared protocol state: the global epoch, the registry of thread
/// entries (most recently registered first), the queue of retired bags and
/// the record of objects whose disposal has run.
pub struct Global {
    /// The global epoch; always even.
    pub epoch: u64,
    /// The registry, newest entry first.
    pub threads: Vec<Thread>,
    /// Retired bags, oldest first, each stamped with its hand-off epoch.
    pub garbage: GarbageQueue,
    /// Handles of objects whose disposer has been invoked, in order.
    pub disposed: Vec<u64>,
}

impl View for Global {
    type V = GlobalV;

    open spec fn view(&self) -> GlobalV {
        GlobalV {
            epoch: self.epoch,
            threads: self.threads@,
            queue: self.garbage@,
            disposed: self.disposed@,
        }
    }
}

impl Global {
    /// A fresh protocol state: epoch zero, no participants, no garbage.
    pub fn new() -> (r: Global)
        ensures
            r@.epoch == 0,
            r@.threads == Seq::<Thread>::empty(),
            r@.queue == Seq::<BagV>::empty(),
            r@.disposed == Seq::<u64>::empty(),
            inv(r@),
    {
        let r = Global {
            epoch: 0,
            threads: Vec::new(),
            garbage: GarbageQueue::new(),
            disposed: Vec::new(),
        };
        proof {
            assert forall|id: u64| #[trigger] id_count(r@.threads, id) <= 1 by {
                assert(id_count(r@.threads, id) == 0);
            }
        }
        r
    }
}

/// A thread's own bookkeeping: its registry identity, whether it is
/// currently pinned, how often it has pinned, and the bag buffering its
/// retired objects until the next hand-off.
pub struct Harness {
    /// The id of this thread's registry entry.
    pub id: u64,
    /// Whether this thread is currently pinned.
    pub is_pinned: bool,
    /// Total number of pinnings performed, wrapping.
    pub pin_count: u64,
    /// The local bag of retired objects.
    pub bag: Bag,
}

/// A witness that the thread named in it is pinned.
///
/// A `Pin` is handed out by [`pin`] and given back to [`unpin`]; while it
/// is alive, any pointer value loaded from an atomic cell stays
/// dereferenceable, because the epoch cannot move far enough for the
/// object's disposal to run.  `entered` records whether this witness is
/// the one that actually pinned the thread, or a reentrant reuse of an
/// already pinned scope.
#[derive(Clone, Copy, PartialEq, Eq, Structural)]
pub struct Pin {
    /// The pinned thread's registry id.
    pub id: u64,
    /// The global epoch observed when the pin was taken.
    pub epoch: u64,
    /// Whether this witness introduced the pinned state (as opposed to
    /// reusing an enclosing pinned scope).
    pub entered: bool,
}

/// A harness that matches the shared state: its entry is present and not
/// deleted, the entry's pinned bit agrees with the harness's own flag, and
/// the local bag is within capacity.
pub open spec fn valid_harness(s: GlobalV, h: Harness) -> bool {
    &&& find_thread(s.threads, h.id) >= 0
    &&& !s.threads[find_thread(s.threads, h.id)].deleted
    &&& is_pinned_state(s.threads[find_thread(s.threads, h.id)].state) == h.is_pinned
    &&& h.bag.wf()
}

/// The pin counter after one more pinning: plus one, wrapping.
pub open spec fn next_count(c: u64) -> u64 {
    if c < u64::MAX {
        (c + 1) as u64
    } else {
        0
    }
}

/// Linear scan for the registry entry with the given id.
fn find_index(threads: &Vec<Thread>, id: u64) -> (r: Option<usize>)
    ensures
        match r {
            Some(i) => find_thread(threads@, id) == i as int && i < threads@.len(),
            None => find_thread(threads@, id) == -1,
        },
{
    let n = threads.len();
    let mut i: usize = 0;
    while i < n
        invariant
            i <= n,
            n == threads@.len(),
            forall|j: int| 0 <= j < i ==> threads@[j].id != id,
        decreases n - i,
    {
        if threads[i].id == id {
            proof {
                lemma_find_thread_is(threads@, id, i as int);
            }
            return Some(i);
        }
        i = i + 1;
    }
    proof {
        lemma_find_thread_is(threads@, id, threads@.len() as int);
    }
    None
}

/// Register a new participant: its entry is prepended to the registry by
/// the lock-free push on the list head, and the thread gets its harness,
/// unpinned and with an empty bag.
pub fn register(g: &mut Global, id: u64) -> (h: Harness)
    requires
        !has_thread(old(g)@.threads, id),
    ensures
        final(g)@ == m_register(old(g)@, id),
        h.id == id,
        !h.is_pinned,
        h.pin_count == 0,
        h.bag.objects@ == Seq::<u64>::empty(),
        h.bag.wf(),
        valid_harness(final(g)@, h),
        inv(old(g)@) ==> inv(final(g)@),
    {
    let ghost s0 = old(g)@;
    let entry = Thread { id, state: 0, deleted: false };
    insert_front(&mut g.threads, entry);
    proof {
        assert(g@.threads =~= seq![entry] + s0.threads);
        assert(g@ =~= m_register(s0, id));
        lemma_unpinned_state();
        lemma_find_thread_is(g@.threads, id, 0);
        if inv(s0) {
            lemma_register_inv(s0, id);
        }
    }
    Harness { id, is_pinned: false, pin_count: 0, bag: Bag::new() }
}

/// Prepend an entry to the registry vector.
fn insert_front(threads: &mut Vec<Thread>, t: Thread)
    ensures
        final(threads)@ == seq![t] + old(threads)@,
{
    threads.insert(0, t);
    proof {
        assert(threads@ =~= seq![t] + old(threads)@);
    }
}

/// Attempt to advance the global epoch.
///
/// The registry is scanned from the head: logically deleted entries are
/// unlinked and their ids retired as one bag stamped with the current
/// epoch; a live entry pinned at a different epoch aborts the scan.  Only
/// when the scan reaches the end is the epoch advanced, by one step of
/// two.  In a fully lock-free registry a scan that loses an unlink race
/// would abandon the rest of the walk to the winning thread; among the
/// model's atomic steps that race has no counterpart.
pub fn try_advance(g: &mut Global)
    ensures
        final(g)@ == m_try_advance(old(g)@),
        inv(old(g)@) ==> inv(final(g)@),
{
    proof {
        if inv(old(g)@) {
            lemma_try_advance_inv(old(g)@);
        }
    }
    let ghost s0 = old(g)@;
    let e = g.epoch;
    let n = g.threads.len();
    let mut kept: Vec<Thread> = Vec::new();
    let mut dead: Vec<u64> = Vec::new();
    let mut i: usize = 0;
    let mut aborted = false;
    proof {
        assert(s0.threads.take(0) =~= Seq::<Thread>::empty());
    }
    while i < n && !aborted
        invariant
            n == g.threads@.len(),
            e == g.epoch,
            g@ == s0,
            i <= n,
            forall|j: int| 0 <= j < i ==> !is_stale(#[trigger] s0.threads[j], e),
            kept@ == survivors(s0.threads.take(i as int)),
            dead@ == unlinked_ids(s0.threads.take(i as int)),
            aborted ==> i < n && is_stale(s0.threads[i as int], e),
        decreases n - i + if aborted {
            0int
        } else {
            1int
        },
    {
        let t = g.threads[i];
        proof {
            assert(s0.threads.take(i + 1) =~= s0.threads.take(i as int).push(t));
            lemma_survivors_push(s0.threads.take(i as int), t);
            lemma_unlinked_ids_push(s0.threads.take(i as int), t);
        }
        if t.deleted {
            dead.push(t.id);
            i = i + 1;
        } else if read_pinned_flag(t.state) && read_state_epoch(t.state) != e {
            aborted = true;
        } else {
            kept.push(t);
            i = i + 1;
        }
    }
    proof {
        lemma_scan_stop_is(s0.threads, e, i as int);
        assert(scan_stop(s0.threads, s0.epoch) == i as int);
    }
    let ghost k = i as int;
    let mut j: usize = i;
    proof {
        assert(s0.threads.subrange(k, k) =~= Seq::<Thread>::empty());
        assert(kept@ =~= survivors(s0.threads.take(k)) + s0.threads.subrange(k, k));
    }
    while j < n
        invariant
            n == g.threads@.len(),
            g@ == s0,
            0 <= k <= j as int <= n,
            kept@ == survivors(s0.threads.take(k)) + s0.threads.subrange(k, j as int),
        decreases n - j,
    {
        let t = g.threads[j];
        kept.push(t);
        proof {
            assert(s0.threads.subrange(k, j + 1) =~= s0.threads.subrange(k, j as int).push(t));
            assert(kept@ =~= survivors(s0.threads.take(k)) + s0.threads.subrange(k, j + 1));
        }
        j = j + 1;
    }
    proof {
        assert(s0.threads.subrange(k, n as int) =~= s0.threads.skip(k));
    }
    g.threads = kept;
    if dead.len() > 0 {
        g.garbage.push(dead, e);
    }
    if !aborted {
        g.epoch = epoch_add2(e);
    }
    proof {
        assert(g@ =~= m_try_advance(s0));
    }
}

/// Run one collection pass over the global queue at the current epoch.
pub fn collect(g: &mut Global)
    ensures
        final(g)@ == m_collect(old(g)@),
        inv(old(g)@) ==> inv(final(g)@),
{
    proof {
        if inv(old(g)@) {
            lemma_collect_inv(old(g)@);
        }
    }
    let e = g.epoch;
    g.garbage.collect(e, &mut g.disposed);
    proof {
        assert(g@ =~= m_collect(old(g)@));
    }
}

/// Pin the current thread.
///
/// A thread that is not yet pinned announces "pinned at the current
/// epoch" in its registry entry and counts the pinning; every
/// `PINS_BETWEEN_COLLECT`-th pinning additionally attempts an epoch
/// advance followed by a collection pass.  Pinning is reentrant: on an
/// already pinned thread nothing changes and the returned witness merely
/// borrows the enclosing scope.
pub fn pin(g: &mut Global, h: &mut Harness) -> (p: Pin)
    requires
        inv(old(g)@),
        valid_harness(old(g)@, *old(h)),
    ensures
        inv(final(g)@),
        valid_harness(final(g)@, *final(h)),
        final(h).id == old(h).id,
        final(h).is_pinned,
        final(h).bag.objects@ == old(h).bag.objects@,
        p.id == old(h).id,
        p.epoch == old(g)@.epoch,
        p.entered == !old(h).is_pinned,
        old(h).is_pinned ==> final(g)@ == old(g)@ && final(h).pin_count == old(h).pin_count,
        !old(h).is_pinned ==> {
            &&& final(h).pin_count == next_count(old(h).pin_count)
            &&& final(g)@ == if next_count(old(h).pin_count) % PINS_BETWEEN_COLLECT == 0 {
                m_collect(m_try_advance(m_pin_thread(old(g)@, old(h).id)))
            } else {
                m_pin_thread(old(g)@, old(h).id)
            }
        },
{
    let ghost s0 = old(g)@;
    if h.is_pinned {
        return Pin { id: h.id, epoch: g.epoch, entered: false };
    }
    let idx: usize;
    match find_index(&g.threads, h.id) {
        Some(i) => {
            idx = i;
        },
        None => {
            proof {
                assert(false);
            }
            idx = 0;
        },
    }
    let e = g.epoch;
    let w = make_pinned_state(e);
    let t = g.threads[idx];
    g.threads[idx] = Thread { id: t.id, state: w, deleted: t.deleted };
    let ghost s1 = m_pin_thread(s0, h.id);
    proof {
        assert(g@.threads =~= s0.threads.update(idx as int, Thread { state: w, ..t }));
        assert(g@ =~= s1);
        lemma_pin_thread_inv(s0, h.id);
        lemma_find_thread(s0.threads, h.id);
        lemma_find_after_update(s0.threads, h.id, Thread { state: w, ..t });
        lemma_pinned_state(e);
    }
    h.is_pinned = true;
    let c = if h.pin_count < u64::MAX {
        h.pin_count + 1
    } else {
        0
    };
    h.pin_count = c;
    if c % PINS_BETWEEN_COLLECT == 0 {
        proof {
            lemma_advance_keeps_entry(s1, h.id);
            lemma_try_advance_inv(s1);
            lemma_collect_inv(m_try_advance(s1));
        }
        try_advance(g);
        collect(g);
    }
    Pin { id: h.id, epoch: e, entered: true }
}

/// End a pinned scope.
///
/// If the witness is the one that pinned the thread, the thread's entry
/// is cleared again; a witness that merely reused an enclosing scope
/// changes nothing.  Unpinning on every exit path is what keeps a single
/// thread from stalling epoch advancement for everyone.
pub fn unpin(g: &mut Global, h: &mut Harness, p: Pin)
    requires
        inv(old(g)@),
        valid_harness(old(g)@, *old(h)),
        p.id == old(h).id,
        p.entered ==> old(h).is_pinned,
    ensures
        inv(final(g)@),
        valid_harness(final(g)@, *final(h)),
        final(h).id == old(h).id,
        final(h).pin_count == old(h).pin_count,
        final(h).bag.objects@ == old(h).bag.objects@,
        final(h).is_pinned == (old(h).is_pinned && !p.entered),
        p.entered ==> final(g)@ == m_unpin_thread(old(g)@, old(h).id),
        !p.entered ==> final(g)@ == old(g)@,
{
    let ghost s0 = old(g)@;
    if p.entered {
        let idx: usize;
        match find_index(&g.threads, h.id) {
            Some(i) => {
                idx = i;
            },
            None => {
                proof {
                    assert(false);
                }
                idx = 0;
            },
        }
        let t = g.threads[idx];
        g.threads[idx] = Thread { id: t.id, state: 0, deleted: t.deleted };
        h.is_pinned = false;
        proof {
            assert(g@.threads =~= s0.threads.update(idx as int, Thread { state: 0, ..t }));
            assert(g@ =~= m_unpin_thread(s0, h.id));
            lemma_unpin_thread_inv(s0, h.id);
            lemma_find_thread(s0.threads, h.id);
            lemma_find_after_update(s0.threads, h.id, Thread { state: 0, ..t });
            lemma_unpinned_state();
        }
    }
}

/// Retire an object: stash its handle in the calling thread's bag, to be
/// disposed of once the epoch has moved a generation past now.
///
/// When the bag is already full it is sealed first: an epoch advance and
/// a collection pass are attempted, the full bag is stamped with the then
/// current epoch and handed to the global queue, and the object starts
/// the fresh bag.
pub fn defer_free(obj: u64, pin: &Pin, g: &mut Global, h: &mut Harness)
    requires
        inv(old(g)@),
        valid_harness(old(g)@, *old(h)),
        pin.id == old(h).id,
        old(h).is_pinned,
    ensures
        inv(final(g)@),
        valid_harness(final(g)@, *final(h)),
        final(h).id == old(h).id,
        final(h).is_pinned,
        final(h).pin_count == old(h).pin_count,
        old(h).bag.objects@.len() < BAG_CAPACITY ==> {
            &&& final(h).bag.objects@ == old(h).bag.objects@.push(obj)
            &&& final(g)@ == old(g)@
        },
        old(h).bag.objects@.len() >= BAG_CAPACITY ==> {
            &&& final(h).bag.objects@ == seq![obj]
            &&& final(g)@ == m_push(m_collect(m_try_advance(old(g)@)), old(h).bag.objects@)
        },
{
    let ghost s0 = old(g)@;
    let inserted = h.bag.try_insert(obj);
    if !inserted {
        let mut sealed = Bag::new();
        core::mem::swap(&mut h.bag, &mut sealed);
        proof {
            lemma_advance_keeps_entry(s0, h.id);
            lemma_try_advance_inv(s0);
            lemma_collect_inv(m_try_advance(s0));
            lemma_push_inv(m_collect(m_try_advance(s0)), sealed.objects@);
        }
        try_advance(g);
        collect(g);
        let e = g.epoch;
        g.garbage.push(sealed.objects, e);
        proof {
            assert(g@ =~= m_push(m_collect(m_try_advance(s0)), old(h).bag.objects@));
        }
        let ok = h.bag.try_insert(obj);
        proof {
            assert(ok);
            assert(h.bag.objects@ =~= seq![obj]);
        }
    }
}

/// Tear a thread down on exit.
///
/// The thread pins itself one last time (the hand-off below needs the
/// shared state), attempts an advance and a collection pass as a
/// courtesy, hands its still-buffered bag to the global queue, unpins,
/// and only then marks its own entry deleted -- unregistering earlier
/// would let a concurrent collection pass skip this thread's garbage.
pub fn thread_exit(g: &mut Global, h: Harness)
    requires
        inv(old(g)@),
        valid_harness(old(g)@, h),
        !h.is_pinned,
    ensures
        inv(final(g)@),
        final(g)@ == m_unregister(
            m_unpin_thread(
                m_push(m_collect(m_try_advance(m_pin_thread(old(g)@, h.id))), h.bag.objects@),
                h.id,
            ),
            h.id,
        ),
{
    let ghost s0 = old(g)@;
    let id = h.id;
    // pin manually: the normal entry point is not available to a thread
    // that is already tearing its own bookkeeping down
    let idx: usize;
    match find_index(&g.threads, id) {
        Some(i) => {
            idx = i;
        },
        None => {
            proof {
                assert(false);
            }
            idx = 0;
        },
    }
    let e = g.epoch;
    let w = make_pinned_state(e);
    let t = g.threads[idx];
    g.threads[idx] = Thread { id: t.id, state: w, deleted: t.deleted };
    let ghost s1 = m_pin_thread(s0, id);
    proof {
        assert(g@.threads =~= s0.threads.update(idx as int, Thread { state: w, ..t }));
        assert(g@ =~= s1);
        lemma_pin_thread_inv(s0, id);
        lemma_find_thread(s0.threads, id);
        lemma_find_after_update(s0.threads, id, Thread { state: w, ..t });
        lemma_advance_keeps_entry(s1, id);
        lemma_try_advance_inv(s1);
        lemma_collect_inv(m_try_advance(s1));
    }
    try_advance(g);
    collect(g);
    let ghost s3 = m_collect(m_try_advance(s1));
    let e2 = g.epoch;
    g.garbage.push(h.bag.objects, e2);
    let ghost s4 = m_push(s3, h.bag.objects@);
    proof {
        assert(g@ =~= s4);
        lemma_push_inv(s3, h.bag.objects@);
        assert(s4.threads == m_try_advance(s1).threads);
        assert(has_thread(s4.threads, id));
        lemma_find_thread(s4.threads, id);
    }
    // unpin manually
    let idx2: usize;
    match find_index(&g.threads, id) {
        Some(i) => {
            idx2 = i;
        },
        None => {
            proof {
                assert(false);
            }
            idx2 = 0;
        },
    }
    let t2 = g.threads[idx2];
    g.threads[idx2] = Thread { id: t2.id, state: 0, deleted: t2.deleted };
    let ghost s5 = m_unpin_thread(s4, id);
    proof {
        assert(g@.threads =~= s4.threads.update(idx2 as int, Thread { state: 0, ..t2 }));
        assert(g@ =~= s5);
        lemma_unpin_thread_inv(s4, id);
        lemma_find_after_update(s4.threads, id, Thread { state: 0, ..t2 });
    }
    // mark the entry deleted; a later advance scan unlinks and retires it
    let idx3: usize;
    match find_index(&g.threads, id) {
        Some(i) => {
            idx3 = i;
        },
        None => {
            proof {
                assert(false);
            }
            idx3 = 0;
        },
    }
    let t3 = g.threads[idx3];
    g.threads[idx3] = Thread { id: t3.id, state: t3.state, deleted: true };
    proof {
        assert(g@.threads =~= s5.threads.update(idx3 as int, Thread { deleted: true, ..t3 }));
        assert(g@ =~= m_unregister(s5, id));
        lemma_unregister_inv(s5, id);
    }
}

} // verus!
