//! The mathematical model of the protocol state and its transitions.
//!
//! Every executable operation on [`crate::thread::Global`] promises in its
//! contract to take the state's view to the result of one of the spec
//! transition functions below (or a composition of them).  The safety
//! arguments in [`crate::laws`] are then proved purely over these
//! functions, for arbitrary sequences of transitions.

use vstd::prelude::*;
use crate::epoch::{is_pinned_state, next_epoch, pinned_state, state_epoch};
use crate::garbage::{bag_objects, drain_count, BagV};
use crate::thread::Thread;

verus! {

/// The state of the whole engine: global epoch, registry (newest entry
/// first), the queue of retired bags (oldest first) and the record of
/// disposals that have run.
#[verifier::ext_equal]
pub struct GlobalV {
    pub epoch: u64,
    pub threads: Seq<Thread>,
    pub queue: Seq<BagV>,
    pub disposed: Seq<u64>,
}

/// Index of the entry with the given id, or -1 when there is none.
pub open spec fn find_thread(ts: Seq<Thread>, id: u64) -> int
    decreases ts.len(),
{
    if ts.len() == 0 {
        -1
    } else if ts[0].id == id {
        0
    } else {
        let r = find_thread(ts.drop_first(), id);
        if r < 0 {
            -1
        } else {
            1 + r
        }
    }
}

/// Whether some entry carries the given id.
pub open spec fn has_thread(ts: Seq<Thread>, id: u64) -> bool {
    find_thread(ts, id) >= 0
}

/// `find_thread` returns the first index bearing the id, or -1 when no
/// index does.
pub proof fn lemma_find_thread(ts: Seq<Thread>, id: u64)
    ensures
        find_thread(ts, id) >= 0 ==> {
            &&& find_thread(ts, id) < ts.len()
            &&& ts[find_thread(ts, id)].id == id
            &&& forall|i: int| 0 <= i < find_thread(ts, id) ==> ts[i].id != id
        },
        find_thread(ts, id) < 0 ==> forall|i: int| 0 <= i < ts.len() ==> ts[i].id != id,
    decreases ts.len(),
{
    if ts.len() > 0 && ts[0].id != id {
        lemma_find_thread(ts.drop_first(), id);
        let r = find_thread(ts.drop_first(), id);
        if r >= 0 {
            assert forall|i: int| 0 <= i < 1 + r implies ts[i].id != id by {
                if i > 0 {
                    assert(ts.drop_first()[i - 1] == ts[i]);
                }
            }
        } else {
            assert forall|i: int| 0 <= i < ts.len() implies ts[i].id != id by {
                if i > 0 {
                    assert(ts.drop_first()[i - 1] == ts[i]);
                }
            }
        }
    }
}

/// A position whose prefix is clean of the id pins `find_thread` down.
pub proof fn lemma_find_thread_is(ts: Seq<Thread>, id: u64, n: int)
    requires
        0 <= n <= ts.len(),
        forall|i: int| 0 <= i < n ==> ts[i].id != id,
        n < ts.len() ==> ts[n].id == id,
        n == ts.len() ==> forall|i: int| 0 <= i < ts.len() ==> ts[i].id != id,
    ensures
        n < ts.len() ==> find_thread(ts, id) == n,
        n == ts.len() ==> find_thread(ts, id) == -1,
    decreases ts.len(),
{
    if ts.len() > 0 {
        if ts[0].id == id {
        } else {
            assert forall|i: int| 0 <= i < n - 1 implies ts.drop_first()[i].id != id by {
                assert(ts.drop_first()[i] == ts[i + 1]);
            }
            if n < ts.len() {
                assert(ts.drop_first()[n - 1] == ts[n]);
            } else {
                assert forall|i: int| 0 <= i < ts.drop_first().len()
                    implies ts.drop_first()[i].id != id by {
                    assert(ts.drop_first()[i] == ts[i + 1]);
                }
            }
            lemma_find_thread_is(ts.drop_first(), id, n - 1);
        }
    }
}

/// A registered thread entering the registry: prepended, unpinned, not
/// deleted.  Registering an id that is already present changes nothing.
pub open spec fn m_register(s: GlobalV, id: u64) -> GlobalV {
    if has_thread(s.threads, id) {
        s
    } else {
        GlobalV {
            threads: seq![Thread { id, state: 0, deleted: false }] + s.threads,
            ..s
        }
    }
}

/// The thread with the given id announces "pinned at the current epoch" in
/// its state word.  Pinning an absent or already pinned entry changes
/// nothing (pinning is reentrant).
pub open spec fn m_pin_thread(s: GlobalV, id: u64) -> GlobalV {
    let i = find_thread(s.threads, id);
    if i < 0 || is_pinned_state(s.threads[i].state) {
        s
    } else {
        GlobalV {
            threads: s.threads.update(
                i,
                Thread { state: pinned_state(s.epoch), ..s.threads[i] },
            ),
            ..s
        }
    }
}

/// The thread with the given id clears its state word entirely.
pub open spec fn m_unpin_thread(s: GlobalV, id: u64) -> GlobalV {
    let i = find_thread(s.threads, id);
    if i < 0 {
        s
    } else {
        GlobalV { threads: s.threads.update(i, Thread { state: 0, ..s.threads[i] }), ..s }
    }
}

/// The thread with the given id marks its own entry as logically deleted;
/// the entry stays in the registry until an advance scan unlinks it.
pub open spec fn m_unregister(s: GlobalV, id: u64) -> GlobalV {
    let i = find_thread(s.threads, id);
    if i < 0 {
        s
    } else {
        GlobalV { threads: s.threads.update(i, Thread { deleted: true, ..s.threads[i] }), ..s }
    }
}

/// An entry that blocks an epoch advance: live, pinned, but at some other
/// epoch than the current one.
pub open spec fn is_stale(t: Thread, e: u64) -> bool {
    !t.deleted && is_pinned_state(t.state) && state_epoch(t.state) != e
}

/// How far an advance scan gets: the index of the first stale entry, or
/// the registry's length when no entry is stale.
pub open spec fn scan_stop(ts: Seq<Thread>, e: u64) -> int
    decreases ts.len(),
{
    if ts.len() == 0 {
        0
    } else if is_stale(ts[0], e) {
        0
    } else {
        1 + scan_stop(ts.drop_first(), e)
    }
}

/// The entries of a scanned prefix that stay: the ones not logically
/// deleted.
pub open spec fn survivors(ts: Seq<Thread>) -> Seq<Thread>
    decreases ts.len(),
{
    if ts.len() == 0 {
        Seq::empty()
    } else if ts.last().deleted {
        survivors(ts.drop_last())
    } else {
        survivors(ts.drop_last()).push(ts.last())
    }
}

/// The ids of a scanned prefix's logically deleted entries, in registry
/// order: the entries an advance scan physically unlinks and retires.
pub open spec fn unlinked_ids(ts: Seq<Thread>) -> Seq<u64>
    decreases ts.len(),
{
    if ts.len() == 0 {
        Seq::empty()
    } else if ts.last().deleted {
        unlinked_ids(ts.drop_last()).push(ts.last().id)
    } else {
        unlinked_ids(ts.drop_last())
    }
}

/// One epoch-advance attempt.  The scan walks the registry from the head,
/// unlinking logically deleted entries as it goes, and gives up at the
/// first live entry pinned at a different epoch.  The unlinked entries are
/// retired as one bag stamped with the current epoch.  Only a scan that
/// reaches the end advances the epoch, by one step of two.
pub open spec fn m_try_advance(s: GlobalV) -> GlobalV {
    let k = scan_stop(s.threads, s.epoch);
    let dead = unlinked_ids(s.threads.take(k));
    GlobalV {
        epoch: if k == s.threads.len() {
            next_epoch(s.epoch)
        } else {
            s.epoch
        },
        threads: survivors(s.threads.take(k)) + s.threads.skip(k),
        queue: if dead.len() > 0 {
            s.queue.push(BagV { epoch: s.epoch, objects: dead })
        } else {
            s.queue
        },
        disposed: s.disposed,
    }
}

/// A bag of retired objects handed to the global queue, stamped with the
/// epoch observed at the hand-off.
pub open spec fn m_push(s: GlobalV, objects: Seq<u64>) -> GlobalV {
    GlobalV { queue: s.queue.push(BagV { epoch: s.epoch, objects }), ..s }
}

/// One collection pass: every bag old enough is drained in queue order and
/// its objects' disposal recorded; draining stops at the first bag that is
/// still too young.
pub open spec fn m_collect(s: GlobalV) -> GlobalV {
    let k = drain_count(s.queue, s.epoch);
    GlobalV {
        queue: s.queue.skip(k),
        disposed: s.disposed + bag_objects(s.queue.take(k)),
        ..s
    }
}

/// The scan stops exactly at the first stale entry.
pub proof fn lemma_scan_stop_bounds(ts: Seq<Thread>, e: u64)
    ensures
        0 <= scan_stop(ts, e) <= ts.len(),
        forall|i: int| 0 <= i < scan_stop(ts, e) ==> !is_stale(ts[i], e),
        scan_stop(ts, e) < ts.len() ==> is_stale(ts[scan_stop(ts, e)], e),
    decreases ts.len(),
{
    if ts.len() > 0 && !is_stale(ts[0], e) {
        lemma_scan_stop_bounds(ts.drop_first(), e);
        assert forall|i: int| 0 <= i < scan_stop(ts, e) implies !is_stale(ts[i], e) by {
            if i > 0 {
                assert(ts.drop_first()[i - 1] == ts[i]);
            }
        }
        if scan_stop(ts, e) < ts.len() {
            assert(ts.drop_first()[scan_stop(ts.drop_first(), e)] == ts[scan_stop(ts, e)]);
        }
    }
}

/// A position that is clean up to itself and stale at itself pins the scan
/// stop down.
pub proof fn lemma_scan_stop_is(ts: Seq<Thread>, e: u64, n: int)
    requires
        0 <= n <= ts.len(),
        forall|i: int| 0 <= i < n ==> !is_stale(ts[i], e),
        n < ts.len() ==> is_stale(ts[n], e),
    ensures
        scan_stop(ts, e) == n,
    decreases ts.len(),
{
    if ts.len() > 0 && !is_stale(ts[0], e) {
        assert(n >= 1);
        assert forall|i: int| 0 <= i < n - 1 implies !is_stale(ts.drop_first()[i], e) by {
            assert(ts.drop_first()[i] == ts[i + 1]);
        }
        assert(n - 1 < ts.drop_first().len() ==> is_stale(ts.drop_first()[n - 1], e));
        lemma_scan_stop_is(ts.drop_first(), e, n - 1);
    }
}

/// How many registry entries carry the given id.
pub open spec fn id_count(ts: Seq<Thread>, id: u64) -> int
    decreases ts.len(),
{
    if ts.len() == 0 {
        0
    } else {
        id_count(ts.drop_last(), id) + if ts.last().id == id {
            1int
        } else {
            0int
        }
    }
}

/// Counting distributes over concatenation.
pub proof fn lemma_id_count_concat(a: Seq<Thread>, b: Seq<Thread>, id: u64)
    ensures
        id_count(a + b, id) == id_count(a, id) + id_count(b, id),
    decreases b.len(),
{
    if b.len() == 0 {
        assert(a + b =~= a);
    } else {
        assert((a + b).drop_last() =~= a + b.drop_last());
        assert((a + b).last() == b.last());
        lemma_id_count_concat(a, b.drop_last(), id);
    }
}

/// A count is never negative.
pub proof fn lemma_id_count_nonneg(ts: Seq<Thread>, id: u64)
    ensures
        id_count(ts, id) >= 0,
    decreases ts.len(),
{
    if ts.len() > 0 {
        lemma_id_count_nonneg(ts.drop_last(), id);
    }
}

/// An entry at some index makes the count positive.
pub proof fn lemma_id_count_pos(ts: Seq<Thread>, i: int)
    requires
        0 <= i < ts.len(),
    ensures
        id_count(ts, ts[i].id) >= 1,
    decreases ts.len(),
{
    if i < ts.len() - 1 {
        assert(ts.drop_last()[i] == ts[i]);
        lemma_id_count_pos(ts.drop_last(), i);
    } else {
        lemma_id_count_nonneg(ts.drop_last(), ts[i].id);
    }
}

/// Two distinct indices with the same id make the count at least two.
pub proof fn lemma_id_count_two(ts: Seq<Thread>, i: int, j: int)
    requires
        0 <= i < j < ts.len(),
        ts[i].id == ts[j].id,
    ensures
        id_count(ts, ts[i].id) >= 2,
    decreases ts.len(),
{
    if j < ts.len() - 1 {
        assert(ts.drop_last()[i] == ts[i]);
        assert(ts.drop_last()[j] == ts[j]);
        lemma_id_count_two(ts.drop_last(), i, j);
    } else {
        assert(ts.drop_last()[i] == ts[i]);
        lemma_id_count_pos(ts.drop_last(), i);
    }
}

/// When no index carries the id, the count is zero.
pub proof fn lemma_id_count_zero(ts: Seq<Thread>, id: u64)
    requires
        forall|i: int| 0 <= i < ts.len() ==> ts[i].id != id,
    ensures
        id_count(ts, id) == 0,
    decreases ts.len(),
{
    if ts.len() > 0 {
        assert forall|i: int| 0 <= i < ts.drop_last().len()
            implies ts.drop_last()[i].id != id by {
            assert(ts.drop_last()[i] == ts[i]);
        }
        lemma_id_count_zero(ts.drop_last(), id);
    }
}

/// Replacing an entry by one with the same id leaves every count alone.
pub proof fn lemma_id_count_update(ts: Seq<Thread>, i: int, t: Thread, id: u64)
    requires
        0 <= i < ts.len(),
        t.id == ts[i].id,
    ensures
        id_count(ts.update(i, t), id) == id_count(ts, id),
    decreases ts.len(),
{
    if i < ts.len() - 1 {
        assert(ts.update(i, t).drop_last() =~= ts.drop_last().update(i, t));
        assert(ts.update(i, t).last() == ts.last());
        assert(ts.drop_last()[i] == ts[i]);
        lemma_id_count_update(ts.drop_last(), i, t, id);
    } else {
        assert(ts.update(i, t).drop_last() =~= ts.drop_last());
        assert(ts.update(i, t).last() == t);
    }
}

/// The survivors of a prefix are exactly its entries that are not deleted,
/// and surviving never raises an id's count.
pub proof fn lemma_survivors_elems(ts: Seq<Thread>)
    ensures
        forall|x: Thread| #[trigger] survivors(ts).contains(x) ==> ts.contains(x) && !x.deleted,
        forall|x: Thread| ts.contains(x) && !x.deleted ==> #[trigger] survivors(ts).contains(x),
        forall|id: u64| #[trigger] id_count(survivors(ts), id) <= id_count(ts, id),
    decreases ts.len(),
{
    if ts.len() > 0 {
        lemma_survivors_elems(ts.drop_last());
        assert forall|x: Thread| ts.contains(x) && !x.deleted
            implies #[trigger] survivors(ts).contains(x) by {
            let i = choose|i: int| 0 <= i < ts.len() && ts[i] == x;
            if i < ts.len() - 1 {
                assert(ts.drop_last()[i] == x);
                assert(ts.drop_last().contains(x));
                assert(survivors(ts.drop_last()).contains(x));
                if !ts.last().deleted {
                    assert(survivors(ts) == survivors(ts.drop_last()).push(ts.last()));
                    let j = choose|j: int|
                        0 <= j < survivors(ts.drop_last()).len() && survivors(ts.drop_last())[j]
                            == x;
                    assert(survivors(ts)[j] == x);
                }
            } else {
                assert(ts.last() == x);
                assert(survivors(ts) == survivors(ts.drop_last()).push(x));
                assert(survivors(ts)[survivors(ts).len() - 1] == x);
            }
        }
        assert forall|x: Thread| #[trigger] survivors(ts).contains(x)
            implies ts.contains(x) && !x.deleted by {
            if ts.last().deleted {
                assert(survivors(ts.drop_last()).contains(x));
                assert(ts.drop_last().contains(x) && !x.deleted);
                let i = choose|i: int|
                    0 <= i < ts.drop_last().len() && ts.drop_last()[i] == x;
                assert(ts[i] == x);
            } else {
                let s = survivors(ts.drop_last());
                let j = choose|j: int|
                    0 <= j < survivors(ts).len() && survivors(ts)[j] == x;
                if j < s.len() {
                    assert(s[j] == x);
                    assert(s.contains(x));
                    assert(ts.drop_last().contains(x));
                    let i = choose|i: int|
                        0 <= i < ts.drop_last().len() && ts.drop_last()[i] == x;
                    assert(ts[i] == x);
                } else {
                    assert(x == ts.last());
                    assert(ts[ts.len() - 1] == x);
                }
            }
        }
        assert forall|id: u64| #[trigger] id_count(survivors(ts), id) <= id_count(ts, id) by {
            assert(id_count(survivors(ts.drop_last()), id) <= id_count(ts.drop_last(), id));
            if !ts.last().deleted {
                assert(survivors(ts).drop_last() =~= survivors(ts.drop_last()));
                assert(survivors(ts).last() == ts.last());
            }
        }
    }
}

/// Appending an entry extends the survivors at the back.
pub proof fn lemma_survivors_push(ts: Seq<Thread>, t: Thread)
    ensures
        survivors(ts.push(t)) == if t.deleted {
            survivors(ts)
        } else {
            survivors(ts).push(t)
        },
{
    assert(ts.push(t).last() == t);
    assert(ts.push(t).drop_last() =~= ts);
}

/// A prefix without deleted entries has nothing to unlink.
pub proof fn lemma_unlinked_empty(ts: Seq<Thread>)
    requires
        forall|i: int| 0 <= i < ts.len() ==> !(#[trigger] ts[i]).deleted,
    ensures
        unlinked_ids(ts).len() == 0,
    decreases ts.len(),
{
    if ts.len() > 0 {
        assert(!ts[ts.len() - 1].deleted);
        assert forall|i: int| 0 <= i < ts.drop_last().len()
            implies !(#[trigger] ts.drop_last()[i]).deleted by {
            assert(ts.drop_last()[i] == ts[i]);
        }
        lemma_unlinked_empty(ts.drop_last());
    }
}

/// Every unlinked id names a deleted entry of the scanned prefix.
pub proof fn lemma_unlinked_elems(ts: Seq<Thread>)
    ensures
        forall|x: u64| #[trigger]
            unlinked_ids(ts).contains(x) ==> exists|i: int|
                0 <= i < ts.len() && (#[trigger] ts[i]).id == x && ts[i].deleted,
    decreases ts.len(),
{
    if ts.len() > 0 {
        lemma_unlinked_elems(ts.drop_last());
        assert forall|x: u64| #[trigger] unlinked_ids(ts).contains(x) implies exists|i: int|
            0 <= i < ts.len() && (#[trigger] ts[i]).id == x && ts[i].deleted by {
            if ts.last().deleted && x == ts.last().id {
                assert(ts[ts.len() - 1].id == x && ts[ts.len() - 1].deleted);
            } else {
                if ts.last().deleted {
                    let prev = unlinked_ids(ts.drop_last());
                    let j = choose|j: int|
                        0 <= j < unlinked_ids(ts).len() && unlinked_ids(ts)[j] == x;
                    if j < prev.len() {
                        assert(prev[j] == x);
                        assert(prev.contains(x));
                    } else {
                        assert(x == ts.last().id);
                    }
                } else {
                    assert(unlinked_ids(ts.drop_last()).contains(x));
                }
                assert(unlinked_ids(ts.drop_last()).contains(x));
                let i = choose|i: int|
                    0 <= i < ts.drop_last().len() && (#[trigger] ts.drop_last()[i]).id == x
                        && ts.drop_last()[i].deleted;
                assert(ts[i].id == x && ts[i].deleted);
            }
        }
    }
}

/// How many times an id occurs in a run of unlinked ids.
pub open spec fn u64_count(xs: Seq<u64>, x: u64) -> int
    decreases xs.len(),
{
    if xs.len() == 0 {
        0
    } else {
        u64_count(xs.drop_last(), x) + if xs.last() == x {
            1int
        } else {
            0int
        }
    }
}

/// Unlinking an id consumes a deleted entry: the unlinked run never names
/// an id more often than the registry holds it.
pub proof fn lemma_unlinked_count(ts: Seq<Thread>, x: u64)
    ensures
        u64_count(unlinked_ids(ts), x) <= id_count(ts, x),
    decreases ts.len(),
{
    if ts.len() > 0 {
        lemma_unlinked_count(ts.drop_last(), x);
        if ts.last().deleted {
            assert(unlinked_ids(ts).drop_last() =~= unlinked_ids(ts.drop_last()));
            assert(unlinked_ids(ts).last() == ts.last().id);
        }
    }
}

/// Appending an entry extends the unlinked ids at the back.
pub proof fn lemma_unlinked_ids_push(ts: Seq<Thread>, t: Thread)
    ensures
        unlinked_ids(ts.push(t)) == if t.deleted {
            unlinked_ids(ts).push(t.id)
        } else {
            unlinked_ids(ts)
        },
{
    assert(ts.push(t).last() == t);
    assert(ts.push(t).drop_last() =~= ts);
}

} // verus!
