//! The protocol's invariant and its safety arguments.
//!
//! Everything here is stated over the spec model in [`crate::model`]:
//! since every executable operation promises to take the state to a model
//! transition, facts proved about arbitrary sequences of transitions hold
//! of every interleaving of the operations.

use vstd::prelude::*;
use crate::epoch::{
    epoch_distance, is_pinned_state, lemma_pinned_state, lemma_unpinned_state, next_epoch,
    pinned_state, state_epoch,
};
use crate::garbage::{
    bag_objects, collectable, drain_count, lemma_drain_count_bounds, BagV,
};
use crate::model::{
    find_thread, has_thread, id_count, is_stale, lemma_find_thread, lemma_find_thread_is,
    lemma_id_count_concat, lemma_id_count_nonneg, lemma_id_count_two,
    lemma_id_count_update, lemma_id_count_zero, lemma_scan_stop_bounds,
    lemma_survivors_elems, lemma_unlinked_count, lemma_unlinked_elems, lemma_unlinked_empty,
    m_collect, m_pin_thread, m_push, m_register, m_try_advance, m_unpin_thread, m_unregister,
    scan_stop, survivors, u64_count, unlinked_ids, GlobalV,
};
use crate::thread::Thread;

verus! {

broadcast use vstd::seq_lib::group_seq_properties;

/// A registry entry consistent with global epoch `e`: either fully
/// cleared, or pinned at an even epoch that is the current one or the one
/// directly before it.
pub open spec fn entry_ok(t: Thread, e: u64) -> bool {
    t.state == 0 || {
        &&& is_pinned_state(t.state)
        &&& state_epoch(t.state) % 2 == 0
        &&& (state_epoch(t.state) == e || next_epoch(state_epoch(t.state)) == e)
    }
}

/// The protocol invariant: the global epoch is even, no id occurs twice in
/// the registry, and every entry's state word is consistent with the
/// global epoch.  Every transition preserves it.
pub open spec fn inv(s: GlobalV) -> bool {
    &&& s.epoch % 2 == 0
    &&& forall|id: u64| #[trigger] id_count(s.threads, id) <= 1
    &&& forall|i: int| 0 <= i < s.threads.len() ==> entry_ok(#[trigger] s.threads[i], s.epoch)
}

/// Registration preserves the invariant.
pub proof fn lemma_register_inv(s: GlobalV, id: u64)
    requires
        inv(s),
    ensures
        inv(m_register(s, id)),
{
    if !has_thread(s.threads, id) {
        let t0 = Thread { id, state: 0, deleted: false };
        let ts = seq![t0] + s.threads;
        lemma_find_thread(s.threads, id);
        lemma_id_count_zero(s.threads, id);
        assert forall|x: u64| #[trigger] id_count(ts, x) <= 1 by {
            lemma_id_count_concat(seq![t0], s.threads, x);
            assert(seq![t0].drop_last() =~= Seq::<Thread>::empty());
            assert(seq![t0].last() == t0);
            assert(id_count(Seq::<Thread>::empty(), x) == 0);
            assert(id_count(seq![t0], x) == if t0.id == x { 1int } else { 0int });
            assert(id_count(s.threads, x) <= 1);
        }
        assert forall|i: int| 0 <= i < ts.len() implies entry_ok(#[trigger] ts[i], s.epoch) by {
            if i > 0 {
                assert(ts[i] == s.threads[i - 1]);
            }
        }
    }
}

/// `find_thread` is unmoved by an update that keeps the entry's id.
pub proof fn lemma_find_after_update(ts: Seq<Thread>, id: u64, t: Thread)
    requires
        find_thread(ts, id) >= 0,
        t.id == id,
        ts[find_thread(ts, id)].id == id,
    ensures
        find_thread(ts.update(find_thread(ts, id), t), id) == find_thread(ts, id),
{
    let i = find_thread(ts, id);
    lemma_find_thread(ts, id);
    let ts2 = ts.update(i, t);
    assert forall|j: int| 0 <= j < i implies ts2[j].id != id by {
        assert(ts2[j] == ts[j]);
    }
    lemma_find_thread_is(ts2, id, i);
}

/// Announcing "pinned at the current epoch" preserves the invariant.
pub proof fn lemma_pin_thread_inv(s: GlobalV, id: u64)
    requires
        inv(s),
    ensures
        inv(m_pin_thread(s, id)),
{
    let i = find_thread(s.threads, id);
    if i >= 0 && !is_pinned_state(s.threads[i].state) {
        lemma_find_thread(s.threads, id);
        let t = Thread { state: pinned_state(s.epoch), ..s.threads[i] };
        let ts = s.threads.update(i, t);
        lemma_pinned_state(s.epoch);
        assert forall|x: u64| #[trigger] id_count(ts, x) <= 1 by {
            lemma_id_count_update(s.threads, i, t, x);
        }
        assert forall|j: int| 0 <= j < ts.len() implies entry_ok(#[trigger] ts[j], s.epoch) by {
            if j != i {
                assert(ts[j] == s.threads[j]);
            } else {
                assert(state_epoch(t.state) == s.epoch);
            }
        }
    }
}

/// Clearing the state word preserves the invariant.
pub proof fn lemma_unpin_thread_inv(s: GlobalV, id: u64)
    requires
        inv(s),
    ensures
        inv(m_unpin_thread(s, id)),
{
    let i = find_thread(s.threads, id);
    if i >= 0 {
        lemma_find_thread(s.threads, id);
        let t = Thread { state: 0, ..s.threads[i] };
        let ts = s.threads.update(i, t);
        assert forall|x: u64| #[trigger] id_count(ts, x) <= 1 by {
            lemma_id_count_update(s.threads, i, t, x);
        }
        assert forall|j: int| 0 <= j < ts.len() implies entry_ok(#[trigger] ts[j], s.epoch) by {
            if j != i {
                assert(ts[j] == s.threads[j]);
            }
        }
    }
}

/// Marking one's own entry deleted preserves the invariant.
pub proof fn lemma_unregister_inv(s: GlobalV, id: u64)
    requires
        inv(s),
    ensures
        inv(m_unregister(s, id)),
{
    let i = find_thread(s.threads, id);
    if i >= 0 {
        lemma_find_thread(s.threads, id);
        let t = Thread { deleted: true, ..s.threads[i] };
        let ts = s.threads.update(i, t);
        assert forall|x: u64| #[trigger] id_count(ts, x) <= 1 by {
            lemma_id_count_update(s.threads, i, t, x);
        }
        assert forall|j: int| 0 <= j < ts.len() implies entry_ok(#[trigger] ts[j], s.epoch) by {
            if j != i {
                assert(ts[j] == s.threads[j]);
            }
        }
    }
}

/// Handing a bag to the queue preserves the invariant.
pub proof fn lemma_push_inv(s: GlobalV, objects: Seq<u64>)
    requires
        inv(s),
    ensures
        inv(m_push(s, objects)),
{
}

/// A collection pass preserves the invariant.
pub proof fn lemma_collect_inv(s: GlobalV)
    requires
        inv(s),
    ensures
        inv(m_collect(s)),
{
}

/// Every registry entry of the state after an advance attempt is an entry
/// of the state before it.
pub proof fn lemma_advance_elems(s: GlobalV)
    ensures
        forall|x: Thread| #[trigger]
            m_try_advance(s).threads.contains(x) ==> s.threads.contains(x),
{
    let k = scan_stop(s.threads, s.epoch);
    lemma_scan_stop_bounds(s.threads, s.epoch);
    lemma_survivors_elems(s.threads.take(k));
    assert forall|x: Thread| #[trigger]
        m_try_advance(s).threads.contains(x) implies s.threads.contains(x) by {
        if survivors(s.threads.take(k)).contains(x) {
            assert(s.threads.take(k).contains(x));
        } else {
            assert(s.threads.skip(k).contains(x));
        }
    }
}

/// An advance attempt preserves the invariant.
pub proof fn lemma_try_advance_inv(s: GlobalV)
    requires
        inv(s),
    ensures
        inv(m_try_advance(s)),
{
    let k = scan_stop(s.threads, s.epoch);
    lemma_scan_stop_bounds(s.threads, s.epoch);
    lemma_survivors_elems(s.threads.take(k));
    let r = m_try_advance(s);
    crate::epoch::lemma_next_epoch_even(s.epoch);
    assert forall|x: u64| #[trigger] id_count(r.threads, x) <= 1 by {
        lemma_id_count_concat(survivors(s.threads.take(k)), s.threads.skip(k), x);
        lemma_id_count_concat(s.threads.take(k), s.threads.skip(k), x);
        assert(s.threads.take(k) + s.threads.skip(k) =~= s.threads);
        lemma_id_count_nonneg(s.threads.skip(k), x);
    }
    lemma_advance_elems(s);
    assert forall|i: int| 0 <= i < r.threads.len() implies entry_ok(#[trigger] r.threads[i], r.epoch) by {
        let x = r.threads[i];
        assert(r.threads.contains(x));
        assert(s.threads.contains(x));
        let j = choose|j: int| 0 <= j < s.threads.len() && s.threads[j] == x;
        assert(entry_ok(x, s.epoch));
        if k == s.threads.len() {
            // the epoch advanced: every remaining entry survived the scan,
            // so a pinned one was pinned at the old epoch
            if x.state != 0 {
                assert(s.threads.skip(k).len() == 0);
                assert(survivors(s.threads.take(k)).contains(x));
                assert(s.threads.take(k).contains(x) && !x.deleted);
                assert(!is_stale(s.threads[j], s.epoch));
                assert(state_epoch(x.state) == s.epoch);
            }
        }
    }
}

/// The epoch advances exactly when no live entry is pinned at another
/// epoch: at the moment of a successful attempt, every thread observed as
/// pinned reported the current epoch, and the epoch moved by one step;
/// one stale pinned thread is enough to hold it back.
pub proof fn theorem_no_false_advance(s: GlobalV)
    requires
        inv(s),
    ensures
        (m_try_advance(s).epoch != s.epoch) == (forall|i: int|
            0 <= i < s.threads.len() ==> !is_stale(#[trigger] s.threads[i], s.epoch)),
        m_try_advance(s).epoch != s.epoch ==> {
            &&& m_try_advance(s).epoch == next_epoch(s.epoch)
            &&& forall|i: int|
                0 <= i < s.threads.len() && !s.threads[i].deleted && is_pinned_state(
                    #[trigger] s.threads[i].state,
                ) ==> state_epoch(s.threads[i].state) == s.epoch
        },
{
    let k = scan_stop(s.threads, s.epoch);
    lemma_scan_stop_bounds(s.threads, s.epoch);
    crate::epoch::lemma_next_epoch_even(s.epoch);
    if k < s.threads.len() {
        assert(is_stale(s.threads[k], s.epoch));
    }
}

/// One atomic step of the protocol, as any interleaving of threads would
/// produce it: each exec operation is a short sequence of these.
pub enum Step {
    /// A thread registers under a fresh or retried id.
    Register { id: u64 },
    /// A thread announces itself pinned at the current epoch.
    PinThread { id: u64 },
    /// A thread clears its pinned announcement.
    UnpinThread { id: u64 },
    /// A thread marks its own entry logically deleted.
    Unregister { id: u64 },
    /// Some thread attempts an epoch advance.
    Advance,
    /// Some thread runs a collection pass.
    Collect,
    /// Some thread hands a sealed bag to the queue.
    Retire { objects: Seq<u64> },
}

/// Apply one step.
pub open spec fn m_step(s: GlobalV, st: Step) -> GlobalV {
    match st {
        Step::Register { id } => m_register(s, id),
        Step::PinThread { id } => m_pin_thread(s, id),
        Step::UnpinThread { id } => m_unpin_thread(s, id),
        Step::Unregister { id } => m_unregister(s, id),
        Step::Advance => m_try_advance(s),
        Step::Collect => m_collect(s),
        Step::Retire { objects } => m_push(s, objects),
    }
}

/// Apply a whole sequence of steps, first step first.
pub open spec fn m_run(s: GlobalV, steps: Seq<Step>) -> GlobalV
    decreases steps.len(),
{
    if steps.len() == 0 {
        s
    } else {
        m_run(m_step(s, steps[0]), steps.drop_first())
    }
}

/// Every single step preserves the invariant.
pub proof fn lemma_step_inv(s: GlobalV, st: Step)
    requires
        inv(s),
    ensures
        inv(m_step(s, st)),
{
    match st {
        Step::Register { id } => lemma_register_inv(s, id),
        Step::PinThread { id } => lemma_pin_thread_inv(s, id),
        Step::UnpinThread { id } => lemma_unpin_thread_inv(s, id),
        Step::Unregister { id } => lemma_unregister_inv(s, id),
        Step::Advance => lemma_try_advance_inv(s),
        Step::Collect => lemma_collect_inv(s),
        Step::Retire { objects } => lemma_push_inv(s, objects),
    }
}

/// The invariant holds along every interleaving.
pub proof fn lemma_run_inv(s: GlobalV, steps: Seq<Step>)
    requires
        inv(s),
    ensures
        inv(m_run(s, steps)),
    decreases steps.len(),
{
    if steps.len() > 0 {
        lemma_step_inv(s, steps[0]);
        lemma_run_inv(m_step(s, steps[0]), steps.drop_first());
    }
}

/// An update that keeps an entry's id leaves every lookup unmoved.
pub proof fn lemma_find_preserved_update(ts: Seq<Thread>, i: int, t: Thread, id: u64)
    requires
        0 <= i < ts.len(),
        t.id == ts[i].id,
    ensures
        find_thread(ts.update(i, t), id) == find_thread(ts, id),
{
    let ts2 = ts.update(i, t);
    lemma_find_thread(ts, id);
    let f = find_thread(ts, id);
    if f >= 0 {
        assert forall|j: int| 0 <= j < f implies ts2[j].id != id by {
            assert(ts2[j].id == ts[j].id);
        }
        assert(ts2[f].id == id);
        lemma_find_thread_is(ts2, id, f);
    } else {
        assert forall|j: int| 0 <= j < ts2.len() implies ts2[j].id != id by {
            assert(ts2[j].id == ts[j].id);
        }
        lemma_find_thread_is(ts2, id, ts2.len() as int);
    }
}

/// Prepending an entry with another id shifts a lookup by one.
pub proof fn lemma_find_prepend(ts: Seq<Thread>, t0: Thread, id: u64)
    requires
        t0.id != id,
    ensures
        find_thread(seq![t0] + ts, id) == if find_thread(ts, id) >= 0 {
            1 + find_thread(ts, id)
        } else {
            -1int
        },
{
    let ts2 = seq![t0] + ts;
    lemma_find_thread(ts, id);
    let f = find_thread(ts, id);
    assert(ts2[0] == t0);
    if f >= 0 {
        assert forall|j: int| 0 <= j < 1 + f implies ts2[j].id != id by {
            if j > 0 {
                assert(ts2[j] == ts[j - 1]);
            }
        }
        assert(ts2[1 + f] == ts[f]);
        lemma_find_thread_is(ts2, id, 1 + f);
    } else {
        assert forall|j: int| 0 <= j < ts2.len() implies ts2[j].id != id by {
            if j > 0 {
                assert(ts2[j] == ts[j - 1]);
            }
        }
        lemma_find_thread_is(ts2, id, ts2.len() as int);
    }
}

/// A live entry survives an advance attempt with its state intact, and is
/// still found under its id.
pub proof fn lemma_advance_keeps_entry(s: GlobalV, id: u64)
    requires
        inv(s),
        has_thread(s.threads, id),
        !s.threads[find_thread(s.threads, id)].deleted,
    ensures
        has_thread(m_try_advance(s).threads, id),
        m_try_advance(s).threads[find_thread(m_try_advance(s).threads, id)] == s.threads[
            find_thread(s.threads, id)
        ],
{
    let i0 = find_thread(s.threads, id);
    lemma_find_thread(s.threads, id);
    let t = s.threads[i0];
    let k = scan_stop(s.threads, s.epoch);
    lemma_scan_stop_bounds(s.threads, s.epoch);
    lemma_survivors_elems(s.threads.take(k));
    let r = m_try_advance(s);
    if i0 < k {
        assert(s.threads.take(k)[i0] == t);
        assert(s.threads.take(k).contains(t));
        assert(survivors(s.threads.take(k)).contains(t));
        let a = choose|a: int|
            0 <= a < survivors(s.threads.take(k)).len() && survivors(s.threads.take(k))[a] == t;
        assert(r.threads[a] == t);
    } else {
        assert(s.threads.skip(k)[i0 - k] == t);
        let a = survivors(s.threads.take(k)).len() + (i0 - k);
        assert(r.threads[a] == t);
    }
    assert(r.threads.contains(t));
    let b = choose|b: int| 0 <= b < r.threads.len() && r.threads[b] == t;
    lemma_find_thread(r.threads, id);
    if find_thread(r.threads, id) < 0 {
        assert(r.threads[b].id != id);
        assert(false);
    }
    let i1 = find_thread(r.threads, id);
    let y = r.threads[i1];
    lemma_advance_elems(s);
    assert(r.threads.contains(y));
    assert(s.threads.contains(y));
    let c = choose|c: int| 0 <= c < s.threads.len() && s.threads[c] == y;
    if c != i0 {
        if c < i0 {
            lemma_id_count_two(s.threads, c, i0);
        } else {
            lemma_id_count_two(s.threads, i0, c);
        }
        assert(id_count(s.threads, id) >= 2);
        assert(false);
    }
}

/// The observation the disposal-safety theorem tracks: thread `id` is
/// still registered, not deleted, and its state word is exactly `w`,
/// which says pinned.
pub open spec fn pinned_guard(s: GlobalV, id: u64, w: u64) -> bool {
    let i = find_thread(s.threads, id);
    &&& i >= 0
    &&& !s.threads[i].deleted
    &&& s.threads[i].state == w
    &&& is_pinned_state(w)
}

/// Under the invariant, a pinned thread's announced epoch is the current
/// one or the one directly before it.
pub proof fn lemma_guard_distance(s: GlobalV, id: u64, w: u64)
    requires
        inv(s),
        pinned_guard(s, id, w),
    ensures
        epoch_distance(s.epoch, state_epoch(w)) == 0 || epoch_distance(s.epoch, state_epoch(w))
            == 2,
        epoch_distance(s.epoch, state_epoch(w)) == 0 ==> state_epoch(w) == s.epoch,
        epoch_distance(s.epoch, state_epoch(w)) == 2 ==> next_epoch(state_epoch(w)) == s.epoch,
{
    let i = find_thread(s.threads, id);
    lemma_find_thread(s.threads, id);
    let t = s.threads[i];
    assert(entry_ok(t, s.epoch));
    lemma_unpinned_state();
    assert(t.state != 0);
    let se = state_epoch(w);
    assert(se == state_epoch(t.state));
    crate::epoch::lemma_distance_self(se);
    assert(se == s.epoch || next_epoch(se) == s.epoch);
    if se == s.epoch {
        assert(epoch_distance(s.epoch, se) == 0);
    } else {
        assert(next_epoch(se) == s.epoch);
        crate::epoch::lemma_distance_step(se, se);
        assert(epoch_distance(s.epoch, se) == 2);
    }
    crate::epoch::lemma_distance_zero(s.epoch, se);
}

/// One protocol step, taken by anyone but the pinned thread itself,
/// neither touches the pinned entry, nor lets the epoch slip more than
/// one step past the pin, nor disposes of a bag retired no earlier than
/// the pin.
pub proof fn lemma_step_guard(s: GlobalV, st: Step, id: u64, w: u64, b: BagV)
    requires
        inv(s),
        pinned_guard(s, id, w),
        s.queue.contains(b),
        epoch_distance(s.epoch, b.epoch) <= epoch_distance(s.epoch, state_epoch(w)),
        st != (Step::UnpinThread { id }),
        st != (Step::Unregister { id }),
    ensures
        pinned_guard(m_step(s, st), id, w),
        m_step(s, st).queue.contains(b),
        epoch_distance(m_step(s, st).epoch, b.epoch) <= epoch_distance(
            m_step(s, st).epoch,
            state_epoch(w),
        ),
{
    let i = find_thread(s.threads, id);
    let t = s.threads[i];
    lemma_find_thread(s.threads, id);
    lemma_guard_distance(s, id, w);
    let se = state_epoch(w);
    let r = m_step(s, st);
    match st {
        Step::Register { id: id2 } => {
            if !has_thread(s.threads, id2) {
                let t0 = Thread { id: id2, state: 0, deleted: false };
                lemma_find_prepend(s.threads, t0, id);
                assert((seq![t0] + s.threads)[1 + i] == s.threads[i]);
            }
        },
        Step::PinThread { id: id2 } => {
            let f2 = find_thread(s.threads, id2);
            if id2 == id {
                assert(is_pinned_state(s.threads[f2].state));
            } else if f2 >= 0 && !is_pinned_state(s.threads[f2].state) {
                lemma_find_thread(s.threads, id2);
                let t2 = Thread { state: pinned_state(s.epoch), ..s.threads[f2] };
                lemma_find_preserved_update(s.threads, f2, t2, id);
                assert(f2 != i);
                assert(r.threads[i] == t);
            }
        },
        Step::UnpinThread { id: id2 } => {
            let f2 = find_thread(s.threads, id2);
            if f2 >= 0 {
                lemma_find_thread(s.threads, id2);
                let t2 = Thread { state: 0, ..s.threads[f2] };
                lemma_find_preserved_update(s.threads, f2, t2, id);
                assert(f2 != i);
                assert(r.threads[i] == t);
            }
        },
        Step::Unregister { id: id2 } => {
            let f2 = find_thread(s.threads, id2);
            if f2 >= 0 {
                lemma_find_thread(s.threads, id2);
                let t2 = Thread { deleted: true, ..s.threads[f2] };
                lemma_find_preserved_update(s.threads, f2, t2, id);
                assert(f2 != i);
                assert(r.threads[i] == t);
            }
        },
        Step::Advance => {
            lemma_advance_keeps_entry(s, id);
            let k = scan_stop(s.threads, s.epoch);
            lemma_scan_stop_bounds(s.threads, s.epoch);
            if k == s.threads.len() {
                // the advance went through, so this pinned entry was at the
                // current epoch; the bag can be no older, so both distances
                // grow by exactly one step
                assert(!is_stale(t, s.epoch));
                assert(se == s.epoch);
                crate::epoch::lemma_distance_zero(s.epoch, b.epoch);
                assert(b.epoch == s.epoch);
                crate::epoch::lemma_distance_step(s.epoch, se);
                crate::epoch::lemma_distance_step(s.epoch, b.epoch);
            }
        },
        Step::Collect => {
            let dk = drain_count(s.queue, s.epoch);
            lemma_drain_count_bounds(s.queue, s.epoch);
            assert(!collectable(s.epoch, b));
            let j = choose|j: int| 0 <= j < s.queue.len() && s.queue[j] == b;
            assert(j >= dk);
            assert(r.queue[j - dk] == b);
            assert(r.queue.contains(b));
        },
        Step::Retire { objects } => {
        },
    }
}

/// No premature disposal: while a thread stays pinned, every bag that was
/// retired no earlier than the pin survives any interleaving of protocol
/// steps that does not unpin or unregister that thread -- its disposers
/// are never invoked.
pub proof fn theorem_no_premature_disposal(
    s: GlobalV,
    steps: Seq<Step>,
    id: u64,
    w: u64,
    b: BagV,
)
    requires
        inv(s),
        pinned_guard(s, id, w),
        s.queue.contains(b),
        epoch_distance(s.epoch, b.epoch) <= epoch_distance(s.epoch, state_epoch(w)),
        forall|j: int|
            0 <= j < steps.len() ==> #[trigger] steps[j] != (Step::UnpinThread { id })
                && steps[j] != (Step::Unregister { id }),
    ensures
        inv(m_run(s, steps)),
        pinned_guard(m_run(s, steps), id, w),
        m_run(s, steps).queue.contains(b),
        epoch_distance(m_run(s, steps).epoch, b.epoch) <= epoch_distance(
            m_run(s, steps).epoch,
            state_epoch(w),
        ),
    decreases steps.len(),
{
    if steps.len() > 0 {
        lemma_step_guard(s, steps[0], id, w, b);
        lemma_step_inv(s, steps[0]);
        let s2 = m_step(s, steps[0]);
        assert forall|j: int|
            0 <= j < steps.drop_first().len() implies #[trigger] steps.drop_first()[j] != (
        Step::UnpinThread { id }) && steps.drop_first()[j] != (Step::Unregister { id }) by {
            assert(steps.drop_first()[j] == steps[j + 1]);
        }
        theorem_no_premature_disposal(s2, steps.drop_first(), id, w, b);
    }
}

/// A thread that is registered and has not exited: its entry is present
/// and not logically deleted.
pub open spec fn live_entry(s: GlobalV, id: u64) -> bool {
    find_thread(s.threads, id) >= 0 && !s.threads[find_thread(s.threads, id)].deleted
}

/// Any step other than the thread's own unregistration keeps its entry
/// live -- pinning and unpinning itself included.
pub proof fn lemma_step_live(s: GlobalV, st: Step, id: u64)
    requires
        inv(s),
        live_entry(s, id),
        st != (Step::Unregister { id }),
    ensures
        live_entry(m_step(s, st), id),
{
    let i = find_thread(s.threads, id);
    lemma_find_thread(s.threads, id);
    let t = s.threads[i];
    let r = m_step(s, st);
    match st {
        Step::Register { id: id2 } => {
            if !has_thread(s.threads, id2) {
                let t0 = Thread { id: id2, state: 0, deleted: false };
                lemma_find_prepend(s.threads, t0, id);
                assert((seq![t0] + s.threads)[1 + i] == s.threads[i]);
            }
        },
        Step::PinThread { id: id2 } => {
            let f2 = find_thread(s.threads, id2);
            if f2 >= 0 && !is_pinned_state(s.threads[f2].state) {
                lemma_find_thread(s.threads, id2);
                let t2 = Thread { state: pinned_state(s.epoch), ..s.threads[f2] };
                lemma_find_preserved_update(s.threads, f2, t2, id);
                assert(r.threads[i].deleted == s.threads[f2 as int].deleted || f2 != i);
                assert(!r.threads[i].deleted);
            }
        },
        Step::UnpinThread { id: id2 } => {
            let f2 = find_thread(s.threads, id2);
            if f2 >= 0 {
                lemma_find_thread(s.threads, id2);
                let t2 = Thread { state: 0, ..s.threads[f2] };
                lemma_find_preserved_update(s.threads, f2, t2, id);
                assert(!r.threads[i].deleted);
            }
        },
        Step::Unregister { id: id2 } => {
            let f2 = find_thread(s.threads, id2);
            if f2 >= 0 {
                lemma_find_thread(s.threads, id2);
                let t2 = Thread { deleted: true, ..s.threads[f2] };
                lemma_find_preserved_update(s.threads, f2, t2, id);
                assert(f2 != i);
                assert(r.threads[i] == t);
            }
        },
        Step::Advance => {
            lemma_advance_keeps_entry(s, id);
        },
        Step::Collect => {
        },
        Step::Retire { objects } => {
        },
    }
}

/// Registry liveness, first half: a thread that registers and never exits
/// remains reachable in the registry under any interleaving of steps.
pub proof fn theorem_registry_liveness(s: GlobalV, steps: Seq<Step>, id: u64)
    requires
        inv(s),
        live_entry(s, id),
        forall|j: int| 0 <= j < steps.len() ==> #[trigger] steps[j] != (Step::Unregister { id }),
    ensures
        inv(m_run(s, steps)),
        live_entry(m_run(s, steps), id),
    decreases steps.len(),
{
    if steps.len() > 0 {
        lemma_step_live(s, steps[0], id);
        lemma_step_inv(s, steps[0]);
        assert forall|j: int|
            0 <= j < steps.drop_first().len() implies #[trigger] steps.drop_first()[j] != (
        Step::Unregister { id }) by {
            assert(steps.drop_first()[j] == steps[j + 1]);
        }
        theorem_registry_liveness(m_step(s, steps[0]), steps.drop_first(), id);
    }
}

/// Registry liveness, second half: one advance scan unlinks an exited
/// thread's entry at most once -- the retired run of ids names no id
/// twice -- and an unlinked id is gone from the registry, so no later
/// scan can retire it again.
pub proof fn theorem_unlink_exactly_once(s: GlobalV)
    requires
        inv(s),
    ensures
        forall|x: u64| #[trigger]
            u64_count(unlinked_ids(s.threads.take(scan_stop(s.threads, s.epoch))), x) <= 1,
        forall|x: u64| #[trigger]
            unlinked_ids(s.threads.take(scan_stop(s.threads, s.epoch))).contains(x)
                ==> !has_thread(m_try_advance(s).threads, x),
{
    let k = scan_stop(s.threads, s.epoch);
    lemma_scan_stop_bounds(s.threads, s.epoch);
    let pre = s.threads.take(k);
    let dead = unlinked_ids(pre);
    assert forall|x: u64| #[trigger] u64_count(dead, x) <= 1 by {
        lemma_unlinked_count(pre, x);
        lemma_id_count_concat(pre, s.threads.skip(k), x);
        assert(pre + s.threads.skip(k) =~= s.threads);
        lemma_id_count_nonneg(s.threads.skip(k), x);
        assert(id_count(pre, x) <= id_count(s.threads, x));
    }
    lemma_unlinked_elems(pre);
    lemma_advance_elems(s);
    let r = m_try_advance(s);
    lemma_survivors_elems(pre);
    assert forall|x: u64| #[trigger] dead.contains(x) implies !has_thread(r.threads, x) by {
        let p = choose|p: int| 0 <= p < pre.len() && (#[trigger] pre[p]).id == x && pre[p].deleted;
        assert(s.threads[p] == pre[p]);
        if has_thread(r.threads, x) {
            lemma_find_thread(r.threads, x);
            let y = r.threads[find_thread(r.threads, x)];
            assert(r.threads.contains(y));
            assert(s.threads.contains(y));
            let c = choose|c: int| 0 <= c < s.threads.len() && s.threads[c] == y;
            if c != p {
                if c < p {
                    lemma_id_count_two(s.threads, c, p);
                } else {
                    lemma_id_count_two(s.threads, p, c);
                }
                assert(false);
            }
            // so the found entry is the deleted one; but deleted entries
            // neither survive the scanned prefix nor sit beyond the stop
            assert(y.deleted);
            if survivors(pre).contains(y) {
                assert(!y.deleted);
                assert(false);
            }
            let z = choose|z: int| 0 <= z < r.threads.len() && r.threads[z] == y;
            let off = z - survivors(pre).len();
            if 0 <= off < s.threads.skip(k).len() && s.threads.skip(k)[off] == y {
                assert(s.threads[k + off] == y);
                assert(k + off != p);
                if k + off < p {
                    lemma_id_count_two(s.threads, k + off, p);
                } else {
                    lemma_id_count_two(s.threads, p, k + off);
                }
                assert(false);
            } else {
                assert(survivors(pre)[z] == y);
                assert(survivors(pre).contains(y));
                assert(false);
            }
        }
    }
}

/// The registration steps for a run of ids.
pub open spec fn register_steps(ids: Seq<u64>) -> Seq<Step> {
    ids.map_values(|id: u64| Step::Register { id })
}

/// Lock-free insertion loses nothing: however many threads register
/// concurrently under fresh, distinct ids, every one of them ends up
/// reachable from the head, and the registry grows by exactly their
/// number.
pub proof fn theorem_concurrent_registration(s: GlobalV, ids: Seq<u64>)
    requires
        inv(s),
        forall|i: int, j: int| 0 <= i < j < ids.len() ==> ids[i] != ids[j],
        forall|i: int| 0 <= i < ids.len() ==> !has_thread(s.threads, #[trigger] ids[i]),
    ensures
        inv(m_run(s, register_steps(ids))),
        m_run(s, register_steps(ids)).threads.len() == s.threads.len() + ids.len(),
        forall|i: int|
            0 <= i < ids.len() ==> has_thread(
                m_run(s, register_steps(ids)).threads,
                #[trigger] ids[i],
            ),
    decreases ids.len(),
{
    let steps = register_steps(ids);
    if ids.len() > 0 {
        let id0 = ids[0];
        let t0 = Thread { id: id0, state: 0, deleted: false };
        assert(steps[0] == (Step::Register { id: id0 }));
        let s1 = m_register(s, id0);
        lemma_register_inv(s, id0);
        assert(s1.threads == seq![t0] + s.threads);
        assert(s1.threads.len() == s.threads.len() + 1);
        assert(s1.threads[0] == t0);
        lemma_find_thread_is(s1.threads, id0, 0);
        assert(live_entry(s1, id0));
        assert forall|i: int|
            0 <= i < ids.drop_first().len() implies !has_thread(
            s1.threads,
            #[trigger] ids.drop_first()[i],
        ) by {
            assert(ids.drop_first()[i] == ids[i + 1]);
            lemma_find_prepend(s.threads, t0, ids[i + 1]);
        }
        assert(steps.drop_first() =~= register_steps(ids.drop_first()));
        theorem_concurrent_registration(s1, ids.drop_first());
        let r = m_run(s1, register_steps(ids.drop_first()));
        assert(m_run(s, steps) == r);
        assert forall|j: int|
            0 <= j < register_steps(ids.drop_first()).len()
                implies #[trigger] register_steps(ids.drop_first())[j] != (
        Step::Unregister { id: id0 }) by {
        }
        theorem_registry_liveness(s1, register_steps(ids.drop_first()), id0);
        assert forall|i: int|
            0 <= i < ids.len() implies has_thread(r.threads, #[trigger] ids[i]) by {
            if i > 0 {
                assert(ids.drop_first()[i - 1] == ids[i]);
            }
        }
    }
}

/// No leak: once every thread is unpinned, two advances followed by one
/// collection pass dispose of every bag that was queued -- provided no
/// stamp is so ancient that another step would wrap it around.
pub proof fn theorem_eventual_collection(s: GlobalV)
    requires
        inv(s),
        forall|i: int|
            0 <= i < s.threads.len() ==> !is_pinned_state((#[trigger] s.threads[i]).state),
        forall|j: int|
            0 <= j < s.queue.len() ==> epoch_distance(s.epoch, (#[trigger] s.queue[j]).epoch)
                <= u64::MAX - 4,
    ensures
        m_run(s, seq![Step::Advance, Step::Advance, Step::Collect]).queue.len() == 0,
        forall|j: int, x: int|
            0 <= j < s.queue.len() && 0 <= x < s.queue[j].objects.len() ==> m_run(
                s,
                seq![Step::Advance, Step::Advance, Step::Collect],
            ).disposed.contains(#[trigger] s.queue[j].objects[x]),
{
    let steps = seq![Step::Advance, Step::Advance, Step::Collect];
    assert(steps[0] == Step::Advance && steps[1] == Step::Advance && steps[2] == Step::Collect);
    assert(steps.drop_first() =~= seq![Step::Advance, Step::Collect]);
    assert(steps.drop_first().drop_first() =~= seq![Step::Collect]);
    assert(steps.drop_first().drop_first().drop_first() =~= Seq::<Step>::empty());
    let s1 = m_try_advance(s);
    let s2 = m_try_advance(s1);
    let s3 = m_collect(s2);
    assert(m_step(s, steps[0]) == s1);
    assert(m_run(s, steps) == m_run(s1, steps.drop_first()));
    assert(m_step(s1, steps.drop_first()[0]) == s2);
    assert(m_run(s1, steps.drop_first()) == m_run(s2, steps.drop_first().drop_first()));
    assert(m_step(s2, steps.drop_first().drop_first()[0]) == s3);
    assert(m_run(s2, steps.drop_first().drop_first()) == m_run(
        s3,
        steps.drop_first().drop_first().drop_first(),
    ));
    assert(m_run(s3, steps.drop_first().drop_first().drop_first()) == s3);
    assert(m_run(s, steps) == s3);
    lemma_try_advance_inv(s);
    lemma_try_advance_inv(s1);
    // first advance: nobody is pinned, so nothing is stale and the scan
    // completes
    let k1 = scan_stop(s.threads, s.epoch);
    lemma_scan_stop_bounds(s.threads, s.epoch);
    if k1 < s.threads.len() {
        assert(is_stale(s.threads[k1], s.epoch));
        assert(false);
    }
    assert(s1.epoch == next_epoch(s.epoch));
    lemma_survivors_elems(s.threads.take(k1));
    assert forall|i: int|
        0 <= i < s1.threads.len() implies !(#[trigger] s1.threads[i]).deleted && !is_pinned_state(
        s1.threads[i].state,
    ) by {
        assert(s1.threads.contains(s1.threads[i]));
        assert(s.threads.skip(k1).len() == 0);
        assert(survivors(s.threads.take(k1)).contains(s1.threads[i]));
        assert(s.threads.take(k1).contains(s1.threads[i]));
        let c = choose|c: int|
            0 <= c < s.threads.take(k1).len() && s.threads.take(k1)[c] == s1.threads[i];
        assert(s.threads[c] == s1.threads[i]);
    }
    // second advance: all survivors are live and unpinned, so the scan
    // completes again and unlinks nothing
    let k2 = scan_stop(s1.threads, s1.epoch);
    lemma_scan_stop_bounds(s1.threads, s1.epoch);
    if k2 < s1.threads.len() {
        assert(is_stale(s1.threads[k2], s1.epoch));
        assert(false);
    }
    assert(s2.epoch == next_epoch(s1.epoch));
    assert forall|i: int|
        0 <= i < s1.threads.take(k2).len() implies !(#[trigger] s1.threads.take(k2)[i]).deleted by {
        assert(s1.threads.take(k2)[i] == s1.threads[i]);
    }
    lemma_unlinked_empty(s1.threads.take(k2));
    assert(s2.queue == s1.queue);
    // every queued bag has now aged a whole generation past its stamp
    assert forall|j: int| 0 <= j < s2.queue.len() implies collectable(
        s2.epoch,
        #[trigger] s2.queue[j],
    ) by {
        let b = s2.queue[j];
        if j < s.queue.len() {
            assert(s2.queue[j] == s.queue[j]);
            crate::epoch::lemma_distance_step(s.epoch, b.epoch);
            crate::epoch::lemma_distance_step(s1.epoch, b.epoch);
        } else {
            assert(b.epoch == s.epoch);
            crate::epoch::lemma_distance_self(s.epoch);
            crate::epoch::lemma_distance_step(s.epoch, b.epoch);
            crate::epoch::lemma_distance_step(s1.epoch, b.epoch);
        }
    }
    crate::garbage::lemma_drain_count_is(s2.queue, s2.epoch, s2.queue.len() as int);
    assert(s3.queue =~= Seq::<BagV>::empty());
    assert(s2.queue.take(s2.queue.len() as int) =~= s2.queue);
    assert forall|j: int, x: int|
        0 <= j < s.queue.len() && 0 <= x < s.queue[j].objects.len() implies s3.disposed.contains(
        #[trigger] s.queue[j].objects[x],
    ) by {
        assert(s2.queue[j] == s.queue[j]);
        crate::garbage::lemma_bag_objects_contains(s2.queue, j, x);
        let o = s.queue[j].objects[x];
        let y = choose|y: int|
            0 <= y < bag_objects(s2.queue).len() && bag_objects(s2.queue)[y] == o;
        assert(s3.disposed[s2.disposed.len() + y] == o);
    }
}

} // verus!
