//! Epoch arithmetic and the per-thread state word.
//!
//! The global epoch is a counter that advances in steps of two and wraps
//! around at the top of `u64`.  The low bit of every value is left free so
//! that a thread can publish `epoch | 1` as a single word meaning "pinned
//! at `epoch`".

use vstd::prelude::*;

verus! {

/// The global epoch advances in steps of two: the low bit of a state word
/// is reserved for the pinned flag.
pub const EPOCH_STEP: u64 = 2;

/// A retired bag may be disposed of once the global epoch lies at least
/// this far past the bag's stamp: two full advances, i.e. one whole
/// generation beyond the epoch current at retirement.
pub const COLLECT_DISTANCE: u64 = 4;

/// Number of pinnings between opportunistic epoch-advance and collection
/// passes performed by `pin`.
pub const PINS_BETWEEN_COLLECT: u64 = 128;

/// The epoch that follows `e`: addition by two, wrapping at the top.
pub open spec fn next_epoch(e: u64) -> u64 {
    if e + 2 <= u64::MAX {
        (e + 2) as u64
    } else {
        (e + 2 - 0x1_0000_0000_0000_0000) as u64
    }
}

/// How far `a` lies ahead of `b` on the wrapping epoch line.
pub open spec fn epoch_distance(a: u64, b: u64) -> u64 {
    if a >= b {
        (a - b) as u64
    } else {
        (a + 0x1_0000_0000_0000_0000 - b) as u64
    }
}

/// Advance an epoch by one step of two, wrapping at the top.
pub fn epoch_add2(e: u64) -> (r: u64)
    ensures
        r == next_epoch(e),
{
    if e <= u64::MAX - 2 {
        e + 2
    } else {
        e - (u64::MAX - 1)
    }
}

/// Compute how far `a` lies ahead of `b` on the wrapping epoch line.
pub fn epoch_since(a: u64, b: u64) -> (r: u64)
    ensures
        r == epoch_distance(a, b),
{
    if a >= b {
        a - b
    } else {
        (u64::MAX - b) + a + 1
    }
}

/// A state word's low bit says whether its thread is currently pinned.
pub open spec fn is_pinned_state(w: u64) -> bool {
    w & 1 == 1
}

/// The epoch half of a state word: everything above the pinned bit.
pub open spec fn state_epoch(w: u64) -> u64 {
    w & !1u64
}

/// The state word a thread publishes when it pins at epoch `e`.
pub open spec fn pinned_state(e: u64) -> u64 {
    e | 1
}

/// Build the state word for a thread pinned at epoch `e`.
pub fn make_pinned_state(e: u64) -> (r: u64)
    ensures
        r == pinned_state(e),
{
    e | 1
}

/// Read the pinned flag out of a state word.
pub fn read_pinned_flag(w: u64) -> (r: bool)
    ensures
        r == is_pinned_state(w),
{
    w & 1 == 1
}

/// Read the epoch half out of a state word.
pub fn read_state_epoch(w: u64) -> (r: u64)
    ensures
        r == state_epoch(w),
{
    w & !1u64
}

/// Packing an even epoch with the pinned bit round-trips.
pub proof fn lemma_pinned_state(e: u64)
    requires
        e % 2 == 0,
    ensures
        is_pinned_state(pinned_state(e)),
        state_epoch(pinned_state(e)) == e,
{
    assert((e | 1) & 1 == 1 && (e | 1) & !1u64 == e) by (bit_vector)
        requires
            e % 2 == 0,
    ;
}

/// The all-clear state word is unpinned and carries epoch zero.
pub proof fn lemma_unpinned_state()
    ensures
        !is_pinned_state(0),
        state_epoch(0) == 0,
{
    assert(0u64 & 1 == 0 && 0u64 & !1u64 == 0) by (bit_vector);
}

/// Stepping preserves evenness and always lands on a different value.
pub proof fn lemma_next_epoch_even(e: u64)
    requires
        e % 2 == 0,
    ensures
        next_epoch(e) % 2 == 0,
        next_epoch(e) != e,
{
}

/// An epoch is never behind itself.
pub proof fn lemma_distance_self(e: u64)
    ensures
        epoch_distance(e, e) == 0,
{
}

/// Zero distance means the very same epoch.
pub proof fn lemma_distance_zero(a: u64, b: u64)
    ensures
        epoch_distance(a, b) == 0 ==> a == b,
{
}

/// One advance moves the distance from any fixed point up by two, as long
/// as the distance is not about to wrap.
pub proof fn lemma_distance_step(a: u64, b: u64)
    requires
        epoch_distance(a, b) <= u64::MAX - 2,
    ensures
        epoch_distance(next_epoch(a), b) == epoch_distance(a, b) + 2,
{
}

} // verus!
