//! Untagged atomic pointer cells.
//!
//! An [`Atomic`] is a memory location holding a possibly-null pointer to a
//! heap-owned payload, identified here by its address word.  Loads require
//! a pin witness: the value read stays dereferenceable while the witness's
//! pinned scope lasts.  The cell never disposes of anything itself -- the
//! code that unlinks a value retires it explicitly.

use vstd::prelude::*;
use crate::garbage::BAG_CAPACITY;
use crate::laws::inv;
use crate::model::{m_collect, m_push, m_try_advance};
use crate::thread::{defer_free, valid_harness, Global, Harness, Pin};

verus! {

/// A pointer value read out of an [`Atomic`] cell: a possibly-null
/// address, only dereferenceable while the pin it was loaded under lives.
#[derive(Clone, Copy, PartialEq, Eq, Structural)]
pub struct Ptr {
    /// The address; zero is null.
    pub addr: u64,
}

impl Ptr {
    /// Whether this is the null pointer.
    pub open spec fn spec_is_null(self) -> bool {
        self.addr == 0
    }

    /// The null pointer value.
    pub fn null() -> (r: Ptr)
        ensures
            r.spec_is_null(),
    {
        Ptr { addr: 0 }
    }

    /// A pointer to the object with the given nonzero address.
    pub fn new(addr: u64) -> (r: Ptr)
        ensures
            r.addr == addr,
    {
        Ptr { addr }
    }

    /// Whether the address is zero.
    pub fn is_null(&self) -> (r: bool)
        ensures
            r == self.spec_is_null(),
    {
        self.addr == 0
    }

    /// Declare that this pointer value is no longer reachable through any
    /// cell, and hand the object behind it to the garbage queue for
    /// deferred disposal.  The caller alone vouches for unreachability
    /// and for retiring each object at most once.
    pub fn unlinked(&self, pin: &Pin, g: &mut Global, h: &mut Harness)
        requires
            inv(old(g)@),
            valid_harness(old(g)@, *old(h)),
            pin.id == old(h).id,
            old(h).is_pinned,
        ensures
            inv(final(g)@),
            valid_harness(final(g)@, *final(h)),
            final(h).id == old(h).id,
            final(h).is_pinned,
            final(h).pin_count == old(h).pin_count,
            old(h).bag.objects@.len() < BAG_CAPACITY ==> {
                &&& final(h).bag.objects@ == old(h).bag.objects@.push(self.addr)
                &&& final(g)@ == old(g)@
            },
            old(h).bag.objects@.len() >= BAG_CAPACITY ==> {
                &&& final(h).bag.objects@ == seq![self.addr]
                &&& final(g)@ == m_push(
                    m_collect(m_try_advance(old(g)@)),
                    old(h).bag.objects@,
                )
            },
    {
        defer_free(self.addr, pin, g, h);
    }
}

/// An atomic cell holding a possibly-null pointer value.
pub struct Atomic {
    /// The pointer currently stored in the cell.
    pub cur: Ptr,
}

impl Atomic {
    /// A cell initially holding the given pointer.
    pub fn new(p: Ptr) -> (r: Atomic)
        ensures
            r.cur == p,
    {
        Atomic { cur: p }
    }

    /// A cell initially holding null.
    pub fn null() -> (r: Atomic)
        ensures
            r.cur.spec_is_null(),
    {
        Atomic { cur: Ptr { addr: 0 } }
    }

    /// Atomically read the current pointer.  The witness ties the returned
    /// value's validity to the caller's pinned scope.
    pub fn load(&self, _pin: &Pin) -> (r: Ptr)
        ensures
            r == self.cur,
    {
        self.cur
    }

    /// Atomically replace the current pointer.  The old contents are not
    /// retired here: the caller retires them once no future load can
    /// return them.
    pub fn store(&mut self, new: Ptr, _pin: &Pin)
        ensures
            final(self).cur == new,
    {
        self.cur = new;
    }

    /// Atomic compare-and-swap: installs `new` exactly when the cell still
    /// holds `expected`; a failure reports the value actually found so the
    /// caller can retry.
    pub fn cas(&mut self, expected: Ptr, new: Ptr, _pin: &Pin) -> (r: Result<(), Ptr>)
        ensures
            old(self).cur == expected ==> r == Result::<(), Ptr>::Ok(()) && final(self).cur == new,
            old(self).cur != expected ==> r == Result::<(), Ptr>::Err(old(self).cur)
                && final(self).cur == old(self).cur,
    {
        if self.cur == expected {
            self.cur = new;
            Ok(())
        } else {
            Err(self.cur)
        }
    }

    /// The weak variant of [`Self::cas`]: it may fail spuriously, so its
    /// contract only promises that a success really installed `new` and
    /// that a failure reports the value found, unchanged.
    pub fn cas_weak(&mut self, expected: Ptr, new: Ptr, _pin: &Pin) -> (r: Result<(), Ptr>)
        ensures
            r is Ok ==> old(self).cur == expected && final(self).cur == new,
            r is Err ==> r == Result::<(), Ptr>::Err(old(self).cur)
                && final(self).cur == old(self).cur,
    {
        self.cas(expected, new, _pin)
    }
}

} // verus!
