//! Tagged atomic pointers.
//!
//! A tagged pointer packs an address and a small tag into one word: the low
//! `bits` bits carry the tag, the rest carry the address.  Reading and
//! writing the pair as a single word is what lets a lock-free list mark an
//! entry as logically deleted atomically with its forward link, closing the
//! window a separate flag word would leave open.
//!
//! Addresses are modeled as plain words; an address of zero is the null
//! pointer.  Dereferencing is outside this module's scope -- a pointer
//! value is data, and the epoch protocol says when the object behind it is
//! still present.

use vstd::prelude::*;
use crate::garbage::BAG_CAPACITY;
use crate::laws::inv;
use crate::model::{m_collect, m_push, m_try_advance};
use crate::thread::{defer_free, valid_harness, Global, Harness, Pin};

verus! {

/// The mask selecting the low `bits` tag bits of a packed word.
pub open spec fn tag_mask(bits: u64) -> u64 {
    if bits < 64 {
        ((1u64 << bits) - 1) as u64
    } else {
        u64::MAX
    }
}

/// A value small enough to fit entirely inside the tag bits.
pub proof fn lemma_tag_fits(bits: u64, t: u64)
    requires
        bits < 64,
        t <= tag_mask(bits),
    ensures
        t & tag_mask(bits) == t,
{
    assert(1u64 << bits >= 1) by (bit_vector)
        requires
            bits < 64,
    ;
    let m = tag_mask(bits);
    assert(m + 1 == 1u64 << bits);
    assert(t <= m ==> t & m == t) by (bit_vector)
        requires
            m + 1 == 1u64 << bits,
            bits < 64,
    ;
}

/// A pointer value packed together with a tag in its low bits.
#[derive(Clone, Copy, PartialEq, Eq, Structural)]
pub struct TaggedPtr {
    /// The packed word: address above, tag in the low `bits` bits.
    pub data: u64,
    /// How many low bits carry the tag.
    pub bits: u64,
}

impl TaggedPtr {
    /// A tag width must leave room for an address and offer at least a
    /// one-bit mark.
    pub open spec fn wf(self) -> bool {
        1 <= self.bits < 64
    }

    /// The tag carried in the low bits.
    pub open spec fn spec_tag(self) -> u64 {
        self.data & tag_mask(self.bits)
    }

    /// The address carried above the tag bits.
    pub open spec fn spec_addr(self) -> u64 {
        self.data & !tag_mask(self.bits)
    }

    /// A pointer is null when its address part is zero, whatever its tag.
    pub open spec fn spec_is_null(self) -> bool {
        self.spec_addr() == 0
    }

    /// The null pointer with the given tag width, carrying tag `tag`.
    pub fn null(bits: u64, tag: u64) -> (r: TaggedPtr)
        requires
            1 <= bits < 64,
            tag & tag_mask(bits) == tag,
        ensures
            r.wf(),
            r.bits == bits,
            r.spec_is_null(),
            r.spec_tag() == tag,
    {
        let r = TaggedPtr { data: tag, bits };
        proof {
            let m = tag_mask(bits);
            assert(tag & m == tag ==> (tag & m == tag && tag & !m == 0)) by (bit_vector);
        }
        r
    }

    /// Pack an address whose low bits are clear with a tag that fits.
    pub fn pack(addr: u64, bits: u64, tag: u64) -> (r: TaggedPtr)
        requires
            1 <= bits < 64,
            addr & tag_mask(bits) == 0,
            tag & tag_mask(bits) == tag,
        ensures
            r.wf(),
            r.bits == bits,
            r.spec_addr() == addr,
            r.spec_tag() == tag,
    {
        let r = TaggedPtr { data: addr | tag, bits };
        proof {
            let m = tag_mask(bits);
            assert((addr & m == 0 && tag & m == tag) ==> ((addr | tag) & !m == addr
                && (addr | tag) & m == tag)) by (bit_vector);
        }
        r
    }

    /// Read the tag out of the packed word.
    pub fn tag(&self) -> (r: u64)
        requires
            self.wf(),
        ensures
            r == self.spec_tag(),
    {
        self.data & mask_of(self.bits)
    }

    /// Read the address out of the packed word.
    pub fn addr(&self) -> (r: u64)
        requires
            self.wf(),
        ensures
            r == self.spec_addr(),
    {
        self.data & !mask_of(self.bits)
    }

    /// Whether the address part is zero.
    pub fn is_null(&self) -> (r: bool)
        requires
            self.wf(),
        ensures
            r == self.spec_is_null(),
    {
        self.data & !mask_of(self.bits) == 0
    }

    /// The same address carrying a different tag.  The tag round-trips and
    /// the address -- null or not -- is untouched, for every valid width.
    pub fn with_tag(&self, tag: u64) -> (r: TaggedPtr)
        requires
            self.wf(),
            tag & tag_mask(self.bits) == tag,
        ensures
            r.wf(),
            r.bits == self.bits,
            r.spec_tag() == tag,
            r.spec_addr() == self.spec_addr(),
            r.spec_is_null() == self.spec_is_null(),
    {
        let m = mask_of(self.bits);
        let r = TaggedPtr { data: (self.data & !m) | tag, bits: self.bits };
        proof {
            let d = self.data;
            assert(tag & m == tag ==> (((d & !m) | tag) & m == tag
                && ((d & !m) | tag) & !m == d & !m)) by (bit_vector);
        }
        r
    }

    /// Declare that this pointer value is no longer reachable through any
    /// cell, and hand the object behind its address to the garbage queue
    /// for deferred disposal.  The caller alone vouches for
    /// unreachability and for retiring each object at most once.
    pub fn unlinked(&self, pin: &Pin, g: &mut Global, h: &mut Harness)
        requires
            self.wf(),
            inv(old(g)@),
            valid_harness(old(g)@, *old(h)),
            pin.id == old(h).id,
            old(h).is_pinned,
        ensures
            inv(final(g)@),
            valid_harness(final(g)@, *final(h)),
            final(h).id == old(h).id,
            final(h).is_pinned,
            final(h).pin_count == old(h).pin_count,
            old(h).bag.objects@.len() < BAG_CAPACITY ==> {
                &&& final(h).bag.objects@ == old(h).bag.objects@.push(self.spec_addr())
                &&& final(g)@ == old(g)@
            },
            old(h).bag.objects@.len() >= BAG_CAPACITY ==> {
                &&& final(h).bag.objects@ == seq![self.spec_addr()]
                &&& final(g)@ == m_push(
                    m_collect(m_try_advance(old(g)@)),
                    old(h).bag.objects@,
                )
            },
    {
        let a = self.addr();
        defer_free(a, pin, g, h);
    }
}

/// Compute the tag mask for a width below the word size.
fn mask_of(bits: u64) -> (r: u64)
    requires
        bits < 64,
    ensures
        r == tag_mask(bits),
{
    proof {
        assert(1u64 << bits >= 1) by (bit_vector)
            requires
                bits < 64,
        ;
    }
    (1u64 << bits) - 1
}

/// An atomic cell holding a tagged pointer; pointer and tag are read and
/// written together as one word.
pub struct TaggedAtomic {
    /// The word currently stored in the cell.
    pub cur: TaggedPtr,
}

impl TaggedAtomic {
    /// The cell's pointer keeps a well-formed tag width.
    pub open spec fn wf(self) -> bool {
        self.cur.wf()
    }

    /// A cell initially holding the given pointer.
    pub fn new(p: TaggedPtr) -> (r: TaggedAtomic)
        requires
            p.wf(),
        ensures
            r.wf(),
            r.cur == p,
    {
        TaggedAtomic { cur: p }
    }

    /// A cell initially holding null with the given tag.
    pub fn null(bits: u64, tag: u64) -> (r: TaggedAtomic)
        requires
            1 <= bits < 64,
            tag & tag_mask(bits) == tag,
        ensures
            r.wf(),
            r.cur.bits == bits,
            r.cur.spec_is_null(),
            r.cur.spec_tag() == tag,
    {
        TaggedAtomic { cur: TaggedPtr::null(bits, tag) }
    }

    /// Atomically read the current pointer.  The witness ties the returned
    /// value's validity to the caller's pinned scope.
    pub fn load(&self, _pin: &Pin) -> (r: TaggedPtr)
        requires
            self.wf(),
        ensures
            r == self.cur,
    {
        self.cur
    }

    /// Atomically replace the current pointer.  The old contents are not
    /// retired here: the caller retires them once no future load can
    /// return them.
    pub fn store(&mut self, new: TaggedPtr, _pin: &Pin)
        requires
            old(self).wf(),
            new.wf(),
            new.bits == old(self).cur.bits,
        ensures
            final(self).wf(),
            final(self).cur == new,
    {
        self.cur = new;
    }

    /// Atomic compare-and-swap on the whole (address, tag) word: installs
    /// `new` exactly when the cell still holds `expected`; a failure
    /// reports the value actually found so the caller can retry.
    pub fn cas(&mut self, expected: TaggedPtr, new: TaggedPtr, _pin: &Pin) -> (r: Result<
        (),
        TaggedPtr,
    >)
        requires
            old(self).wf(),
            new.wf(),
            new.bits == old(self).cur.bits,
        ensures
            final(self).wf(),
            old(self).cur == expected ==> r == Result::<(), TaggedPtr>::Ok(())
                && final(self).cur == new,
            old(self).cur != expected ==> r == Result::<(), TaggedPtr>::Err(old(self).cur)
                && final(self).cur == old(self).cur,
    {
        if self.cur == expected {
            self.cur = new;
            Ok(())
        } else {
            Err(self.cur)
        }
    }

    /// The weak variant of [`Self::cas`]: it may fail spuriously, so its
    /// contract only promises that a success really installed `new` and
    /// that a failure reports the value found, unchanged.
    pub fn cas_weak(&mut self, expected: TaggedPtr, new: TaggedPtr, _pin: &Pin) -> (r: Result<
        (),
        TaggedPtr,
    >)
        requires
            old(self).wf(),
            new.wf(),
            new.bits == old(self).cur.bits,
        ensures
            final(self).wf(),
            r is Ok ==> old(self).cur == expected && final(self).cur == new,
            r is Err ==> r == Result::<(), TaggedPtr>::Err(old(self).cur)
                && final(self).cur == old(self).cur,
    {
        self.cas(expected, new, _pin)
    }
}

} // verus!
