//! Tagged and untagged pointer values and their atomic cells.

use epoch::{pin, register, unpin, Atomic, Global, Ptr, TaggedAtomic, TaggedPtr};

#[test]
fn with_tag_round_trips_for_all_widths() {
    for bits in 1..16u64 {
        let mask = (1u64 << bits) - 1;
        let addr = 0x10000u64;
        let p = TaggedPtr::pack(addr, bits, 0);
        for t in [0u64, 1, mask / 2, mask] {
            let q = p.with_tag(t);
            assert_eq!(q.tag(), t);
            assert_eq!(q.addr(), addr);
            assert!(!q.is_null());
        }
    }
}

#[test]
fn with_tag_preserves_null() {
    let n = TaggedPtr::null(3, 0);
    assert!(n.is_null());
    assert_eq!(n.tag(), 0);
    let m = n.with_tag(5);
    assert!(m.is_null());
    assert_eq!(m.tag(), 5);
    assert_eq!(m.addr(), 0);
    let back = m.with_tag(0);
    assert!(back.is_null());
    assert_eq!(back.tag(), 0);
}

#[test]
fn pack_splits_word_into_address_and_tag() {
    let p = TaggedPtr::pack(0x80, 4, 9);
    assert_eq!(p.data, 0x80 | 9);
    assert_eq!(p.addr(), 0x80);
    assert_eq!(p.tag(), 9);
}

#[test]
fn tagged_cas_succeeds_only_on_exact_word() {
    let mut g = Global::new();
    let mut a = register(&mut g, 1);
    let p = pin(&mut g, &mut a);

    let head = TaggedPtr::pack(0x100, 1, 0);
    let mut link = TaggedAtomic::new(head);

    // a logical deletion: same address, tag flipped to one, in one step
    let deleted = head.with_tag(1);
    assert!(link.cas(head, deleted, &p).is_ok());
    assert_eq!(link.load(&p).tag(), 1);
    assert_eq!(link.load(&p).addr(), 0x100);

    // a racing insert that still expects the undeleted word must fail and
    // learn the value actually present
    let replacement = TaggedPtr::pack(0x200, 1, 0);
    match link.cas(head, replacement, &p) {
        Ok(()) => panic!("compare-and-swap must not succeed on a changed word"),
        Err(cur) => {
            assert_eq!(cur.addr(), 0x100);
            assert_eq!(cur.tag(), 1);
        },
    }
    assert_eq!(link.load(&p).addr(), 0x100);
    unpin(&mut g, &mut a, p);
}

#[test]
fn atomic_cell_load_store_cas() {
    let mut g = Global::new();
    let mut a = register(&mut g, 1);
    let p = pin(&mut g, &mut a);

    let mut cell = Atomic::null();
    assert!(cell.load(&p).is_null());

    let x = Ptr::new(0x10);
    cell.store(x, &p);
    assert_eq!(cell.load(&p).addr, 0x10);

    let y = Ptr::new(0x20);
    assert!(cell.cas(x, y, &p).is_ok());
    assert_eq!(cell.load(&p).addr, 0x20);

    match cell.cas(x, Ptr::new(0x30), &p) {
        Ok(()) => panic!("compare-and-swap must not succeed on a changed cell"),
        Err(cur) => assert_eq!(cur.addr, 0x20),
    }

    match cell.cas_weak(y, Ptr::new(0x30), &p) {
        Ok(()) => assert_eq!(cell.load(&p).addr, 0x30),
        Err(cur) => assert_eq!(cur.addr, 0x20),
    }
    unpin(&mut g, &mut a, p);
}

#[test]
fn unlinked_tagged_pointer_retires_its_address() {
    let mut g = Global::new();
    let mut a = register(&mut g, 1);
    let p = pin(&mut g, &mut a);
    let node = TaggedPtr::pack(0x1000, 2, 3);
    node.unlinked(&p, &mut g, &mut a);
    // the address, stripped of its tag, now sits in the thread's bag
    assert_eq!(a.bag.objects, vec![0x1000]);
    unpin(&mut g, &mut a, p);
}
