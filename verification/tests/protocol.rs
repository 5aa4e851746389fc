//! The epoch protocol end to end: pinning, advancing, retirement and
//! collection, driven through the public operations.

use epoch::{collect, defer_free, pin, register, thread_exit, try_advance, unpin, Atomic, Global,
    Ptr, BAG_CAPACITY, PINS_BETWEEN_COLLECT};

#[test]
fn pinned_thread_at_old_epoch_blocks_advance() {
    let mut g = Global::new();
    let mut a = register(&mut g, 1);
    let p = pin(&mut g, &mut a);
    assert_eq!(g.epoch, 0);
    // the pinned thread reports the current epoch, so one advance goes through
    try_advance(&mut g);
    assert_eq!(g.epoch, 2);
    // now it is pinned at an older epoch: no attempt may advance further
    for _ in 0..10 {
        try_advance(&mut g);
        assert_eq!(g.epoch, 2);
    }
    unpin(&mut g, &mut a, p);
    try_advance(&mut g);
    assert_eq!(g.epoch, 4);
}

#[test]
fn advance_moves_in_steps_of_two() {
    let mut g = Global::new();
    for i in 0..5u64 {
        assert_eq!(g.epoch, 2 * i);
        try_advance(&mut g);
    }
    assert_eq!(g.epoch, 10);
}

#[test]
fn concurrent_registration_loses_no_entry() {
    let mut g = Global::new();
    let mut harnesses = Vec::new();
    for id in 1..=5u64 {
        harnesses.push(register(&mut g, id));
    }
    assert_eq!(g.threads.len(), 5);
    for id in 1..=5u64 {
        assert!(g.threads.iter().any(|t| t.id == id && !t.deleted));
    }
}

#[test]
fn registry_keeps_live_thread_and_removes_exited_thread_once() {
    let mut g = Global::new();
    let a = register(&mut g, 1);
    let b = register(&mut g, 2);
    let _ = a;
    thread_exit(&mut g, b);
    // the exited thread is logically deleted but still linked
    assert!(g.threads.iter().any(|t| t.id == 2 && t.deleted));
    // an advance scan unlinks it and retires the entry
    try_advance(&mut g);
    assert!(g.threads.iter().all(|t| t.id != 2));
    assert!(g.threads.iter().any(|t| t.id == 1));
    let retired: usize = g
        .garbage
        .bags
        .iter()
        .map(|bag| bag.objects.iter().filter(|&&o| o == 2).count())
        .sum();
    assert_eq!(retired, 1);
    // later advances do not retire it again
    try_advance(&mut g);
    try_advance(&mut g);
    let retired_again: usize = g
        .garbage
        .bags
        .iter()
        .map(|bag| bag.objects.iter().filter(|&&o| o == 2).count())
        .sum();
    assert_eq!(retired_again, 1);
}

#[test]
fn reader_keeps_retired_object_alive_until_it_unpins() {
    let mut g = Global::new();
    let mut a = register(&mut g, 1);
    let mut b = register(&mut g, 2);

    // thread A pins and loads X out of the shared cell
    let pa = pin(&mut g, &mut a);
    let mut cell = Atomic::new(Ptr::new(100));
    let x = cell.load(&pa);
    assert_eq!(x.addr, 100);

    // thread B swaps the cell to Y and retires X
    let pb = pin(&mut g, &mut b);
    cell.store(Ptr::new(200), &pb);
    x.unlinked(&pb, &mut g, &mut b);
    unpin(&mut g, &mut b, pb);
    thread_exit(&mut g, b);

    // while A stays pinned the epoch cannot age X's bag enough
    for _ in 0..10 {
        try_advance(&mut g);
        collect(&mut g);
        assert!(!g.disposed.contains(&100));
    }

    // once A unpins, two further advances age the bag a whole generation
    unpin(&mut g, &mut a, pa);
    try_advance(&mut g);
    collect(&mut g);
    try_advance(&mut g);
    collect(&mut g);
    assert!(g.disposed.contains(&100));
}

#[test]
fn pin_cadence_triggers_one_advance_by_the_129th_pin() {
    let mut g = Global::new();
    let mut a = register(&mut g, 1);
    let n = PINS_BETWEEN_COLLECT as usize;
    // the first 127 pinnings attempt nothing
    for _ in 0..n - 1 {
        let p = pin(&mut g, &mut a);
        unpin(&mut g, &mut a, p);
        assert_eq!(g.epoch, 0);
    }
    // the 128th pinning reaches the threshold: exactly one attempt, which
    // succeeds because the only thread just pinned at the current epoch
    let p = pin(&mut g, &mut a);
    unpin(&mut g, &mut a, p);
    assert_eq!(g.epoch, 2);
    // the 129th pinning attempts nothing further
    let p = pin(&mut g, &mut a);
    unpin(&mut g, &mut a, p);
    assert_eq!(g.epoch, 2);
}

#[test]
fn reentrant_pin_is_a_no_op() {
    let mut g = Global::new();
    let mut a = register(&mut g, 1);
    let outer = pin(&mut g, &mut a);
    assert!(outer.entered);
    let count = a.pin_count;
    let inner = pin(&mut g, &mut a);
    assert!(!inner.entered);
    assert_eq!(a.pin_count, count);
    unpin(&mut g, &mut a, inner);
    assert!(a.is_pinned);
    unpin(&mut g, &mut a, outer);
    assert!(!a.is_pinned);
}

#[test]
fn bag_overflow_flushes_through_defer_free() {
    let mut g = Global::new();
    let mut a = register(&mut g, 1);
    let p = pin(&mut g, &mut a);
    // exactly the bag's capacity of retirements never flushes
    for obj in 0..BAG_CAPACITY as u64 {
        defer_free(obj, &p, &mut g, &mut a);
    }
    assert_eq!(a.bag.objects.len(), BAG_CAPACITY);
    assert_eq!(g.garbage.bags.len(), 0);
    // one more seals the old bag and starts the fresh one with the object
    defer_free(999, &p, &mut g, &mut a);
    assert_eq!(g.garbage.bags.len(), 1);
    assert_eq!(g.garbage.bags[0].objects.len(), BAG_CAPACITY);
    assert_eq!(a.bag.objects.len(), 1);
    assert_eq!(a.bag.objects[0], 999);
    unpin(&mut g, &mut a, p);
}

#[test]
fn quiet_state_drains_the_whole_queue() {
    let mut g = Global::new();
    let a = register(&mut g, 1);
    thread_exit(&mut g, a);
    let b = register(&mut g, 2);
    thread_exit(&mut g, b);
    try_advance(&mut g);
    try_advance(&mut g);
    try_advance(&mut g);
    collect(&mut g);
    assert_eq!(g.garbage.bags.len(), 0);
}
