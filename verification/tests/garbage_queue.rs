//! Bags, the stamped queue, and the epoch arithmetic they rest on.

use epoch::epoch::{epoch_add2, epoch_since};
use epoch::{Bag, GarbageQueue, BAG_CAPACITY, COLLECT_DISTANCE, EPOCH_STEP};

#[test]
fn epoch_arithmetic_steps_and_wraps() {
    assert_eq!(EPOCH_STEP, 2);
    assert_eq!(epoch_add2(0), 2);
    assert_eq!(epoch_add2(2), 4);
    assert_eq!(epoch_add2(u64::MAX - 1), 0);
    assert_eq!(epoch_since(6, 2), 4);
    assert_eq!(epoch_since(2, 2), 0);
    // distance across the wrap: the young side is ahead of the old side
    assert_eq!(epoch_since(2, u64::MAX - 1), 4);
}

#[test]
fn bag_accepts_exactly_its_capacity() {
    let mut bag = Bag::new();
    for obj in 0..BAG_CAPACITY as u64 {
        assert!(bag.try_insert(obj));
    }
    assert_eq!(bag.len(), BAG_CAPACITY);
    // one more is refused, and the bag is left untouched
    assert!(!bag.try_insert(123456));
    assert_eq!(bag.len(), BAG_CAPACITY);
}

#[test]
fn collect_drains_only_bags_a_generation_old() {
    let mut q = GarbageQueue::new();
    q.push(vec![10, 11], 0);
    q.push(vec![20], 2);
    q.push(vec![30], 4);
    let mut disposed: Vec<u64> = Vec::new();

    // at epoch 4 the first bag is exactly one generation old
    q.collect(4, &mut disposed);
    assert_eq!(disposed, vec![10, 11]);
    assert_eq!(q.len(), 2);

    // nothing has aged in place: a second pass at the same epoch is idle
    q.collect(4, &mut disposed);
    assert_eq!(disposed, vec![10, 11]);

    // two more steps release the rest, in retirement order
    q.collect(4 + 2 * COLLECT_DISTANCE, &mut disposed);
    assert_eq!(disposed, vec![10, 11, 20, 30]);
    assert_eq!(q.len(), 0);
}

#[test]
fn collect_stops_at_the_first_young_bag() {
    let mut q = GarbageQueue::new();
    // a young bag ahead of an old one: draining must stop at the young
    // bag even though the one behind it would qualify
    q.push(vec![1], 10);
    q.push(vec![2], 0);
    let mut disposed: Vec<u64> = Vec::new();
    q.collect(12, &mut disposed);
    assert!(disposed.is_empty());
    assert_eq!(q.len(), 2);
}
