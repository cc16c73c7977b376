use lockfree::hp::HazardPointerArray;
use lockfree::ms_queue::MSQueue;

#[test]
fn ms_queue_test_basic_operations() {
    let mut array = HazardPointerArray::new();
    let mut q = MSQueue::new();
    let mut guard = array.register_thread().ok().unwrap();

    q.enqueue(1, &mut guard, &mut array);
    q.enqueue(2, &mut guard, &mut array);
    q.enqueue(3, &mut guard, &mut array);
    q.enqueue(4, &mut guard, &mut array);

    let results = vec![
        q.dequeue(&mut guard, &mut array).unwrap(),
        q.dequeue(&mut guard, &mut array).unwrap(),
        q.dequeue(&mut guard, &mut array).unwrap(),
        q.dequeue(&mut guard, &mut array).unwrap(),
    ];

    assert_eq!(results, vec![1, 2, 3, 4]);
}

#[test]
fn ms_queue_empty_dequeue_is_none() {
    let mut array = HazardPointerArray::new();
    let mut q: MSQueue<i32> = MSQueue::new();
    let mut guard = array.register_thread().ok().unwrap();
    assert_eq!(q.dequeue(&mut guard, &mut array), None);
    assert!(q.enqueue(7, &mut guard, &mut array));
    assert_eq!(q.dequeue(&mut guard, &mut array), Some(7));
    assert_eq!(q.dequeue(&mut guard, &mut array), None);
}

#[test]
fn ms_queue_round_trip_on_empty_queue() {
    let mut array = HazardPointerArray::new();
    let mut q: MSQueue<u64> = MSQueue::new();
    let mut guard = array.register_thread().ok().unwrap();
    q.enqueue(42, &mut guard, &mut array);
    assert_eq!(q.dequeue(&mut guard, &mut array), Some(42));
}

#[test]
fn ms_queue_fifo_and_conservation_over_many_operations() {
    let mut array = HazardPointerArray::new();
    let mut q: MSQueue<usize> = MSQueue::new();
    let mut guard = array.register_thread().ok().unwrap();
    let mut out = Vec::new();
    for i in 0..512usize {
        q.enqueue(i, &mut guard, &mut array);
        if i % 3 == 0 {
            out.push(q.dequeue(&mut guard, &mut array).unwrap());
        }
    }
    while let Some(v) = q.dequeue(&mut guard, &mut array) {
        out.push(v);
    }
    assert_eq!(out, (0..512usize).collect::<Vec<_>>());
    // every slot of the band is free again once the operations are done
    for i in 0..16 {
        assert_eq!(array.slot(guard.starting_index() + i), 0);
    }
}

#[test]
fn ms_queue_works_with_a_guard_holding_other_slots() {
    let mut array = HazardPointerArray::new();
    let mut q: MSQueue<u8> = MSQueue::new();
    let mut guard = array.register_thread().ok().unwrap();
    let held = guard.protect(&mut array, 1000).ok().unwrap();
    assert_eq!(held.slot_index(), 0);
    q.enqueue(3, &mut guard, &mut array);
    q.enqueue(4, &mut guard, &mut array);
    assert_eq!(q.dequeue(&mut guard, &mut array), Some(3));
    // the held protection is untouched and the slots used meanwhile are null again
    assert_eq!(array.slot(guard.starting_index()), 1000);
    assert_eq!(array.slot(guard.starting_index() + 1), 0);
    assert_eq!(array.slot(guard.starting_index() + 2), 0);
    guard.unprotect(&mut array, &held);
    assert_eq!(q.dequeue(&mut guard, &mut array), Some(4));
}
