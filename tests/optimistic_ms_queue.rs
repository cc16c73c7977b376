use lockfree::hp::HazardPointerArray;
use lockfree::optimistic_ms_queue::OMSQueue;

#[test]
fn optimistic_ms_queue_test_basic_operations() {
    let mut array = HazardPointerArray::new();
    let mut q = OMSQueue::new();
    let mut guard = array.register_thread().ok().unwrap();

    q.enqueue(1, &mut guard, &mut array);
    q.enqueue(2, &mut guard, &mut array);
    q.enqueue(3, &mut guard, &mut array);
    q.enqueue(4, &mut guard, &mut array);

    let results = vec![
        q.dequeue(&mut guard, &mut array).unwrap(),
        q.dequeue(&mut guard, &mut array).unwrap(),
        q.dequeue(&mut guard, &mut array).unwrap(),
        q.dequeue(&mut guard, &mut array).unwrap(),
    ];

    assert_eq!(results, vec![1, 2, 3, 4]);
}

#[test]
fn optimistic_ms_queue_empty_dequeue_is_none() {
    let mut array = HazardPointerArray::new();
    let mut q: OMSQueue<i64> = OMSQueue::new();
    let mut guard = array.register_thread().ok().unwrap();
    assert_eq!(q.dequeue(&mut guard, &mut array), None);
    q.enqueue(-5, &mut guard, &mut array);
    assert_eq!(q.dequeue(&mut guard, &mut array), Some(-5));
    assert_eq!(q.dequeue(&mut guard, &mut array), None);
}

#[test]
fn optimistic_ms_queue_fifo_over_many_operations() {
    let mut array = HazardPointerArray::new();
    let mut q: OMSQueue<usize> = OMSQueue::new();
    let mut guard = array.register_thread().ok().unwrap();
    let mut out = Vec::new();
    for i in 0..300usize {
        q.enqueue(i, &mut guard, &mut array);
        if i % 2 == 1 {
            out.push(q.dequeue(&mut guard, &mut array).unwrap());
        }
    }
    while let Some(v) = q.dequeue(&mut guard, &mut array) {
        out.push(v);
    }
    assert_eq!(out, (0..300usize).collect::<Vec<_>>());
}

#[test]
fn optimistic_ms_queue_works_with_a_guard_holding_other_slots() {
    let mut array = HazardPointerArray::new();
    let mut q: OMSQueue<u8> = OMSQueue::new();
    let mut guard = array.register_thread().ok().unwrap();
    let held = guard.protect(&mut array, 1000).ok().unwrap();
    q.enqueue(3, &mut guard, &mut array);
    q.enqueue(4, &mut guard, &mut array);
    assert_eq!(q.dequeue(&mut guard, &mut array), Some(3));
    assert_eq!(q.dequeue(&mut guard, &mut array), Some(4));
    assert_eq!(q.dequeue(&mut guard, &mut array), None);
    assert_eq!(array.slot(guard.starting_index() + held.slot_index()), 1000);
    for i in 1..4 {
        assert_eq!(array.slot(guard.starting_index() + i), 0);
    }
}
