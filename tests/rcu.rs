use lockfree::rcu::Rcu;

#[test]
fn update_then_read_sees_new_value() {
    let mut rcu = Rcu::new(0u64);
    let reader = rcu.register_reader();
    rcu.update(5);
    let g = rcu.read(&reader);
    assert_eq!(*rcu.get(&g), 5);
    rcu.release(g);
    assert_eq!(rcu.reader_count(0), 0);
    assert_eq!(rcu.reader_count(1), 0);
}

#[test]
fn sequential_updates_end_on_last_value() {
    let mut rcu = Rcu::new(0u64);
    let reader = rcu.register_reader();
    for i in 1..100u64 {
        let g = rcu.read(&reader);
        let v = *rcu.get(&g);
        assert!(v < 100);
        assert_eq!(v, i - 1);
        rcu.release(g);
        rcu.update(i);
    }
    let g = rcu.read(&reader);
    assert_eq!(*rcu.get(&g), 99);
    rcu.release(g);
}

#[test]
fn nested_reads_count_once_per_epoch() {
    let mut rcu = Rcu::new(10u32);
    let reader = rcu.register_reader();
    let g1 = rcu.read(&reader);
    let g2 = rcu.read(&reader);
    assert_eq!(rcu.reader_count(0), 1);
    assert_eq!(rcu.nested_count(&reader, 0), 2);
    rcu.release(g1);
    assert_eq!(rcu.reader_count(0), 1);
    rcu.release(g2);
    assert_eq!(rcu.reader_count(0), 0);
    assert_eq!(rcu.nested_count(&reader, 0), 0);
}

#[test]
fn two_readers_count_separately() {
    let mut rcu = Rcu::new(10u32);
    let a = rcu.register_reader();
    let b = rcu.register_reader();
    let ga = rcu.read(&a);
    let gb = rcu.read(&b);
    assert_eq!(rcu.reader_count(0), 2);
    rcu.release(ga);
    assert_eq!(rcu.reader_count(0), 1);
    rcu.release(gb);
    assert_eq!(rcu.reader_count(0), 0);
}

#[test]
fn old_version_stays_readable_for_one_update() {
    let mut rcu = Rcu::new(1u32);
    let reader = rcu.register_reader();
    let g = rcu.read(&reader);
    assert_eq!(rcu.current_epoch(), 0);
    rcu.update(2);
    assert_eq!(rcu.current_epoch(), 1);
    // the reader of epoch 0 still sees the version it pinned
    assert_eq!(*rcu.get(&g), 1);
    // a second update would need epoch 0 drained: it is refused
    assert!(!rcu.try_update(3));
    assert_eq!(*rcu.get(&g), 1);
    rcu.release(g);
    assert!(rcu.try_update(3));
    let g = rcu.read(&reader);
    assert_eq!(*rcu.get(&g), 3);
    rcu.release(g);
}

#[test]
fn try_update_scenario_from_a_pinned_epoch() {
    let mut rcu = Rcu::new(0i32);
    let reader = rcu.register_reader();
    assert!(rcu.try_update(1));
    let g = rcu.read(&reader);
    assert!(rcu.try_update(2));
    assert!(!rcu.try_update(3));
    assert_eq!(*rcu.get(&g), 1);
    let g2 = rcu.read(&reader);
    assert_eq!(*rcu.get(&g2), 2);
    rcu.release(g2);
    rcu.release(g);
}
