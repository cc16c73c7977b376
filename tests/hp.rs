use lockfree::hp::{HazardPointerArray, ProtectionError, RegisterThreadError, SCAN_THRESHOLD};
use lockfree::pool::NodePool;

#[test]
fn fifth_registration_fails() {
    let mut array = HazardPointerArray::new();
    let g0 = array.register_thread().ok().unwrap();
    let g1 = array.register_thread().ok().unwrap();
    let g2 = array.register_thread().ok().unwrap();
    let g3 = array.register_thread().ok().unwrap();
    assert_eq!(g0.starting_index(), 0);
    assert_eq!(g1.starting_index(), 16);
    assert_eq!(g2.starting_index(), 32);
    assert_eq!(g3.starting_index(), 48);
    assert!(matches!(array.register_thread(), Err(RegisterThreadError::NoAvailableIndices)));
    let mut pool: NodePool<u8> = NodePool::new();
    g1.unregister_thread(&mut array, &mut pool);
    let again = array.register_thread().ok().unwrap();
    assert_eq!(again.starting_index(), 16);
}

#[test]
fn protect_null_and_exhausted_band() {
    let mut array = HazardPointerArray::new();
    let mut guard = array.register_thread().ok().unwrap();
    assert!(matches!(guard.protect(&mut array, 0), Err(ProtectionError::NullPointer)));
    let mut held = Vec::new();
    for i in 0..16usize {
        let p = guard.protect(&mut array, 2 * (i + 1)).ok().unwrap();
        assert_eq!(p.slot_index(), i);
        assert_eq!(array.slot(i), 2 * (i + 1));
        held.push(p);
    }
    assert!(matches!(guard.protect(&mut array, 2), Err(ProtectionError::NoAvailableIndices)));
    guard.unprotect(&mut array, &held[5]);
    assert_eq!(array.slot(5), 0);
    let p = guard.protect(&mut array, 100).ok().unwrap();
    assert_eq!(p.slot_index(), 5);
    assert_eq!(p.as_ptr(), 100);
    assert_eq!(p.into_raw(), 100);
}

#[test]
fn scan_frees_only_unprotected_retired_nodes() {
    let mut array = HazardPointerArray::new();
    let mut guard = array.register_thread().ok().unwrap();
    let mut other = array.register_thread().ok().unwrap();
    let mut pool: NodePool<u32> = NodePool::new();
    let mut addrs = Vec::new();
    for i in 0..(SCAN_THRESHOLD + 1) {
        addrs.push(pool.allocate(i as u32, 0, 0));
    }
    // another thread still protects the first node
    let _kept = other.protect(&mut array, addrs[0]).ok().unwrap();
    for i in 0..SCAN_THRESHOLD {
        guard.retire_raw_pointer(&array, &mut pool, addrs[i]);
        assert_eq!(guard.retired_count(), i + 1);
    }
    assert!(addrs.iter().all(|a| pool.is_live(*a)));
    guard.retire_raw_pointer(&array, &mut pool, addrs[SCAN_THRESHOLD]);
    assert_eq!(guard.retired_count(), 1);
    assert!(pool.is_live(addrs[0]));
    for a in &addrs[1..] {
        assert!(!pool.is_live(*a));
    }
}

#[test]
fn retire_node_releases_the_slot() {
    let mut array = HazardPointerArray::new();
    let mut guard = array.register_thread().ok().unwrap();
    let mut pool: NodePool<u32> = NodePool::new();
    let a = pool.allocate(5, 0, 0);
    let p = guard.protect(&mut array, a).ok().unwrap();
    assert_eq!(array.slot(0), a);
    guard.retire_node(&mut array, &mut pool, p);
    assert_eq!(array.slot(0), 0);
    assert_eq!(guard.retired_count(), 1);
    assert!(pool.is_live(a));
}
