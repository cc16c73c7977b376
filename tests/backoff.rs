use lockfree::backoff::Backoff;

#[test]
fn backoff_doubles_up_to_threshold_and_resets() {
    let mut b = Backoff::new();
    assert_eq!(b.current(), 1);
    let mut seen = Vec::new();
    for _ in 0..10 {
        b.spin();
        seen.push(b.current());
    }
    assert_eq!(seen, vec![2, 4, 8, 16, 32, 64, 128, 128, 128, 128]);
    b.reset();
    assert_eq!(b.current(), 1);
}

#[test]
fn backoff_with_params_caps_at_power_of_two() {
    let mut b = Backoff::with_params(3, 3);
    assert_eq!(b.current(), 3);
    b.spin();
    assert_eq!(b.current(), 6);
    b.spin();
    assert_eq!(b.current(), 8);
    b.spin();
    assert_eq!(b.current(), 8);
}
