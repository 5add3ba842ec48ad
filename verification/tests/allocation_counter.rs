use moontfhe_native::allocation_counter::{start, stop, CountingAllocator};

#[test]
fn counting_happens_only_between_start_and_stop() {
    let mut counter = CountingAllocator::new();
    assert!(!counter.is_enabled());
    counter.record_allocation();
    assert_eq!(stop(&mut counter), 0);
    start(&mut counter);
    assert!(counter.is_enabled());
    for _ in 0..5 {
        counter.record_allocation();
    }
    assert_eq!(stop(&mut counter), 5);
    assert!(!counter.is_enabled());
    counter.record_allocation();
    assert_eq!(stop(&mut counter), 5);
}

#[test]
fn start_resets_the_count() {
    let mut counter = CountingAllocator::new();
    start(&mut counter);
    counter.record_allocation();
    counter.record_allocation();
    start(&mut counter);
    counter.record_allocation();
    assert_eq!(stop(&mut counter), 1);
}
