use metrics_exporters::dogstatsd::storage::{AtomicCounter, ClientSideAggregatedStorage, HistogramStorage};

#[test]
fn atomic_counter_increment() {
    let mut counter = AtomicCounter::new();
    assert_eq!(counter.flush(), (0, 0));

    counter.increment(42);
    assert_eq!(counter.flush(), (42, 1));

    let large_amount = u64::MAX - u64::from(u16::MAX);
    counter.increment(large_amount);
    assert_eq!(counter.flush(), (large_amount, 1));
}

#[test]
fn atomic_counter_absolute() {
    let first_value = 42;

    let second_value_delta = 87;
    let second_value = first_value + second_value_delta;

    let third_value_delta = 13;
    let third_value = second_value + third_value_delta;

    let mut counter = AtomicCounter::new();
    assert_eq!(counter.flush(), (0, 0));

    counter.absolute(first_value);
    assert_eq!(counter.flush(), (0, 1));

    counter.absolute(second_value);
    assert_eq!(counter.flush(), (second_value_delta, 1));

    counter.absolute(third_value);
    assert_eq!(counter.flush(), (third_value_delta, 1));
}

#[test]
fn atomic_counter_absolute_multiple_updates_before_first_flush() {
    let first_value = 42;
    let second_value_delta = 66;
    let second_value = first_value + second_value_delta;

    let mut counter = AtomicCounter::new();
    assert_eq!(counter.flush(), (0, 0));

    counter.absolute(first_value);
    counter.absolute(second_value);
    assert_eq!(counter.flush(), (second_value_delta, 2));
}

#[test]
fn atomic_counter_incremental_to_absolute_reset() {
    let mut counter = AtomicCounter::new();
    assert_eq!(counter.flush(), (0, 0));

    counter.increment(27);
    counter.absolute(42);
    assert_eq!(counter.flush(), (0, 2));

    counter.increment(13);
    assert_eq!(counter.flush(), (13, 1));

    counter.absolute(87);
    assert_eq!(counter.flush(), (0, 1));

    counter.increment(78);
    assert_eq!(counter.flush(), (78, 1));
}

#[test]
fn counter_reports_wrapping_sum_of_increments() {
    let mut counter = AtomicCounter::new();
    counter.increment(u64::MAX);
    counter.increment(3);
    assert_eq!(counter.flush(), (2, 2));
}

#[test]
fn counter_flushed_twice_reports_nothing_the_second_time() {
    let mut counter = AtomicCounter::new();
    counter.increment(5);
    counter.increment(6);
    assert_eq!(counter.flush(), (11, 2));
    assert_eq!(counter.flush(), (0, 0));
}

#[test]
fn consecutive_absolute_values_report_their_difference() {
    let mut counter = AtomicCounter::new();
    counter.absolute(100);
    counter.flush();
    counter.absolute(250);
    assert_eq!(counter.flush(), (150, 1));
    // A smaller absolute value wraps around.
    counter.absolute(249);
    assert_eq!(counter.flush(), (u64::MAX, 1));
}

#[test]
fn storage_picks_histogram_storage() {
    let raw = ClientSideAggregatedStorage::new(false, 1024);
    assert!(matches!(raw.histogram_storage(), HistogramStorage::Raw));
    let sampled = ClientSideAggregatedStorage::new(true, 512);
    assert!(matches!(sampled.histogram_storage(), HistogramStorage::Sampled(512)));
    let mut c = raw.counter();
    assert_eq!(c.flush(), (0, 0));
}
