use metrics_exporters::rolling::{Placement, RollingSummary, Sketch};
use metrics_util::storage::Summary;

/// A summary of floating-point values.
struct Sum(Summary);

impl Sketch<f64> for Sum {
    fn empty() -> Self {
        Sum(Summary::with_defaults())
    }
    fn add_n(&mut self, value: f64, n: usize) {
        for _ in 0..n {
            self.0.add(value);
        }
    }
    fn merge(&mut self, other: &Self) {
        self.0.merge(&other.0).expect("merge can only fail if summary config inconsistent");
    }
}

const SEC: u64 = 1_000_000_000;

#[test]
fn new_rolling_summary() {
    let summary: RollingSummary<Sum> = RollingSummary::default();
    assert_eq!(0, summary.buckets().len());
    assert_eq!(0, summary.count());
    assert!(summary.is_empty());
}

#[test]
fn empty_snapshot() {
    let summary: RollingSummary<Sum> = RollingSummary::default();
    let snapshot = summary.snapshot(0);
    assert_eq!(0, snapshot.0.count());
    assert_eq!(f64::INFINITY, snapshot.0.min());
    assert_eq!(f64::NEG_INFINITY, snapshot.0.max());
    assert_eq!(None, snapshot.0.quantile(0.5));
}

#[test]
fn snapshot() {
    let mut now = 3600 * SEC;
    let mut summary: RollingSummary<Sum> = RollingSummary::default();
    summary.add(42.0, now);
    now += 20 * SEC;
    summary.add(42.0, now);
    now += 20 * SEC;
    summary.add(42.0, now);

    let snapshot = summary.snapshot(now);
    assert_eq!(42.0, snapshot.0.min());
    assert_eq!(42.0, snapshot.0.max());
    assert!(Some(41.9958) < snapshot.0.quantile(0.5));
    assert!(Some(42.0042) > snapshot.0.quantile(0.5));
}

#[test]
fn add_first_value() {
    let mut summary: RollingSummary<Sum> = RollingSummary::default();
    assert!(matches!(summary.add(42.0, 3600 * SEC), Placement::First));
    assert_eq!(1, summary.buckets().len());
    assert_eq!(1, summary.count());
    assert!(!summary.is_empty());
}

#[test]
fn add_new_head() {
    let mut summary: RollingSummary<Sum> = RollingSummary::default();
    summary.add(42.0, 3600 * SEC);
    assert!(matches!(summary.add(42.0, 3620 * SEC), Placement::NewHead(b) if b == 3620 * SEC));
    assert_eq!(2, summary.buckets().len());
}

#[test]
fn truncate_old_buckets() {
    let mut now = 3600 * SEC;
    let mut summary: RollingSummary<Sum> = RollingSummary::default();
    summary.add(42.0, now);
    for _ in 0..3 {
        now += 20 * SEC;
        summary.add(42.0, now);
    }
    assert_eq!(3, summary.buckets().len());
}

#[test]
fn add_value_ts_before_first_bucket() {
    let mut summary: RollingSummary<Sum> = RollingSummary::new(2, 5 * SEC);
    assert_eq!(0, summary.buckets().len());
    assert_eq!(0, summary.count());

    summary.add(42.0, 4 * SEC);
    assert_eq!(1, summary.buckets().len());
    assert_eq!(1, summary.count());
    assert!(!summary.is_empty());

    // A value before the first bucket counts, but is not kept.
    assert!(matches!(summary.add(43.0, 3 * SEC), Placement::Dropped));
    assert_eq!(1, summary.buckets().len());
    assert_eq!(2, summary.count());
    assert!(!summary.is_empty());
}

#[test]
fn rolling_summary_add_n_equals_repeated_add() {
    let mut now = 3600 * SEC;
    let mut repeated: RollingSummary<Sum> = RollingSummary::default();
    let mut counted: RollingSummary<Sum> = RollingSummary::default();

    for (v, n) in [(42.0, 500usize), (7.0, 250)] {
        for _ in 0..n {
            repeated.add(v, now);
        }
        counted.add_n(v, n, now);
        now += 20 * SEC;
    }
    counted.add_n(9.0, 0, now);

    assert_eq!(repeated.count(), counted.count());
    assert_eq!(repeated.buckets().len(), counted.buckets().len());
    let (r, c) = (repeated.snapshot(now), counted.snapshot(now));
    assert_eq!(r.0.count(), c.0.count());
    for q in [0.25, 0.5, 0.75, 0.99] {
        assert_eq!(r.0.quantile(q), c.0.quantile(q), "quantile {q} diverged");
    }
}

#[test]
fn new_buckets_are_aligned_on_the_newest() {
    let mut summary: RollingSummary<Sum> = RollingSummary::new(3, 10 * SEC);
    summary.add(1.0, 100 * SEC);
    // 125s is in the bucket starting at 120s, counted from 100s in steps of 10s.
    assert!(matches!(summary.add(1.0, 125 * SEC), Placement::NewHead(b) if b == 120 * SEC));
    // Same time again: the same bucket.
    assert!(matches!(summary.add(1.0, 125 * SEC), Placement::Existing(0)));
    // An older time within the old bucket.
    assert!(matches!(summary.add(1.0, 105 * SEC), Placement::Existing(1)));
}

#[test]
fn expired_buckets_make_room_for_a_first_one() {
    let mut summary: RollingSummary<Sum> = RollingSummary::new(2, 10 * SEC);
    summary.add(1.0, 100 * SEC);
    // Everything began 20s or more before: expired, so the value starts afresh.
    assert!(matches!(summary.add(1.0, 500 * SEC), Placement::First));
    assert_eq!(summary.buckets()[0].begin, 500 * SEC);
}
