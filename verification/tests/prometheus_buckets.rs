use metrics_exporters::render::{
    can_halve_buckets, get_labels, halve_bucket_resolution, make_buckets, record_fits, record_in_bucket,
    reduce_bucket_resolution, MetricKind, NativeBuckets,
};
use std::collections::BTreeMap;

fn buckets(entries: &[(i32, u64)]) -> BTreeMap<i32, u64> {
    entries.iter().copied().collect()
}

#[test]
fn make_buckets_empty() {
    let (spans, deltas) = make_buckets(BTreeMap::new());
    assert!(spans.is_empty());
    assert!(deltas.is_empty());
}

#[test]
fn make_buckets_single() {
    let (spans, deltas) = make_buckets(buckets(&[(2, 5)]));
    assert_eq!(spans.len(), 1);
    assert_eq!(spans[0].offset, 2);
    assert_eq!(spans[0].length, 1);
    assert_eq!(deltas, vec![5]);
}

#[test]
fn make_buckets_contiguous() {
    let (spans, deltas) = make_buckets(buckets(&[(0, 1), (1, 2), (2, 3)]));
    assert_eq!(spans.len(), 1);
    assert_eq!(spans[0].offset, 0);
    assert_eq!(spans[0].length, 3);
    assert_eq!(deltas, vec![1, 1, 1]);
}

#[test]
fn make_buckets_small_gap_merged() {
    let (spans, deltas) = make_buckets(buckets(&[(0, 4), (3, 4)]));
    assert_eq!(spans.len(), 1, "gap of <=2 must not create a new span");
    assert_eq!(spans[0].offset, 0);
    assert_eq!(spans[0].length, 4);
    assert_eq!(deltas, vec![4, -4, 0, 4]);
}

#[test]
fn make_buckets_large_gap_new_span() {
    let (spans, deltas) = make_buckets(buckets(&[(0, 4), (4, 7)]));
    assert_eq!(spans.len(), 2, "gap of >2 must create a new span");
    assert_eq!(spans[0].offset, 0);
    assert_eq!(spans[0].length, 1);
    assert_eq!(spans[1].offset, 4 - 1);
    assert_eq!(spans[1].length, 1);
    assert_eq!(deltas, vec![4, 3]);
}

#[test]
fn make_buckets_negative_indices() {
    let (spans, deltas) = make_buckets(buckets(&[(-2, 3), (-1, 5)]));
    assert_eq!(spans.len(), 1);
    assert_eq!(spans[0].offset, -2);
    assert_eq!(spans[0].length, 2);
    assert_eq!(deltas, vec![3, 2]);
}

#[test]
fn make_buckets_decreasing_counts() {
    let (spans, deltas) = make_buckets(buckets(&[(5, 10), (6, 2), (10, 2)]));
    assert_eq!(spans.len(), 2);
    assert_eq!((spans[0].offset, spans[0].length), (5, 2));
    assert_eq!((spans[1].offset, spans[1].length), (3, 1));
    assert_eq!(deltas, vec![10, -8, 0]);
}

#[test]
fn labels_split_into_pairs() {
    let pairs = get_labels(vec![
        ("method".to_string(), "GET".to_string()),
        ("code".to_string(), "200".to_string()),
    ]);
    assert_eq!(pairs.len(), 2);
    assert_eq!(pairs[0].label, "method");
    assert_eq!(pairs[0].value, "GET");
    assert_eq!(pairs[1].label, "code");
    assert_eq!(pairs[1].value, "200");
    assert!(MetricKind::Counter != MetricKind::Gauge);
}

/// Reads spans and deltas back into `(index, count)` buckets.
fn decode(spans: &[metrics_exporters::render::BucketSpan], deltas: &[i64]) -> Vec<(i64, i64)> {
    let mut out = Vec::new();
    let mut next: i64 = 0;
    let mut count: i64 = 0;
    let mut k = 0;
    for span in spans {
        next += span.offset as i64;
        for _ in 0..span.length {
            count += deltas[k];
            k += 1;
            out.push((next, count));
            next += 1;
        }
    }
    out
}

#[test]
fn make_buckets_decode_round_trip() {
    let input = buckets(&[(-3, 2), (-1, 7), (0, 0), (4, 1), (100, 9)]);
    let (spans, deltas) = make_buckets(input);
    // The gap of one bucket at -2 is bridged with an empty bucket; the others start spans.
    assert_eq!(
        decode(&spans, &deltas),
        vec![(-3, 2), (-2, 0), (-1, 7), (0, 0), (4, 1), (100, 9)]
    );
}

#[test]
fn halving_resolution_merges_neighbouring_buckets() {
    let halved = halve_bucket_resolution(buckets(&[(-3, 1), (-2, 2), (-1, 4), (0, 8), (1, 16), (2, 32), (5, 64)]));
    let expected = buckets(&[(-1, 3), (0, 12), (1, 48), (3, 64)]);
    assert_eq!(halved, expected);
}

#[test]
fn halving_resolution_of_no_buckets() {
    assert!(halve_bucket_resolution(BTreeMap::new()).is_empty());
}

#[test]
fn later_spans_start_more_than_two_buckets_apart() {
    let (spans, _) = make_buckets(buckets(&[(0, 1), (2, 1), (6, 1), (9, 1), (20, 1)]));
    assert!(spans.len() > 1);
    for span in spans.iter().skip(1) {
        assert!(span.offset > 2);
    }
}

#[test]
fn reducing_resolution_lowers_the_schema_down_to_its_floor() {
    let b = NativeBuckets { schema: 3, positive: buckets(&[(1, 1), (2, 2), (3, 4)]), negative: buckets(&[(-1, 5)]) };
    let r = reduce_bucket_resolution(b);
    assert_eq!(r.schema, 2);
    assert_eq!(r.positive, buckets(&[(1, 3), (2, 4)]));
    assert_eq!(r.negative, buckets(&[(0, 5)]));
    let total: u64 = r.positive.values().sum();
    assert_eq!(total, 7);

    let floor = NativeBuckets { schema: -4, positive: buckets(&[(1, 1), (2, 2)]), negative: BTreeMap::new() };
    let r = reduce_bucket_resolution(floor);
    assert_eq!(r.schema, -4);
    assert_eq!(r.positive, buckets(&[(1, 1), (2, 2)]));
}

#[test]
fn recording_in_buckets_counts_and_limits_them() {
    let mut b = NativeBuckets { schema: 0, positive: BTreeMap::new(), negative: BTreeMap::new() };
    // Keys of 1, 2, 4, 8 at schema 0, with at most 2 buckets.
    for key in [1, 2, 3, 4] {
        assert!(record_fits(&b, false, key, 2));
        record_in_bucket(&mut b, false, key, 2);
    }
    assert!(b.schema < 0);
    let total: u64 = b.positive.values().sum();
    assert_eq!(total, 4);
    assert!(b.negative.is_empty());

    let mut b = NativeBuckets { schema: 2, positive: BTreeMap::new(), negative: BTreeMap::new() };
    assert!(record_in_bucket(&mut b, true, -5, 10));
    assert!(!record_in_bucket(&mut b, true, -5, 10));
    assert_eq!(b.negative, buckets(&[(-5, 2)]));
    assert_eq!(b.schema, 2);
    // Without a limit the resolution is never reduced.
    for key in 0..20 {
        record_in_bucket(&mut b, false, key, 0);
    }
    assert_eq!(b.schema, 2);
    assert_eq!(b.positive.len(), 20);
}

#[test]
fn recording_that_would_overflow_does_not_fit() {
    let b = NativeBuckets { schema: 1, positive: buckets(&[(3, u64::MAX)]), negative: BTreeMap::new() };
    assert!(!record_fits(&b, false, 3, 0));
    assert!(record_fits(&b, true, 3, 0));
    let b = NativeBuckets { schema: 1, positive: buckets(&[(3, u64::MAX)]), negative: BTreeMap::new() };
    // Adding bucket 4 goes over a limit of one bucket, and 3 and 4 cannot be merged.
    assert!(!record_fits(&b, false, 4, 1));
    assert!(!can_halve_buckets(&buckets(&[(3, u64::MAX), (4, 1)])));
    assert!(can_halve_buckets(&buckets(&[(3, u64::MAX), (5, 1)])));
    assert!(!can_halve_buckets(&buckets(&[(i32::MAX, 1)])));
}
