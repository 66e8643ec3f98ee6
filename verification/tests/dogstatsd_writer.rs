use metrics_exporters::dogstatsd::writer::{MetricType, PayloadWriter};
use metrics_exporters::labels::{KeyLabel, MetricKey};

fn key(name: &str, labels: &[(&str, &str)]) -> MetricKey {
    MetricKey::from_parts(
        name.to_string(),
        labels.iter().map(|(k, v)| KeyLabel::new(k.to_string(), v.to_string())).collect(),
    )
}

fn labels(pairs: &[(&str, &str)]) -> Vec<KeyLabel> {
    pairs.iter().map(|(k, v)| KeyLabel::new(k.to_string(), v.to_string())).collect()
}

fn values(vs: &[&str]) -> Vec<Vec<u8>> {
    vs.iter().map(|v| v.as_bytes().to_vec()).collect()
}

fn buf_from_writer(writer: &mut PayloadWriter) -> Vec<u8> {
    let mut payloads = writer.payloads();
    let mut buf = Vec::new();
    while let Some(payload) = payloads.next_payload() {
        buf.extend_from_slice(&payload);
    }
    buf
}

fn string_from_writer(writer: &mut PayloadWriter) -> String {
    String::from_utf8(buf_from_writer(writer)).unwrap()
}

#[test]
fn counter() {
    let g = labels(&[("gfoo", "bar"), ("gbaz", "quux")]);
    let cases: Vec<(MetricKey, u64, Option<u64>, Option<&str>, &[KeyLabel], &str)> = vec![
        (key("test_counter", &[]), 91919, None, None, &[][..], "test_counter:91919|c\n"),
        (key("test_counter", &[]), 666, Some(345678), None, &[], "test_counter:666|c|T345678\n"),
        (
            key("test_counter", &[("bug", "boop")]),
            12345,
            None,
            None,
            &[],
            "test_counter:12345|c|#bug:boop\n",
        ),
        (
            key("test_counter", &[("foo", "bar"), ("baz", "quux")]),
            777,
            Some(234567),
            None,
            &[],
            "test_counter:777|c|#foo:bar,baz:quux|T234567\n",
        ),
        (
            key("test_counter", &[("foo", "bar"), ("baz", "quux")]),
            777,
            Some(234567),
            Some("server1"),
            &[],
            "server1.test_counter:777|c|#foo:bar,baz:quux|T234567\n",
        ),
        (
            key("test_counter", &[("foo", "bar"), ("baz", "quux")]),
            777,
            Some(234567),
            None,
            &g[..],
            "test_counter:777|c|#foo:bar,baz:quux,gfoo:bar,gbaz:quux|T234567\n",
        ),
        (
            key("test_counter", &[("foo", "bar"), ("baz", "quux")]),
            777,
            Some(234567),
            Some("server1"),
            &g[..],
            "server1.test_counter:777|c|#foo:bar,baz:quux,gfoo:bar,gbaz:quux|T234567\n",
        ),
    ];

    for (key, value, ts, prefix, global_labels, expected) in cases {
        let mut writer = PayloadWriter::new(8192, false).with_global_labels(global_labels);
        let result = writer.write_counter(&key, value, ts, prefix);
        assert_eq!(result.payloads_written(), 1);

        let actual = string_from_writer(&mut writer);
        assert_eq!(actual, expected);
    }
}

#[test]
fn gauge() {
    let g = labels(&[("gfoo", "bar"), ("gbaz", "quux")]);
    let cases: Vec<(MetricKey, &str, Option<u64>, Option<&str>, &[KeyLabel], &str)> = vec![
        (key("test_gauge", &[]), "42.0", None, None, &[][..], "test_gauge:42.0|g\n"),
        (key("test_gauge", &[]), "1967.0", Some(345678), None, &[], "test_gauge:1967.0|g|T345678\n"),
        (
            key("test_gauge", &[("foo", "bar"), ("baz", "quux")]),
            "3.13232",
            None,
            None,
            &[],
            "test_gauge:3.13232|g|#foo:bar,baz:quux\n",
        ),
        (
            key("test_gauge", &[("foo", "bar"), ("baz", "quux")]),
            "3.13232",
            Some(234567),
            None,
            &[],
            "test_gauge:3.13232|g|#foo:bar,baz:quux|T234567\n",
        ),
        (
            key("test_gauge", &[("foo", "bar"), ("baz", "quux")]),
            "3.13232",
            Some(234567),
            Some("server1"),
            &[],
            "server1.test_gauge:3.13232|g|#foo:bar,baz:quux|T234567\n",
        ),
        (
            key("test_gauge", &[("foo", "bar"), ("baz", "quux")]),
            "3.13232",
            Some(234567),
            None,
            &g[..],
            "test_gauge:3.13232|g|#foo:bar,baz:quux,gfoo:bar,gbaz:quux|T234567\n",
        ),
        (
            key("test_gauge", &[("foo", "bar"), ("baz", "quux")]),
            "3.13232",
            Some(234567),
            Some("server1"),
            &g[..],
            "server1.test_gauge:3.13232|g|#foo:bar,baz:quux,gfoo:bar,gbaz:quux|T234567\n",
        ),
    ];

    for (key, value, ts, prefix, global_labels, expected) in cases {
        let mut writer = PayloadWriter::new(8192, false).with_global_labels(global_labels);
        let result = writer.write_gauge(&key, value.as_bytes(), ts, prefix);
        assert_eq!(result.payloads_written(), 1);

        let actual = string_from_writer(&mut writer);
        assert_eq!(actual, expected);
    }
}

#[test]
fn histogram() {
    let g = labels(&[("gfoo", "bar"), ("gbaz", "quux")]);
    let cases: Vec<(MetricKey, Vec<&str>, Option<&str>, &[KeyLabel], &str)> = vec![
        (key("test_histogram", &[]), vec!["22.22"], None, &[][..], "test_histogram:22.22|h\n"),
        (
            key("test_histogram", &[("foo", "bar"), ("baz", "quux")]),
            vec!["88.0"],
            None,
            &[],
            "test_histogram:88.0|h|#foo:bar,baz:quux\n",
        ),
        (
            key("test_histogram", &[]),
            vec!["22.22", "33.33", "44.44"],
            None,
            &[],
            "test_histogram:22.22:33.33:44.44|h\n",
        ),
        (
            key("test_histogram", &[("foo", "bar"), ("baz", "quux")]),
            vec!["88.0", "66.6", "123.4"],
            None,
            &[],
            "test_histogram:88.0:66.6:123.4|h|#foo:bar,baz:quux\n",
        ),
        (
            key("test_histogram", &[("foo", "bar"), ("baz", "quux")]),
            vec!["88.0", "66.6", "123.4"],
            Some("server1"),
            &[],
            "server1.test_histogram:88.0:66.6:123.4|h|#foo:bar,baz:quux\n",
        ),
        (
            key("test_histogram", &[("foo", "bar"), ("baz", "quux")]),
            vec!["88.0", "66.6", "123.4"],
            None,
            &g[..],
            "test_histogram:88.0:66.6:123.4|h|#foo:bar,baz:quux,gfoo:bar,gbaz:quux\n",
        ),
        (
            key("test_histogram", &[("foo", "bar"), ("baz", "quux")]),
            vec!["88.0", "66.6", "123.4"],
            Some("server1"),
            &g[..],
            "server1.test_histogram:88.0:66.6:123.4|h|#foo:bar,baz:quux,gfoo:bar,gbaz:quux\n",
        ),
    ];

    for (key, vs, prefix, global_labels, expected) in cases {
        let mut writer = PayloadWriter::new(8192, false).with_global_labels(global_labels);
        let result = writer.write_histogram(&key, &values(&vs), None, prefix);
        assert_eq!(result.payloads_written(), 1);

        let actual = string_from_writer(&mut writer);
        assert_eq!(actual, expected);
    }
}

#[test]
fn distribution() {
    let g = labels(&[("gfoo", "bar"), ("gbaz", "quux")]);
    let cases: Vec<(MetricKey, Vec<&str>, Option<&str>, &[KeyLabel], &str)> = vec![
        (key("test_distribution", &[]), vec!["22.22"], None, &[][..], "test_distribution:22.22|d\n"),
        (
            key("test_distribution", &[("foo", "bar"), ("baz", "quux")]),
            vec!["88.0"],
            None,
            &[],
            "test_distribution:88.0|d|#foo:bar,baz:quux\n",
        ),
        (
            key("test_distribution", &[]),
            vec!["22.22", "33.33", "44.44"],
            None,
            &[],
            "test_distribution:22.22:33.33:44.44|d\n",
        ),
        (
            key("test_distribution", &[("foo", "bar"), ("baz", "quux")]),
            vec!["88.0", "66.6", "123.4"],
            None,
            &[],
            "test_distribution:88.0:66.6:123.4|d|#foo:bar,baz:quux\n",
        ),
        (
            key("test_distribution", &[("foo", "bar"), ("baz", "quux")]),
            vec!["88.0", "66.6", "123.4"],
            Some("server1"),
            &[],
            "server1.test_distribution:88.0:66.6:123.4|d|#foo:bar,baz:quux\n",
        ),
        (
            key("test_distribution", &[("foo", "bar"), ("baz", "quux")]),
            vec!["88.0", "66.6", "123.4"],
            None,
            &g[..],
            "test_distribution:88.0:66.6:123.4|d|#foo:bar,baz:quux,gfoo:bar,gbaz:quux\n",
        ),
        (
            key("test_distribution", &[("foo", "bar"), ("baz", "quux")]),
            vec!["88.0", "66.6", "123.4"],
            Some("server1"),
            &g[..],
            "server1.test_distribution:88.0:66.6:123.4|d|#foo:bar,baz:quux,gfoo:bar,gbaz:quux\n",
        ),
    ];

    for (key, vs, prefix, global_labels, expected) in cases {
        let mut writer = PayloadWriter::new(8192, false).with_global_labels(global_labels);
        let result = writer.write_distribution(&key, &values(&vs), None, prefix);
        assert_eq!(result.payloads_written(), 1);

        let actual = string_from_writer(&mut writer);
        assert_eq!(actual, expected);
    }
}

#[test]
fn length_prefix() {
    let prefixed = |buf: &str| {
        let mut prefixed_buf = Vec::with_capacity(buf.len() + 4);
        prefixed_buf.extend_from_slice(&(buf.len() as u32).to_le_bytes());
        prefixed_buf.extend_from_slice(buf.as_bytes());
        prefixed_buf
    };

    let cases = vec![
        (key("test_distribution", &[]), vec!["22.22"], prefixed("test_distribution:22.22|d\n")),
        (
            key("test_distribution", &[("foo", "bar"), ("baz", "quux")]),
            vec!["88.0"],
            prefixed("test_distribution:88.0|d|#foo:bar,baz:quux\n"),
        ),
        (
            key("test_distribution", &[]),
            vec!["22.22", "33.33", "44.44"],
            prefixed("test_distribution:22.22:33.33:44.44|d\n"),
        ),
        (
            key("test_distribution", &[("foo", "bar"), ("baz", "quux")]),
            vec!["88.0", "66.6", "123.4"],
            prefixed("test_distribution:88.0:66.6:123.4|d|#foo:bar,baz:quux\n"),
        ),
    ];

    for (key, vs, expected) in cases {
        let mut writer = PayloadWriter::new(8192, true);
        let result = writer.write_distribution(&key, &values(&vs), None, None);
        assert_eq!(result.payloads_written(), 1);

        let actual = buf_from_writer(&mut writer);
        assert_eq!(actual, expected);
    }
}

#[test]
fn metrics_share_a_payload_until_it_is_full() {
    // Each line is 6 bytes ("a:1|c\n"); a 12-byte limit fits two per payload.
    let mut writer = PayloadWriter::new(12, false);
    let k = key("a", &[]);
    for _ in 0..5 {
        let r = writer.write_counter(&k, 1, None, None);
        assert_eq!(r.payloads_written(), 1);
        assert!(!r.any_failures());
    }
    let mut payloads = writer.payloads();
    assert_eq!(payloads.len(), 3);
    assert_eq!(payloads.next_payload().unwrap(), b"a:1|c\na:1|c\n".to_vec());
    assert_eq!(payloads.next_payload().unwrap(), b"a:1|c\na:1|c\n".to_vec());
    assert_eq!(payloads.next_payload().unwrap(), b"a:1|c\n".to_vec());
    assert_eq!(payloads.len(), 0);
    assert!(payloads.next_payload().is_none());
}

#[test]
fn oversized_metric_is_dropped() {
    let mut writer = PayloadWriter::new(8, false);
    let r = writer.write_counter(&key("too_long_a_name", &[]), 1, None, None);
    assert_eq!(r.payloads_written(), 0);
    assert_eq!(r.points_dropped(), 1);
    assert!(r.any_failures());
    assert_eq!(writer.payloads().len(), 0);
}

#[test]
fn histogram_values_are_split_over_lines() {
    // "h:11:22|h\n" is exactly 10 bytes, so a 10-byte limit puts two values on a line.
    let mut writer = PayloadWriter::new(10, false);
    let r = writer.write_histogram(&key("h", &[]), &values(&["11", "22", "33"]), None, None);
    assert_eq!(r.payloads_written(), 2);
    assert_eq!(r.points_dropped(), 0);
    assert_eq!(string_from_writer(&mut writer), "h:11:22|h\nh:33|h\n");
}

#[test]
fn histogram_with_sample_rate() {
    let mut writer = PayloadWriter::new(8192, false);
    let r = writer.write_histogram(&key("h", &[]), &values(&["1", "2"]), Some(b"0.5"), None);
    assert_eq!(r.payloads_written(), 1);
    assert_eq!(string_from_writer(&mut writer), "h:1:2|h|@0.5\n");
}

#[test]
fn metric_type_bytes() {
    assert_eq!(MetricType::Counter.as_bytes(), b"|c".to_vec());
    assert_eq!(MetricType::Gauge.as_bytes(), b"|g".to_vec());
    assert_eq!(MetricType::Histogram.as_bytes(), b"|h".to_vec());
    assert_eq!(MetricType::Distribution.as_bytes(), b"|d".to_vec());
}

#[test]
fn length_prefixed_writer_is_reusable_after_payloads() {
    let mut writer = PayloadWriter::new(64, true);
    let k = key("a", &[]);
    assert_eq!(writer.write_counter(&k, 1, None, None).payloads_written(), 1);
    assert_eq!(buf_from_writer(&mut writer), b"\x06\x00\x00\x00a:1|c\n".to_vec());
    assert_eq!(writer.write_counter(&k, 22, None, None).payloads_written(), 1);
    assert_eq!(buf_from_writer(&mut writer), b"\x07\x00\x00\x00a:22|c\n".to_vec());
    assert!(buf_from_writer(&mut writer).is_empty());
}
