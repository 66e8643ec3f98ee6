use indexmap::IndexMap;
use metrics_exporters::distribution::{matcher_in_order, sort_by_matcher, DistributionChoice, DistributionSelector};
use metrics_exporters::exposition::{
    decimal_string, render_exposition, CounterFamily, DistributionFamily, GaugeFamily,
    RenderedDistribution,
};
use metrics_exporters::formatting::{
    add_suffix_to_name, invalid_label_key_character, invalid_label_key_start_character,
    invalid_metric_name_character, invalid_metric_name_start_character, key_to_parts,
    sanitize_description, sanitize_label_key, sanitize_label_value, sanitize_metric_name,
    write_help_line, write_metric_line, write_type_line, Matcher,
};
use metrics_exporters::labels::{KeyLabel, MetricKey};

#[test]
fn test_sanitize_metric_name_known_cases() {
    let cases = &[
        ("*", "_"),
        ("\"", "_"),
        ("foo_bar", "foo_bar"),
        ("foo1_bar", "foo1_bar"),
        ("1foobar", "_foobar"),
        ("foo1:bar2", "foo1:bar2"),
        ("123", "_23"),
    ];

    for (input, expected) in cases {
        let result = sanitize_metric_name(input);
        assert_eq!(expected, &result);
    }
}

#[test]
fn test_sanitize_label_key_known_cases() {
    let cases = &[
        ("*", "_"),
        ("\"", "_"),
        (":", "_"),
        ("foo_bar", "foo_bar"),
        ("1foobar", "_foobar"),
        ("__foobar", "__foobar"),
        ("foo1bar2", "foo1bar2"),
        ("123", "_23"),
    ];

    for (input, expected) in cases {
        let result = sanitize_label_key(input);
        assert_eq!(expected, &result);
    }
}

#[test]
fn test_sanitize_label_value_known_cases() {
    let cases = &[
        ("*", "*"),
        ("\"", "\\\""),
        ("\\", "\\\\"),
        ("\\\\", "\\\\"),
        ("\n", "\\n"),
        ("foo_bar", "foo_bar"),
        ("1foobar", "1foobar"),
    ];

    for (input, expected) in cases {
        let result = sanitize_label_value(input);
        assert_eq!(expected, &result);
    }
}

#[test]
fn test_sanitize_description_known_cases() {
    let cases = &[
        ("*", "*"),
        ("\"", "\""),
        ("\\", "\\\\"),
        ("\\\\", "\\\\"),
        ("\n", "\\n"),
        ("foo_bar", "foo_bar"),
        ("1foobar", "1foobar"),
    ];

    for (input, expected) in cases {
        let result = sanitize_description(input);
        assert_eq!(expected, &result);
    }
}

#[test]
fn sanitized_names_and_keys_are_valid_and_stable() {
    for input in ["", "a", "9lives", "__x", "a-b.c d", "héllo:wörld", "\n\"\\"] {
        let name = sanitize_metric_name(input);
        let chars: Vec<char> = name.chars().collect();
        assert_eq!(chars.len(), input.chars().count());
        if let Some(c) = chars.first() {
            assert!(!invalid_metric_name_start_character(*c));
        }
        assert!(!chars.iter().any(|c| invalid_metric_name_character(*c)));
        assert_eq!(sanitize_metric_name(&name), name);

        let key = sanitize_label_key(input);
        let chars: Vec<char> = key.chars().collect();
        if let Some(c) = chars.first() {
            assert!(!invalid_label_key_start_character(*c));
        }
        assert!(!chars.iter().any(|c| invalid_label_key_character(*c)));
        assert_eq!(sanitize_label_key(&key), key);
    }
}

#[test]
fn escaped_values_have_no_raw_newlines() {
    let v = sanitize_label_value("a\nb\"c\\");
    assert_eq!(v, "a\\nb\\\"c\\\\");
    assert!(!v.contains('\n'));
    let d = sanitize_description("line one\nline \"two\"");
    assert_eq!(d, "line one\\nline \"two\"");
    assert_eq!(sanitize_label_value("plain"), "plain");
}

#[test]
fn test_add_suffix_to_name() {
    assert_eq!(add_suffix_to_name("requests".to_owned(), Some("total")), "requests_total");
    assert_eq!(add_suffix_to_name("requests_total".to_owned(), Some("total")), "requests_total");
    assert_eq!(add_suffix_to_name("requests".to_owned(), None), "requests");
}

#[test]
fn exposition_lines() {
    let mut buf = String::new();
    write_help_line(&mut buf, "reqs", "Total\nrequests");
    write_type_line(&mut buf, "reqs", "counter");
    write_metric_line(&mut buf, "reqs", None, &[], None, "1");
    write_metric_line(
        &mut buf,
        "lat",
        Some("bucket"),
        &["a=\"b\"".to_string(), "c=\"d\"".to_string()],
        Some(("le", "0.5")),
        "3",
    );
    write_metric_line(&mut buf, "lat", Some("sum"), &[], Some(("le", "+Inf")), "7");
    assert_eq!(
        buf,
        "# HELP reqs Total\\nrequests\n# TYPE reqs counter\nreqs 1\n\
         lat_bucket{a=\"b\",c=\"d\",le=\"0.5\"} 3\nlat_sum{le=\"+Inf\"} 7\n"
    );
}

#[test]
fn key_parts_merge_default_labels() {
    let key = MetricKey::from_parts(
        "1http requests".to_string(),
        vec![
            KeyLabel::new("method".to_string(), "GET".to_string()),
            KeyLabel::new("env".to_string(), "prod\n".to_string()),
        ],
    );
    let mut defaults = IndexMap::new();
    defaults.insert("env".to_string(), "dev".to_string());
    defaults.insert("host".to_string(), "a\"b".to_string());
    let (name, labels) = key_to_parts(&key, Some(&defaults));
    assert_eq!(name, "_http_requests");
    assert_eq!(
        labels,
        vec![
            "env=\"prod\\n\"".to_string(),
            "host=\"a\\\"b\"".to_string(),
            "method=\"GET\"".to_string()
        ]
    );
    let (_, none) = key_to_parts(&MetricKey::from_name("x".to_string()), None);
    assert!(none.is_empty());
}

#[test]
fn matchers_match_and_sanitize() {
    assert!(Matcher::Full("a_b".to_string()).matches("a_b"));
    assert!(!Matcher::Full("a_b".to_string()).matches("a_bc"));
    assert!(Matcher::Prefix("http_".to_string()).matches("http_requests"));
    assert!(Matcher::Suffix("_seconds".to_string()).matches("latency_seconds"));
    assert!(!Matcher::Suffix("_seconds".to_string()).matches("latency"));
    match Matcher::Prefix("9 bad".to_string()).sanitized() {
        Matcher::Prefix(p) => assert_eq!(p, "__bad"),
        _ => panic!("kind changed"),
    }
}

#[test]
fn distribution_type_and_choice() {
    let sel = DistributionSelector {
        native_histogram_overrides: Some(vec![Matcher::Prefix("native_".to_string())]),
        has_buckets: false,
        bucket_overrides: Some(vec![
            Matcher::Suffix("_seconds".to_string()),
            Matcher::Full("size_bytes".to_string()),
        ]),
    };
    assert_eq!(sel.get_distribution_type("native_latency"), "native_histogram");
    assert_eq!(sel.get_distribution_type("size_bytes"), "histogram");
    assert_eq!(sel.get_distribution_type("other"), "summary");
    assert!(matches!(sel.get_distribution("native_x"), DistributionChoice::NativeHistogram(0)));
    assert!(matches!(sel.get_distribution("size_bytes"), DistributionChoice::BucketOverride(1)));
    assert!(matches!(sel.get_distribution("other"), DistributionChoice::Summary));
    let global = DistributionSelector {
        native_histogram_overrides: None,
        has_buckets: true,
        bucket_overrides: None,
    };
    assert_eq!(global.get_distribution_type("x"), "histogram");
    assert!(matches!(global.get_distribution("x"), DistributionChoice::GlobalBuckets));
}

#[test]
fn decimal_strings() {
    assert_eq!(decimal_string(0), "0");
    assert_eq!(decimal_string(1027), "1027");
    assert_eq!(decimal_string(u64::MAX), "18446744073709551615");
}

#[test]
fn render_full_exposition() {
    let counters = vec![CounterFamily {
        name: "requests".to_string(),
        samples: vec![(vec!["method=\"GET\"".to_string()], 3), (vec![], 1)],
    }];
    let gauges = vec![GaugeFamily {
        name: "temperature".to_string(),
        samples: vec![(vec![], "21.5".to_string())],
    }];
    let distributions = vec![
        DistributionFamily {
            name: "latency".to_string(),
            samples: vec![(
                vec![],
                RenderedDistribution::Summary {
                    quantiles: vec![("0.5".to_string(), "2".to_string())],
                    sum: "10".to_string(),
                    count: 4,
                },
            )],
        },
        DistributionFamily {
            name: "size_bytes".to_string(),
            samples: vec![(
                vec!["k=\"v\"".to_string()],
                RenderedDistribution::Histogram {
                    buckets: vec![("1".to_string(), 2)],
                    sum: "3.5".to_string(),
                    count: 5,
                },
            )],
        },
        DistributionFamily {
            name: "native_x".to_string(),
            samples: vec![(vec![], RenderedDistribution::NativeHistogram)],
        },
    ];
    let descriptions = vec![("requests".to_string(), "All requests".to_string())];
    let sel = DistributionSelector {
        native_histogram_overrides: Some(vec![Matcher::Prefix("native_".to_string())]),
        has_buckets: false,
        bucket_overrides: Some(vec![Matcher::Full("size_bytes".to_string())]),
    };
    let out = render_exposition(&counters, &gauges, &distributions, &descriptions, Some("total"), &sel);
    let expected = "# HELP requests All requests\n\
# TYPE requests counter\n\
requests_total{method=\"GET\"} 3\n\
requests_total 1\n\
\n\
# TYPE temperature gauge\n\
temperature 21.5\n\
\n\
# TYPE latency summary\n\
latency{quantile=\"0.5\"} 2\n\
latency_sum 10\n\
latency_count 4\n\
\n\
# TYPE size_bytes histogram\n\
size_bytes_bucket{k=\"v\",le=\"1\"} 2\n\
size_bytes_bucket{k=\"v\",le=\"+Inf\"} 5\n\
size_bytes_sum{k=\"v\"} 3.5\n\
size_bytes_count{k=\"v\"} 5\n\
\n";
    assert_eq!(out, expected);
}

#[test]
fn render_empty_snapshot() {
    let sel = DistributionSelector {
        native_histogram_overrides: None,
        has_buckets: false,
        bucket_overrides: None,
    };
    assert_eq!(render_exposition(&[], &[], &[], &[], None, &sel), "");
}

#[test]
fn key_labels_override_global_labels() {
    let mut globals = IndexMap::new();
    globals.insert("service".to_string(), "api".to_string());
    globals.insert("region".to_string(), "eu".to_string());
    let key = MetricKey::from_parts(
        "requests".to_string(),
        vec![
            KeyLabel::new("region".to_string(), "us".to_string()),
            KeyLabel::new("region".to_string(), "ap".to_string()),
        ],
    );
    let (_, labels) = key_to_parts(&key, Some(&globals));
    assert_eq!(labels, vec!["service=\"api\"".to_string(), "region=\"ap\"".to_string()]);
}

#[test]
fn description_keeps_its_quotes() {
    for input in ["a\"b", "\\\"x\"\n", "\"\"\"", "plain", "tail\\"] {
        let out = sanitize_description(input);
        assert_eq!(out.matches('"').count(), input.matches('"').count());
        assert!(!out.contains('\n'));
    }
    assert_eq!(sanitize_description("no quotes \\ here\n"), sanitize_label_value("no quotes \\ here\n"));
}

#[test]
fn overrides_are_ordered_by_matcher() {
    let entries = vec![
        (Matcher::Suffix("_b".to_string()), 1),
        (Matcher::Prefix("zz".to_string()), 2),
        (Matcher::Full("b".to_string()), 3),
        (Matcher::Prefix("a".to_string()), 4),
        (Matcher::Full("a".to_string()), 5),
        (Matcher::Suffix("_a".to_string()), 6),
        (Matcher::Full("ab".to_string()), 7),
    ];
    let sorted = sort_by_matcher(entries.clone());
    let order: Vec<i32> = sorted.iter().map(|(_, v)| *v).collect();
    assert_eq!(order, vec![5, 7, 3, 4, 2, 6, 1]);
    let mut expected = entries;
    expected.sort_by(|a, b| a.0.cmp(&b.0));
    assert_eq!(sorted, expected);
    assert!(matcher_in_order(&Matcher::Full("z".to_string()), &Matcher::Prefix("a".to_string())));
    assert!(!matcher_in_order(&Matcher::Prefix("b".to_string()), &Matcher::Prefix("a".to_string())));
    assert!(matcher_in_order(&Matcher::Prefix("\u{e9}".to_string()), &Matcher::Prefix("\u{1F600}".to_string())));
}
