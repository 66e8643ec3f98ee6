use metrics_exporters::exposition::Family;
use metrics_exporters::http_listener::{choose_format, negotiate_content_type, ResponseFormat};
use metrics_exporters::labels::{KeyLabel, MetricKey};
use metrics_exporters::observer::{
    add_counter_sample, escaped_value, observed_key_parts, observed_name,
    render_distribution_type_line, render_histogram_family, render_histogram_series,
    render_labeled_name, render_observed, render_totals, select_bucket_override, select_buckets,
    signed_decimal_string, HistogramSeries,
};
use metrics_exporters::push_gateway::basic_header;
use metrics_exporters::snapshot::record_sample;

#[test]
fn observed_names_replace_punctuation() {
    assert_eq!(observed_name("http.requests-total{x}=+"), "http_requests_total_x___");
    assert_eq!(observed_name("plain_name"), "plain_name");
}

#[test]
fn observed_label_values_are_escaped() {
    assert_eq!(escaped_value("a\\b\"c\nd"), "a\\\\b\\\"c\\nd");
    let key = MetricKey::from_parts(
        "db.query".to_string(),
        vec![KeyLabel::new("table".to_string(), "us\"ers".to_string())],
    );
    let (name, labels) = observed_key_parts(&key);
    assert_eq!(name, "db_query");
    assert_eq!(labels, vec!["table=\"us\\\"ers\"".to_string()]);
}

#[test]
fn labeled_names() {
    assert_eq!(render_labeled_name("m", &[]), "m");
    assert_eq!(render_labeled_name("m", &["a=\"1\"".to_string(), "b=\"2\"".to_string()]), "m{a=\"1\",b=\"2\"}");
}

#[test]
fn counters_add_up_and_gauges_keep_the_latest() {
    let mut counters: Vec<Family<u64>> = Vec::new();
    add_counter_sample(&mut counters, "hits".to_string(), vec![], 3);
    add_counter_sample(&mut counters, "hits".to_string(), vec![], 4);
    let mut gauges: Vec<Family<i64>> = Vec::new();
    record_sample(&mut gauges, "temp".to_string(), vec!["room=\"a\"".to_string()], 20);
    record_sample(&mut gauges, "temp".to_string(), vec!["room=\"a\"".to_string()], -5);
    let text = render_observed("# header", &counters, &gauges);
    assert_eq!(
        text,
        "# header\n# TYPE hits counter\nhits 7\n\n# TYPE temp gauge\ntemp{room=\"a\"} -5\n"
    );
}

#[test]
fn signed_values() {
    assert_eq!(signed_decimal_string(0), "0");
    assert_eq!(signed_decimal_string(-42), "-42");
    assert_eq!(signed_decimal_string(i64::MIN), "-9223372036854775808");
    assert_eq!(signed_decimal_string(i64::MAX), "9223372036854775807");
}

#[test]
fn content_type_negotiation() {
    assert!(matches!(negotiate_content_type(None), ResponseFormat::Text));
    assert!(matches!(negotiate_content_type(Some("text/plain")), ResponseFormat::Text));
    assert!(matches!(
        negotiate_content_type(Some(
            "application/vnd.google.protobuf; proto=io.prometheus.client.MetricFamily; encoding=delimited"
        )),
        ResponseFormat::Protobuf
    ));
    assert!(matches!(
        negotiate_content_type(Some("text/plain;q=0.5, Application/X-Protobuf")),
        ResponseFormat::Protobuf
    ));
}

#[test]
fn content_type_negotiation_non_text_header() {
    assert!(matches!(negotiate_content_type(Some("\u{e9}")), ResponseFormat::Text));
    assert!(matches!(
        negotiate_content_type(Some("text/html, \u{e9}, application/x-protobuf")),
        ResponseFormat::Text
    ));
}

#[test]
fn format_from_media_types() {
    let types = vec![("text".to_string(), "plain".to_string())];
    assert!(matches!(choose_format(&types), ResponseFormat::Text));
    let types = vec![
        ("text".to_string(), "plain".to_string()),
        ("APPLICATION".to_string(), "vnd.google.protobuf".to_string()),
    ];
    assert!(matches!(choose_format(&types), ResponseFormat::Protobuf));
}

#[test]
fn basic_header_prefix() {
    assert_eq!(basic_header(b"abc="), b"Basic abc=".to_vec());
}

#[test]
fn bucket_override_by_longest_suffix() {
    let overrides = vec![
        ("_seconds".to_string(), vec![1, 2]),
        ("request_seconds".to_string(), vec![5]),
        ("_bytes".to_string(), vec![100]),
    ];
    let default = vec![10, 20, 30];
    assert_eq!(select_buckets(&overrides, &default, "http_request_seconds"), &[5][..]);
    assert_eq!(select_buckets(&overrides, &default, "db_seconds"), &[1, 2][..]);
    assert_eq!(select_buckets(&overrides, &default, "body_bytes"), &[100][..]);
    assert_eq!(select_buckets(&overrides, &default, "requests"), &[10, 20, 30][..]);
    assert_eq!(select_bucket_override(&overrides, "requests"), None);
    assert_eq!(select_bucket_override(&overrides, "x_request_seconds"), Some(1));
    assert_eq!(select_buckets(&[], &[], "any"), &[] as &[u64]);
}

#[test]
fn histogram_family_text() {
    let series = vec![
        HistogramSeries { labels: vec![], bucket_counts: vec![1, 3], sum: 150, count: 4 },
        HistogramSeries {
            labels: vec!["a=\"b\"".to_string()],
            bucket_counts: vec![0, 2],
            sum: 70,
            count: 2,
        },
    ];
    let text = render_histogram_family("h", &[10, 100], &series);
    assert_eq!(
        text,
        "\n# TYPE h histogram\n\
         h_bucket{le=\"10\"} 1\n\
         h_bucket{le=\"100\"} 3\n\
         h_bucket{le=\"Inf+\"} 4\n\
         h_sum 150\n\
         h_count 4\n\
         h_bucket{a=\"b\",le=\"10\"} 0\n\
         h_bucket{a=\"b\",le=\"100\"} 2\n\
         h_bucket{a=\"b\",le=\"Inf+\"} 2\n\
         h_sum{a=\"b\"} 70\n\
         h_count{a=\"b\"} 2\n"
    );
    assert_eq!(
        render_histogram_series("h", &[10, 100], &series[0]),
        text["\n# TYPE h histogram\n".len()..]
            .split("h_bucket{a=")
            .next()
            .unwrap()
    );
}

#[test]
fn summary_type_line_and_totals() {
    assert_eq!(render_distribution_type_line("s", &[]), "\n# TYPE s summary\n");
    assert_eq!(render_distribution_type_line("s", &[1]), "\n# TYPE s histogram\n");
    assert_eq!(
        render_totals("s", &["k=\"v\"".to_string()], 12, 3),
        "s_sum{k=\"v\"} 12\ns_count{k=\"v\"} 3\n"
    );
}
