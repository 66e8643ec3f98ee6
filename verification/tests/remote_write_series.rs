use metrics_exporters::remote_write::{TimeSeries, WriteLabel};

fn label(name: &str, value: &str) -> WriteLabel {
    WriteLabel { name: name.to_string(), value: value.to_string() }
}

#[test]
fn time_series_labels_and_samples_are_sorted() {
    let mut series = TimeSeries {
        labels: vec![label("zone", "a"), label("__name__", "m"), label("job", "x"), label("b", "1")],
        samples: vec![(3.5f64, 30i64), (1.0, -5), (2.0, 10), (4.0, 10)],
    };
    series.sort_labels_and_samples();
    let names: Vec<&str> = series.labels.iter().map(|l| l.name.as_str()).collect();
    assert_eq!(names, vec!["__name__", "b", "job", "zone"]);
    let values: Vec<&str> = series.labels.iter().map(|l| l.value.as_str()).collect();
    assert_eq!(values, vec!["m", "1", "x", "a"]);
    assert_eq!(series.samples, vec![(1.0, -5), (2.0, 10), (4.0, 10), (3.5, 30)]);
}

#[test]
fn empty_time_series_stays_empty() {
    let mut series: TimeSeries<f64> = TimeSeries { labels: vec![], samples: vec![] };
    series.sort_labels_and_samples();
    assert!(series.labels.is_empty() && series.samples.is_empty());
}

#[test]
fn time_series_sort_is_stable() {
    let mut series = TimeSeries {
        labels: vec![label("b", "first"), label("a", "x"), label("b", "second"), label("b", "third")],
        samples: vec![(1.0f64, 5i64), (2.0, 1), (3.0, 5), (4.0, 5), (5.0, 1)],
    };
    series.sort_labels_and_samples();
    let labels: Vec<(&str, &str)> =
        series.labels.iter().map(|l| (l.name.as_str(), l.value.as_str())).collect();
    assert_eq!(labels, vec![("a", "x"), ("b", "first"), ("b", "second"), ("b", "third")]);
    assert_eq!(series.samples, vec![(2.0, 1), (5.0, 1), (1.0, 5), (3.0, 5), (4.0, 5)]);
}
