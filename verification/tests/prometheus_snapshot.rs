use metrics_exporters::exposition::CounterFamily;
use metrics_exporters::snapshot::{find_sample, forget_sample, record_sample, same_labels};

fn labels(ls: &[&str]) -> Vec<String> {
    ls.iter().map(|l| l.to_string()).collect()
}

#[test]
fn samples_are_grouped_by_name_and_labels() {
    let mut families: Vec<CounterFamily> = Vec::new();
    record_sample(&mut families, "a".to_string(), labels(&["x=\"1\""]), 1);
    record_sample(&mut families, "b".to_string(), labels(&[]), 2);
    record_sample(&mut families, "a".to_string(), labels(&["x=\"2\""]), 3);
    record_sample(&mut families, "a".to_string(), labels(&["x=\"1\""]), 4);
    assert_eq!(families.len(), 2);
    assert_eq!(families[0].name, "a");
    assert_eq!(families[0].samples, vec![(labels(&["x=\"1\""]), 4), (labels(&["x=\"2\""]), 3)]);
    assert_eq!(families[1].name, "b");
    assert_eq!(families[1].samples, vec![(labels(&[]), 2)]);
}

#[test]
fn latest_value_wins() {
    let mut once: Vec<CounterFamily> = Vec::new();
    record_sample(&mut once, "n".to_string(), labels(&["k=\"v\""]), 9);
    let mut twice: Vec<CounterFamily> = Vec::new();
    record_sample(&mut twice, "n".to_string(), labels(&["k=\"v\""]), 1);
    record_sample(&mut twice, "n".to_string(), labels(&["k=\"v\""]), 9);
    assert_eq!(once.len(), twice.len());
    assert_eq!(once[0].samples, twice[0].samples);
}

#[test]
fn label_sets_compare_in_order() {
    assert!(same_labels(&labels(&["a", "b"]), &labels(&["a", "b"])));
    assert!(!same_labels(&labels(&["a", "b"]), &labels(&["b", "a"])));
    assert!(!same_labels(&labels(&["a"]), &labels(&["a", "b"])));
}

#[test]
fn forgetting_samples_removes_emptied_families() {
    let mut families: Vec<CounterFamily> = Vec::new();
    record_sample(&mut families, "a".to_string(), labels(&["x=\"1\""]), 1);
    record_sample(&mut families, "a".to_string(), labels(&["x=\"2\""]), 2);
    record_sample(&mut families, "a".to_string(), labels(&["x=\"3\""]), 3);
    record_sample(&mut families, "b".to_string(), labels(&[]), 4);
    assert_eq!(find_sample(&families, "a", &labels(&["x=\"2\""])), Some((0, 1)));
    assert_eq!(find_sample(&families, "a", &labels(&["x=\"9\""])), None);
    assert_eq!(find_sample(&families, "c", &labels(&[])), None);

    // The last sample takes the place of the one removed.
    forget_sample(&mut families, "a", &labels(&["x=\"1\""]));
    let a: Vec<(Vec<String>, u64)> = families[0].samples.clone();
    assert_eq!(a, vec![(labels(&["x=\"3\""]), 3), (labels(&["x=\"2\""]), 2)]);

    // Forgetting what is not there changes nothing.
    forget_sample(&mut families, "a", &labels(&["x=\"9\""]));
    forget_sample(&mut families, "c", &labels(&[]));
    assert_eq!(families.len(), 2);

    // A family left empty goes.
    forget_sample(&mut families, "b", &labels(&[]));
    assert_eq!(families.len(), 1);
    assert_eq!(families[0].name, "a");
}
