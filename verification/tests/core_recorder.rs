use metrics_exporters::facade::{self, MetricsRecorder};
use metrics_exporters::labels::MetricKey;
use metrics_exporters::log_exporter::{Builder, Drain, LogExporter, Observe, Observer};
use metrics_exporters::recorder::{
    duration_nanos, recorder, set_recorder, try_recorder, ActiveRecorder, AsNanoseconds,
    Identifier, Recorder, RecorderSlot,
};
use std::cell::RefCell;
use std::time::Duration;

struct CountingRecorder {
    counted: RefCell<u64>,
}

impl Recorder for CountingRecorder {
    fn register_counter(&self, _key: MetricKey) -> Identifier {
        Identifier::new(7)
    }
    fn register_gauge(&self, _key: MetricKey) -> Identifier {
        Identifier::new(8)
    }
    fn register_histogram(&self, _key: MetricKey) -> Identifier {
        Identifier::new(9)
    }
    fn increment_counter(&self, _id: Identifier, value: u64) {
        *self.counted.borrow_mut() += value;
    }
    fn update_gauge(&self, _id: Identifier, _value: i64) {}
    fn record_histogram(&self, _id: Identifier, _value: u64) {}
}

#[test]
fn recorder_is_noop_until_set() {
    let slot: RecorderSlot<CountingRecorder> = RecorderSlot::new();
    assert!(try_recorder(&slot).is_none());
    assert!(matches!(recorder(&slot), ActiveRecorder::Noop(_)));
    recorder(&slot).increment_counter(Identifier::default(), 5);
}

#[test]
fn recorder_can_be_set_once() {
    let mut slot = RecorderSlot::new();
    assert!(set_recorder(&mut slot, CountingRecorder { counted: RefCell::new(0) }).is_ok());
    let second = set_recorder(&mut slot, CountingRecorder { counted: RefCell::new(100) });
    match second {
        Err(e) => assert_eq!(
            e.message(),
            "attempted to set a recorder after the metrics system was already initialized"
        ),
        Ok(()) => panic!("a second recorder was accepted"),
    }
    let active = recorder(&slot);
    active.increment_counter(Identifier::default(), 3);
    active.increment_counter(Identifier::default(), 4);
    assert_eq!(*try_recorder(&slot).unwrap().counted.borrow(), 7);
}

#[test]
fn nanoseconds_from_integers_and_durations() {
    assert_eq!(AsNanoseconds::as_nanos(&42u64), 42);
    let d = Duration::new(2, 5);
    assert_eq!(AsNanoseconds::as_nanos(&d), 2_000_000_005);
    assert_eq!(duration_nanos(&Duration::from_secs(u64::MAX)), (u64::MAX as u128 * 1_000_000_000) as u64);
}

struct Sum {
    total: RefCell<u64>,
}

impl MetricsRecorder for Sum {
    fn record_counter(&self, _key: &str, value: u64) {
        *self.total.borrow_mut() += value;
    }
    fn record_gauge(&self, _key: &str, _value: i64) {}
    fn record_histogram(&self, _key: &str, _value: u64) {}
}

#[test]
fn facade_sets_boxed_recorder_once() {
    let mut slot = RecorderSlot::new();
    facade::recorder(&slot).record_counter("x", 1);
    assert!(facade::set_boxed_recorder(&mut slot, Box::new(Sum { total: RefCell::new(0) })).is_ok());
    assert!(facade::set_boxed_recorder(&mut slot, Box::new(Sum { total: RefCell::new(0) })).is_err());
    facade::recorder(&slot).record_counter("x", 2);
    match facade::recorder(&slot) {
        facade::FacadeRecorder::Installed(r) => assert_eq!(*r.total.borrow(), 2),
        facade::FacadeRecorder::Nop(_) => panic!("no recorder installed"),
    }
}

struct Controller;

impl Observe for Controller {
    fn observe<O: Observer>(&self, observer: &mut O) {
        observer.observe_counter(MetricKey::from_name("hits".to_string()), 3);
        observer.observe_gauge(MetricKey::from_name("load".to_string()), -1);
    }
}

struct TextObserver {
    text: String,
}

impl Observer for TextObserver {
    fn observe_counter(&mut self, key: MetricKey, value: u64) {
        self.text.push_str(&format!("{}={} ", key.name, value));
    }
    fn observe_gauge(&mut self, key: MetricKey, value: i64) {
        self.text.push_str(&format!("{}={} ", key.name, value));
    }
    fn observe_histogram(&mut self, key: MetricKey, values: &[u64]) {
        self.text.push_str(&format!("{}={:?} ", key.name, values));
    }
}

impl Drain<String> for TextObserver {
    fn drain(&mut self) -> String {
        std::mem::take(&mut self.text)
    }
}

struct TextBuilder;

impl Builder for TextBuilder {
    type Output = TextObserver;
    fn build(&self) -> TextObserver {
        TextObserver { text: String::new() }
    }
}

#[test]
fn log_exporter_turn_drains_observed_metrics() {
    let mut exporter =
        LogExporter::new(Controller, TextBuilder, log::Level::Info, Duration::from_secs(5));
    assert_eq!(exporter.turn(), "hits=3 load=-1 ");
    assert_eq!(exporter.turn(), "hits=3 load=-1 ");
    assert_eq!(exporter.level(), log::Level::Info);
    assert_eq!(exporter.interval(), Duration::from_secs(5));
}
