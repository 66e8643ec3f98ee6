use metrics_exporters::dogstatsd::builder::{BuildError, DogStatsDBuilder};
use metrics_exporters::dogstatsd::forwarder::{
    inter_payload_sleep_nanos, unknown_scheme_error_str, ClientAction, ClientOutcome, ClientState,
    RemoteAddr,
};
use metrics_exporters::dogstatsd::state::{
    AggregationMode, FlushState, GaugeSnapshot, State, StateConfiguration,
};
use metrics_exporters::dogstatsd::storage::AtomicCounter;
use metrics_exporters::dogstatsd::telemetry::TelemetryUpdate;
use metrics_exporters::dogstatsd::writer::PayloadWriter;
use metrics_exporters::labels::{KeyLabel, MetricKey};

fn key(name: &str) -> MetricKey {
    MetricKey::from_name(name.to_string())
}

fn state(mode: AggregationMode, prefix: Option<&str>, as_distributions: bool) -> State {
    State::new(StateConfiguration {
        agg_mode: mode,
        telemetry: true,
        histogram_sampling: false,
        histogram_reservoir_size: 1024,
        histograms_as_distributions: as_distributions,
        global_labels: Vec::new(),
        global_prefix: prefix.map(|p| p.to_string()),
    })
}

fn drain(writer: &mut PayloadWriter) -> String {
    let mut payloads = writer.payloads();
    let mut buf = Vec::new();
    while let Some(p) = payloads.next_payload() {
        buf.extend_from_slice(&p);
    }
    String::from_utf8(buf).unwrap()
}

#[test]
fn remote_addr_basic() {
    let addr = RemoteAddr::try_from("127.0.0.1:8125").unwrap();
    assert!(matches!(addr, RemoteAddr::Udp(ref a) if a == "127.0.0.1:8125"));
}

#[test]
fn remote_addr_scheme_udp() {
    let addr = RemoteAddr::try_from("udp://127.0.0.1:8127").unwrap();
    assert!(matches!(addr, RemoteAddr::Udp(ref a) if a == "127.0.0.1:8127"));
}

#[test]
fn remote_addr_scheme_unknown() {
    let addr = RemoteAddr::try_from("spongebob://127.0.0.1:8675");
    assert!(matches!(addr, Err(ref e) if *e == unknown_scheme_error_str("spongebob")));
}

#[test]
fn remote_addr_scheme_unix() {
    let addr = RemoteAddr::try_from("unix:///tmp/dogstatsd.sock").unwrap();
    assert!(matches!(addr, RemoteAddr::Unix(ref p) if p == "/tmp/dogstatsd.sock"));
}

#[test]
fn remote_addr_scheme_unixgram() {
    let addr = RemoteAddr::try_from("unixgram:///tmp/dogstatsd.sock").unwrap();
    assert!(matches!(addr, RemoteAddr::Unixgram(ref p) if p == "/tmp/dogstatsd.sock"));
}

#[test]
fn unknown_scheme_message_text() {
    assert_eq!(
        unknown_scheme_error_str("ftp"),
        "invalid scheme 'ftp' (expected 'udp', 'unix', or 'unixgram')"
    );
}

#[test]
fn remote_addr_splits_at_first_separator() {
    let addr = RemoteAddr::try_from("unix://a://b").unwrap();
    assert!(matches!(addr, RemoteAddr::Unix(ref p) if p == "a://b"));
    let err = RemoteAddr::try_from("://x");
    assert!(matches!(err, Err(ref e) if *e == unknown_scheme_error_str("")));
}

#[test]
fn transport_ids() {
    assert_eq!(RemoteAddr::try_from("a:1").unwrap().transport_id(), "udp");
    assert_eq!(RemoteAddr::try_from("unix:///s").unwrap().transport_id(), "uds-stream");
    assert_eq!(RemoteAddr::try_from("unixgram:///s").unwrap().transport_id(), "uds");
}

#[test]
fn builder_defaults_and_configurations() {
    let b = DogStatsDBuilder::default();
    assert!(matches!(b.remote_addr, RemoteAddr::Udp(ref a) if a == "127.0.0.1:8125"));
    assert_eq!(b.max_payload_len, 8192);
    assert_eq!(b.write_timeout, std::time::Duration::from_secs(1));
    assert_eq!(b.flush_interval, std::time::Duration::from_secs(3));
    let b = b.with_maximum_payload_length(1500).with_telemetry(false);
    let b = b.with_remote_address("unixgram:///tmp/s").ok().unwrap();
    let (state_config, fwd) = b.into_configurations();
    assert!(!state_config.telemetry);
    assert!(state_config.histograms_as_distributions);
    assert_eq!(fwd.max_payload_len, 1500);
    assert!(fwd.is_length_prefixed());
}

#[test]
fn builder_rejects_unknown_scheme() {
    let r = DogStatsDBuilder::default().with_remote_address("tcp://x");
    match r {
        Err(BuildError::InvalidRemoteAddress { reason }) => {
            assert_eq!(reason, unknown_scheme_error_str("tcp"))
        }
        _ => panic!("expected an invalid address"),
    }
}

#[test]
fn udp_is_not_length_prefixed() {
    let (_, fwd) = DogStatsDBuilder::default().into_configurations();
    assert!(!fwd.is_length_prefixed());
}

#[test]
fn client_state_transitions() {
    assert!(matches!(ClientState::Disconnected.next_action(), ClientAction::Connect));
    assert!(matches!(ClientState::Ready.next_action(), ClientAction::Send));
    assert!(matches!(ClientState::after(ClientOutcome::Connected), (ClientState::Ready, false)));
    assert!(matches!(
        ClientState::after(ClientOutcome::ConnectFailed),
        (ClientState::Inconsistent, true)
    ));
    assert!(matches!(ClientState::after(ClientOutcome::Sent), (ClientState::Ready, true)));
    assert!(matches!(
        ClientState::after(ClientOutcome::SendFailed),
        (ClientState::Disconnected, true)
    ));
}

#[test]
fn payloads_are_splayed_evenly() {
    assert_eq!(inter_payload_sleep_nanos(900, 2), 300);
    assert_eq!(inter_payload_sleep_nanos(10, 0), 10);
}

#[test]
fn idle_counter_emits_zero_once() {
    let st = state(AggregationMode::Conservative, None, true);
    let mut flush_state = FlushState::new();
    let mut telemetry = TelemetryUpdate::new();
    let keys = vec![key("requests")];
    let mut counters = vec![AtomicCounter::new()];
    counters[0].increment(5);

    let mut writer = PayloadWriter::new(8192, false);
    st.flush_counters(&mut flush_state, &mut writer, &mut telemetry, &keys, &mut counters, None);
    assert_eq!(drain(&mut writer), "requests:5|c\n");
    assert!(!flush_state.is_counter_idle(&keys[0]));
    assert_eq!(telemetry.totals(), (1, 1));

    // No updates: the zero is emitted once and the counter goes idle.
    let mut writer = PayloadWriter::new(8192, false);
    st.flush_counters(&mut flush_state, &mut writer, &mut telemetry, &keys, &mut counters, None);
    assert_eq!(drain(&mut writer), "requests:0|c\n");
    assert!(flush_state.is_counter_idle(&keys[0]));

    // Still no updates: nothing is emitted.
    let mut writer = PayloadWriter::new(8192, false);
    st.flush_counters(&mut flush_state, &mut writer, &mut telemetry, &keys, &mut counters, None);
    assert_eq!(drain(&mut writer), "");
    assert_eq!(telemetry.totals(), (1, 2));

    // Active again: emitted and no longer idle.
    counters[0].increment(2);
    let mut writer = PayloadWriter::new(8192, false);
    st.flush_counters(&mut flush_state, &mut writer, &mut telemetry, &keys, &mut counters, None);
    assert_eq!(drain(&mut writer), "requests:2|c\n");
    assert!(!flush_state.is_counter_idle(&keys[0]));
}

#[test]
fn aggressive_mode_writes_timestamps_and_prefix() {
    let st = state(AggregationMode::Aggressive, Some("app"), true);
    let mut flush_state = FlushState::new();
    let mut telemetry = TelemetryUpdate::new();
    let keys = vec![key("hits"), key("datadog.dogstatsd.client.packets_sent")];
    let mut counters = vec![AtomicCounter::new(), AtomicCounter::new()];
    counters[0].increment(1);
    counters[1].increment(3);
    let mut writer = PayloadWriter::new(8192, false);
    st.flush_counters(&mut flush_state, &mut writer, &mut telemetry, &keys, &mut counters, Some(1700));
    assert_eq!(
        drain(&mut writer),
        "app.hits:1|c|T1700\ndatadog.dogstatsd.client.packets_sent:3|c|T1700\n"
    );
}

#[test]
fn conservative_mode_ignores_the_clock() {
    let st = state(AggregationMode::Conservative, None, true);
    let gauges = vec![GaugeSnapshot { key: key("temp"), value: b"21.5".to_vec(), points: 3 }];
    let mut telemetry = TelemetryUpdate::new();
    let mut writer = PayloadWriter::new(8192, false);
    st.flush_gauges(&mut writer, &mut telemetry, &gauges, Some(99));
    assert_eq!(drain(&mut writer), "temp:21.5|g\n");
    assert_eq!(telemetry.totals(), (3, 1));
}

#[test]
fn failed_counter_counts_a_serializer_failure() {
    let st = state(AggregationMode::Conservative, None, true);
    let mut flush_state = FlushState::new();
    let mut telemetry = TelemetryUpdate::new();
    let keys = vec![key("a_name_much_too_long")];
    let mut counters = vec![AtomicCounter::new()];
    counters[0].increment(1);
    let mut writer = PayloadWriter::new(8, false);
    st.flush_counters(&mut flush_state, &mut writer, &mut telemetry, &keys, &mut counters, None);
    assert_eq!(drain(&mut writer), "");
    // The counter was a context, but none of its points went out.
    assert_eq!(telemetry.totals(), (0, 1));
}

#[test]
fn histograms_go_out_as_distributions_or_histograms() {
    let k = MetricKey::from_parts(
        "latency".to_string(),
        vec![KeyLabel::new("route".to_string(), "home".to_string())],
    );
    let vs = vec![b"1.5".to_vec(), b"2".to_vec()];
    let mut telemetry = TelemetryUpdate::new();

    let st = state(AggregationMode::Conservative, None, true);
    let mut writer = PayloadWriter::new(8192, false);
    let r = st.flush_histogram(&mut writer, &mut telemetry, &k, &vs, None);
    assert_eq!(r.payloads_written(), 1);
    assert_eq!(drain(&mut writer), "latency:1.5:2|d|#route:home\n");

    let st = state(AggregationMode::Conservative, None, false);
    let mut writer = PayloadWriter::new(8192, false);
    st.flush_histogram(&mut writer, &mut telemetry, &k, &vs, Some(b"0.25"));
    assert_eq!(drain(&mut writer), "latency:1.5:2|h|@0.25|#route:home\n");
    assert!(!telemetry.had_updates());
}

#[test]
fn unresolved_udp_address_is_refused() {
    let Ok(b) = DogStatsDBuilder::default().with_remote_address("udp://no-such-host:8125") else {
        panic!("the address reads as UDP")
    };
    let r = b.check_remote_address(Some("failed to lookup address information".to_string()));
    assert!(matches!(r, Err(BuildError::InvalidRemoteAddress { ref reason })
        if reason == "failed to lookup address information"));
    let Ok(b) = DogStatsDBuilder::default().with_remote_address("udp://127.0.0.1:8125") else {
        panic!("the address reads as UDP")
    };
    assert!(b.check_remote_address(None).is_ok());
    let Ok(b) = DogStatsDBuilder::default().with_remote_address("unix:///tmp/sock") else {
        panic!("the address reads as a Unix socket")
    };
    assert!(b.check_remote_address(Some("ignored".to_string())).is_ok());
}
