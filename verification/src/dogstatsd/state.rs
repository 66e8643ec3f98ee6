//! Exporter state: configuration, idle-counter tracking, and flushing aggregated metrics into
//! payloads.
use crate::dogstatsd::storage::{spec_flush, spec_flush_result, AtomicCounter, CounterState};
use crate::dogstatsd::telemetry::{TelemetryCounts, TelemetryUpdate};
use crate::dogstatsd::writer::{
    bytes_view, decimal_bytes, opt_bytes, opt_chars, prepared, spec_write_multiple,
    spec_write_single, MetricType, PayloadWriter, WriteResult, WriterState,
};
use crate::labels::{key_view, str_starts_with, KeyLabel, KeyView, MetricKey};
use vstd::prelude::*;

verus! {

/// Aggregation mode.
pub enum AggregationMode {
    /// Counters and gauges are aggregated but are not sent with a timestamp.
    Conservative,
    /// Counters and gauges are aggregated and sent with a timestamp.
    Aggressive,
}

/// Exporter state configuration.
pub struct StateConfiguration {
    /// Aggregation mode when flushing counters and gauges.
    pub agg_mode: AggregationMode,
    /// Whether or not to collect/emit internal telemetry.
    pub telemetry: bool,
    /// Whether or not to sample histograms.
    pub histogram_sampling: bool,
    /// Reservoir size when histogram sampling is enabled.
    pub histogram_reservoir_size: usize,
    /// Whether or not to emit histograms as distributions.
    pub histograms_as_distributions: bool,
    /// Global labels to add to all metrics.
    pub global_labels: Vec<KeyLabel>,
    /// Global prefix/namespace to use for all metrics.
    pub global_prefix: Option<String>,
}

/// The character view of an optional string.
pub open spec fn opt_string_view(s: Option<String>) -> Option<Seq<char>> {
    match s {
        Some(s) => Some(s@),
        None => None,
    }
}

/// Metrics whose name starts with this are the exporter's own telemetry.
pub open spec fn client_telemetry_prefix() -> Seq<char> {
    "datadog.dogstatsd.client"@
}

/// The prefix a metric is written with: none for the exporter's own telemetry, otherwise the
/// global prefix.
pub open spec fn metric_prefix(name: Seq<char>, global_prefix: Option<Seq<char>>) -> Option<
    Seq<char>,
> {
    if client_telemetry_prefix().is_prefix_of(name) {
        None
    } else {
        global_prefix
    }
}

/// The timestamp counters and gauges are written with, given the current time in seconds since
/// the Unix epoch (if the clock reads after the epoch).
pub open spec fn spec_aggregation_timestamp(mode: AggregationMode, now_secs: Option<u64>) -> Option<
    u64,
> {
    match mode {
        AggregationMode::Aggressive => now_secs,
        AggregationMode::Conservative => None,
    }
}

// ---------------------------------------------------------------------------------------------
// Idle counters
// ---------------------------------------------------------------------------------------------

/// Flush state: the counters that were idle at their last flush, kept across flushes.
pub struct FlushState {
    idle_counters: Vec<MetricKey>,
}

impl View for FlushState {
    type V = Set<KeyView>;

    closed spec fn view(&self) -> Set<KeyView> {
        Set::new(
            |kv: KeyView|
                exists|i: int|
                    0 <= i < self.idle_counters@.len() && #[trigger] key_view(self.idle_counters@[i])
                        == kv,
        )
    }
}

impl FlushState {
    /// No key is held twice.
    pub closed spec fn wf(&self) -> bool {
        forall|i: int, j: int|
            0 <= i < j < self.idle_counters@.len() ==> key_view(self.idle_counters@[i]) != key_view(
                self.idle_counters@[j],
            )
    }

    /// Creates a flush state with no idle counters.
    pub fn new() -> (r: FlushState)
        ensures
            r.wf(),
            r@ == Set::<KeyView>::empty(),
    {
        let r = FlushState { idle_counters: Vec::new() };
        assert(r@ =~= Set::<KeyView>::empty());
        r
    }

    fn find(&self, key: &MetricKey) -> (r: Option<usize>)
        ensures
            match r {
                Some(i) => i < self.idle_counters@.len() && key_view(self.idle_counters@[i as int])
                    == key_view(*key),
                None => !self@.contains(key_view(*key)),
            },
    {
        let mut i: usize = 0;
        while i < self.idle_counters.len()
            invariant
                i <= self.idle_counters@.len(),
                forall|j: int| 0 <= j < i ==> key_view(self.idle_counters@[j]) != key_view(*key),
            decreases self.idle_counters@.len() - i,
        {
            if crate::labels::keys_equal(&self.idle_counters[i], key) {
                return Some(i);
            }
            i = i + 1;
        }
        None
    }

    /// Returns `true` if the counter is idle.
    pub fn is_counter_idle(&self, key: &MetricKey) -> (r: bool)
        ensures
            r == self@.contains(key_view(*key)),
    {
        match self.find(key) {
            Some(i) => {
                assert(self@.contains(key_view(self.idle_counters@[i as int])));
                true
            },
            None => false,
        }
    }

    /// Marks a counter as idle.
    fn mark_counter_as_idle(&mut self, key: MetricKey)
        requires
            old(self).wf(),
        ensures
            final(self).wf(),
            final(self)@ == old(self)@.insert(key_view(key)),
    {
        match self.find(&key) {
            Some(i) => {
                assert(self@.contains(key_view(self.idle_counters@[i as int])));
                assert(self@ =~= old(self)@.insert(key_view(key)));
            },
            None => {
                let ghost before = self.idle_counters@;
                let ghost kv = key_view(key);
                self.idle_counters.push(key);
                proof {
                    let after = self.idle_counters@;
                    assert(key_view(after[before.len() as int]) == kv);
                    assert forall|x: KeyView| #[trigger] self@.contains(x) implies old(self)@.insert(
                        kv,
                    ).contains(x) by {
                        let j = choose|j: int| 0 <= j < after.len() && key_view(after[j]) == x;
                        if j < before.len() {
                            assert(key_view(before[j]) == x);
                        }
                    }
                    assert forall|x: KeyView| #[trigger] old(self)@.insert(kv).contains(x) implies self@.contains(
                        x,
                    ) by {
                        if x != kv {
                            let j = choose|j: int| 0 <= j < before.len() && key_view(before[j]) == x;
                            assert(key_view(after[j]) == x);
                        }
                    }
                    assert(self@ =~= old(self)@.insert(kv));
                }
            },
        }
    }

    /// Clears the idle mark of a counter.
    fn clear_counter_idle(&mut self, key: &MetricKey)
        requires
            old(self).wf(),
        ensures
            final(self).wf(),
            final(self)@ == old(self)@.remove(key_view(*key)),
    {
        match self.find(key) {
            Some(i) => {
                let ghost before = self.idle_counters@;
                let ghost kv = key_view(*key);
                self.idle_counters.remove(i);
                proof {
                    let after = self.idle_counters@;
                    assert(after =~= before.remove(i as int));
                    assert forall|x: KeyView| #[trigger] self@.contains(x) implies old(self)@.remove(
                        kv,
                    ).contains(x) by {
                        let j = choose|j: int| 0 <= j < after.len() && key_view(after[j]) == x;
                        if j < i {
                            assert(key_view(before[j]) == x);
                        } else {
                            assert(key_view(before[j + 1]) == x);
                        }
                    }
                    assert forall|x: KeyView| #[trigger] old(self)@.remove(kv).contains(x) implies self@.contains(
                        x,
                    ) by {
                        let j = choose|j: int| 0 <= j < before.len() && key_view(before[j]) == x;
                        if j < i {
                            assert(key_view(after[j]) == x);
                        } else {
                            assert(j != i);
                            assert(key_view(after[j - 1]) == x);
                        }
                    }
                    assert(self@ =~= old(self)@.remove(kv));
                }
            },
            None => {
                assert(self@ =~= old(self)@.remove(key_view(*key)));
            },
        }
    }
}

// ---------------------------------------------------------------------------------------------
// Flushing
// ---------------------------------------------------------------------------------------------

/// Running totals of a flush: the writer, the points written and the metrics that failed to
/// serialize.
pub struct WriteTally {
    pub writer: WriterState,
    pub points: nat,
    pub failures: nat,
}

/// Writing one value for `key`: on success its points are counted, on failure one
/// serializer failure is.
pub open spec fn single_write_step(
    t: WriteTally,
    key: MetricKey,
    metric_type: MetricType,
    value: Seq<u8>,
    points: u64,
    prefix: Option<Seq<char>>,
    timestamp: Option<u64>,
) -> WriteTally {
    let (w, res) = spec_write_single(
        prepared(t.writer, key, metric_type, timestamp, None, prefix),
        value,
    );
    if res.1 != 0 {
        WriteTally { writer: w, points: t.points, failures: t.failures + 1 }
    } else {
        WriteTally { writer: w, points: t.points + points as nat, failures: t.failures }
    }
}

/// Running totals of a counter flush: the idle counters, the writes, and the counters emitted.
pub struct CounterTally {
    pub idle: Set<KeyView>,
    pub tally: WriteTally,
    pub active: nat,
}

/// Flushing one counter. A counter with no updates since the last flush that was already idle
/// is skipped: its zero was emitted before. Otherwise its delta is written; it becomes idle
/// when it had no updates and stops being idle when it had some.
pub open spec fn counter_step(
    t: CounterTally,
    key: MetricKey,
    c: CounterState,
    global_prefix: Option<Seq<char>>,
    timestamp: Option<u64>,
) -> CounterTally {
    let (delta, points) = spec_flush_result(c);
    let kv = key_view(key);
    if points == 0 && t.idle.contains(kv) {
        t
    } else {
        CounterTally {
            idle: if points == 0 {
                t.idle.insert(kv)
            } else {
                t.idle.remove(kv)
            },
            tally: single_write_step(
                t.tally,
                key,
                MetricType::Counter,
                decimal_bytes(delta as nat),
                points,
                metric_prefix(key.name@, global_prefix),
                timestamp,
            ),
            active: t.active + 1,
        }
    }
}

/// Flushing the first `n` counters in order.
pub open spec fn counters_fold(
    t: CounterTally,
    keys: Seq<MetricKey>,
    states: Seq<CounterState>,
    global_prefix: Option<Seq<char>>,
    timestamp: Option<u64>,
    n: nat,
) -> CounterTally
    decreases n,
{
    if n == 0 {
        t
    } else {
        counter_step(
            counters_fold(t, keys, states, global_prefix, timestamp, (n - 1) as nat),
            keys[n - 1],
            states[n - 1],
            global_prefix,
            timestamp,
        )
    }
}

/// The states of a sequence of counters.
pub open spec fn counter_states(counters: Seq<AtomicCounter>) -> Seq<CounterState> {
    counters.map_values(|c: AtomicCounter| c@)
}

/// Flushing the first `n` gauges in order; each gauge is given with its rendered value and the
/// number of updates since its last flush.
pub open spec fn gauges_fold(
    t: WriteTally,
    gauges: Seq<GaugeSnapshot>,
    global_prefix: Option<Seq<char>>,
    timestamp: Option<u64>,
    n: nat,
) -> WriteTally
    decreases n,
{
    if n == 0 {
        t
    } else {
        let g = gauges[n - 1];
        single_write_step(
            gauges_fold(t, gauges, global_prefix, timestamp, (n - 1) as nat),
            g.key,
            MetricType::Gauge,
            g.value@,
            g.points,
            metric_prefix(g.key.name@, global_prefix),
            timestamp,
        )
    }
}

proof fn lemma_counters_fold_grows(
    t: CounterTally,
    keys: Seq<MetricKey>,
    states: Seq<CounterState>,
    global_prefix: Option<Seq<char>>,
    timestamp: Option<u64>,
    m: nat,
    n: nat,
)
    requires
        m <= n,
    ensures
        ({
            let a = counters_fold(t, keys, states, global_prefix, timestamp, m);
            let b = counters_fold(t, keys, states, global_prefix, timestamp, n);
            a.active <= b.active && a.tally.points <= b.tally.points && a.tally.failures
                <= b.tally.failures && b.active <= t.active + n
        }),
    decreases n,
{
    if n > 0 {
        lemma_counters_fold_grows(t, keys, states, global_prefix, timestamp, if m < n { m } else { (n - 1) as nat }, (n - 1) as nat);
    }
}

proof fn lemma_gauges_fold_grows(
    t: WriteTally,
    gauges: Seq<GaugeSnapshot>,
    global_prefix: Option<Seq<char>>,
    timestamp: Option<u64>,
    m: nat,
    n: nat,
)
    requires
        m <= n,
    ensures
        gauges_fold(t, gauges, global_prefix, timestamp, m).points <= gauges_fold(
            t,
            gauges,
            global_prefix,
            timestamp,
            n,
        ).points,
        gauges_fold(t, gauges, global_prefix, timestamp, m).failures <= gauges_fold(
            t,
            gauges,
            global_prefix,
            timestamp,
            n,
        ).failures,
    decreases n,
{
    if m < n {
        lemma_gauges_fold_grows(t, gauges, global_prefix, timestamp, m, (n - 1) as nat);
    }
}

/// A counter that has not been updated since its last flush emits its value once and then
/// goes idle: flushing it again, still without updates, emits nothing and changes nothing.
pub proof fn lemma_idle_counter_emits_once(
    t: CounterTally,
    key: MetricKey,
    c: CounterState,
    global_prefix: Option<Seq<char>>,
    timestamp: Option<u64>,
)
    requires
        c.updates == 0,
    ensures
        counter_step(t, key, c, global_prefix, timestamp).idle.contains(key_view(key)),
        counter_step(
            counter_step(t, key, c, global_prefix, timestamp),
            key,
            spec_flush(c),
            global_prefix,
            timestamp,
        ) == counter_step(t, key, c, global_prefix, timestamp),
{
}

/// A counter updated since its last flush is always written, and is no longer idle.
pub proof fn lemma_active_counter_is_written(
    t: CounterTally,
    key: MetricKey,
    c: CounterState,
    global_prefix: Option<Seq<char>>,
    timestamp: Option<u64>,
)
    requires
        c.updates != 0,
    ensures
        ({
            let t2 = counter_step(t, key, c, global_prefix, timestamp);
            &&& !t2.idle.contains(key_view(key))
            &&& t2.active == t.active + 1
            &&& t2.tally == single_write_step(
                t.tally,
                key,
                MetricType::Counter,
                decimal_bytes(spec_flush_result(c).0 as nat),
                c.updates,
                metric_prefix(key.name@, global_prefix),
                timestamp,
            )
        }),
{
}

/// How a flush treats each counter: a counter not updated since its last flush and already
/// idle is neither written nor counted; one not updated but not idle yet is written once, with
/// its delta and no points, and becomes idle; an updated one is written with its delta and
/// its updates as points, and is no longer idle. Other counters' idleness is left as it was.
pub proof fn lemma_counter_flush_cases(
    t: CounterTally,
    key: MetricKey,
    c: CounterState,
    global_prefix: Option<Seq<char>>,
    timestamp: Option<u64>,
)
    ensures
        ({
            let t2 = counter_step(t, key, c, global_prefix, timestamp);
            let kv = key_view(key);
            let written = single_write_step(
                t.tally,
                key,
                MetricType::Counter,
                decimal_bytes(spec_flush_result(c).0 as nat),
                c.updates,
                metric_prefix(key.name@, global_prefix),
                timestamp,
            );
            &&& c.updates == 0 && t.idle.contains(kv) ==> t2 == t
            &&& c.updates == 0 && !t.idle.contains(kv) ==> t2.idle == t.idle.insert(kv)
                && t2.active == t.active + 1 && t2.tally == written
            &&& c.updates != 0 ==> t2.idle == t.idle.remove(kv) && t2.active == t.active + 1
                && t2.tally == written
        }),
{
}

/// Over a whole counter flush, each flushed counter ends idle exactly when it had no updates
/// since its previous flush, and the idleness of every other key is left as it was (the
/// flushed keys being distinct).
pub proof fn lemma_flush_idle_counters(
    t: CounterTally,
    keys: Seq<MetricKey>,
    states: Seq<CounterState>,
    global_prefix: Option<Seq<char>>,
    timestamp: Option<u64>,
    n: nat,
)
    requires
        n <= keys.len(),
        n <= states.len(),
        forall|a: int, b: int| 0 <= a < b < n ==> key_view(keys[a]) != key_view(keys[b]),
    ensures
        forall|i: int|
            0 <= i < n ==> (counters_fold(t, keys, states, global_prefix, timestamp, n).idle.contains(
                #[trigger] key_view(keys[i]),
            ) <==> states[i].updates == 0),
        forall|kv: KeyView|
            (forall|i: int| 0 <= i < n ==> kv != key_view(keys[i])) ==> (counters_fold(
                t,
                keys,
                states,
                global_prefix,
                timestamp,
                n,
            ).idle.contains(kv) <==> t.idle.contains(kv)),
    decreases n,
{
    if n > 0 {
        let m = (n - 1) as nat;
        lemma_flush_idle_counters(t, keys, states, global_prefix, timestamp, m);
        let prev = counters_fold(t, keys, states, global_prefix, timestamp, m);
        let k = key_view(keys[m as int]);
        let after = counter_step(prev, keys[m as int], states[m as int], global_prefix, timestamp);
        assert(after == counters_fold(t, keys, states, global_prefix, timestamp, n));
        assert forall|kv: KeyView| kv != k implies (after.idle.contains(kv) <==> prev.idle.contains(kv)) by {
        }
        assert(after.idle.contains(k) <==> states[m as int].updates == 0);
        assert forall|i: int| 0 <= i < n implies (after.idle.contains(#[trigger] key_view(keys[i]))
            <==> states[i].updates == 0) by {
            if i < m {
                assert(key_view(keys[i]) != k);
            }
        }
    }
}

/// A gauge as flushed: its key, its latest value rendered as text, and the number of updates
/// since its previous flush.
pub struct GaugeSnapshot {
    pub key: MetricKey,
    pub value: Vec<u8>,
    pub points: u64,
}

/// Exporter state.
pub struct State {
    config: StateConfiguration,
}

impl State {
    /// The configuration.
    pub closed spec fn spec_config(&self) -> StateConfiguration {
        self.config
    }

    /// The global prefix, as characters.
    pub open spec fn global_prefix_view(&self) -> Option<Seq<char>> {
        opt_string_view(self.spec_config().global_prefix)
    }

    /// The counter flush of `keys` and `counters`, from the given idle set and writer.
    pub open spec fn counter_flush(
        &self,
        idle: Set<KeyView>,
        writer: WriterState,
        keys: Seq<MetricKey>,
        counters: Seq<AtomicCounter>,
        now_secs: Option<u64>,
    ) -> CounterTally {
        counters_fold(
            CounterTally { idle, tally: WriteTally { writer, points: 0, failures: 0 }, active: 0 },
            keys,
            counter_states(counters),
            self.global_prefix_view(),
            spec_aggregation_timestamp(self.spec_config().agg_mode, now_secs),
            keys.len(),
        )
    }

    /// The gauge flush of `gauges` from the given writer.
    pub open spec fn gauge_flush(
        &self,
        writer: WriterState,
        gauges: Seq<GaugeSnapshot>,
        now_secs: Option<u64>,
    ) -> WriteTally {
        gauges_fold(
            WriteTally { writer, points: 0, failures: 0 },
            gauges,
            self.global_prefix_view(),
            spec_aggregation_timestamp(self.spec_config().agg_mode, now_secs),
            gauges.len(),
        )
    }

    /// Creates a new `State` from the given configuration.
    pub fn new(config: StateConfiguration) -> (r: State)
        ensures
            r.spec_config() == config,
    {
        State { config }
    }

    /// Returns `true` if telemetry is enabled.
    pub fn telemetry_enabled(&self) -> (r: bool)
        ensures
            r == self.spec_config().telemetry,
    {
        self.config.telemetry
    }

    /// The timestamp to write counters and gauges with: the current time (in seconds since the
    /// Unix epoch) in aggressive mode, none in conservative mode.
    fn get_aggregation_timestamp(&self, now_secs: Option<u64>) -> (r: Option<u64>)
        ensures
            r == spec_aggregation_timestamp(self.spec_config().agg_mode, now_secs),
    {
        match self.config.agg_mode {
            AggregationMode::Aggressive => now_secs,
            AggregationMode::Conservative => None,
        }
    }

    /// The prefix to write a metric with.
    fn prefix_for(&self, key: &MetricKey) -> (r: Option<&str>)
        ensures
            opt_chars(r) == metric_prefix(key.name@, self.global_prefix_view()),
    {
        if str_starts_with(key.name.as_str(), "datadog.dogstatsd.client") {
            None
        } else {
            match &self.config.global_prefix {
                Some(p) => Some(p.as_str()),
                None => None,
            }
        }
    }

    /// Flushes the counters into the writer.
    ///
    /// Each counter is flushed, in order. A counter that had no updates since its last flush
    /// and was already idle is skipped; any other counter has its delta written, becomes idle
    /// if it had no updates, and stops being idle if it had some. Telemetry counts the counters
    /// written, the points of those that were written successfully, and one serializer failure
    /// for each that was not.
    pub fn flush_counters(
        &self,
        flush_state: &mut FlushState,
        writer: &mut PayloadWriter,
        telemetry: &mut TelemetryUpdate,
        keys: &[MetricKey],
        counters: &mut Vec<AtomicCounter>,
        now_secs: Option<u64>,
    )
        requires
            old(flush_state).wf(),
            old(writer).wf(),
            keys@.len() == old(counters)@.len(),
            ({
                let t = self.counter_flush(
                    old(flush_state)@,
                    old(writer)@,
                    keys@,
                    old(counters)@,
                    now_secs,
                );
                &&& old(telemetry)@.counter_contexts + t.active <= u64::MAX
                &&& old(telemetry)@.counter_points + t.tally.points <= u64::MAX
                &&& old(telemetry)@.packets_dropped + t.tally.failures <= u64::MAX
                &&& old(telemetry)@.packets_dropped_serializer + t.tally.failures <= u64::MAX
            }),
        ensures
            final(flush_state).wf(),
            final(writer).wf(),
            final(counters)@.len() == old(counters)@.len(),
            forall|i: int|
                0 <= i < old(counters)@.len() ==> (#[trigger] final(counters)@[i])@ == spec_flush(
                    old(counters)@[i]@,
                ),
            ({
                let t = self.counter_flush(
                    old(flush_state)@,
                    old(writer)@,
                    keys@,
                    old(counters)@,
                    now_secs,
                );
                &&& final(flush_state)@ == t.idle
                &&& final(writer)@ == t.tally.writer
                &&& final(telemetry)@ == (TelemetryCounts {
                    counter_contexts: (old(telemetry)@.counter_contexts + t.active) as u64,
                    counter_points: (old(telemetry)@.counter_points + t.tally.points) as u64,
                    packets_dropped: (old(telemetry)@.packets_dropped + t.tally.failures) as u64,
                    packets_dropped_serializer: (old(telemetry)@.packets_dropped_serializer
                        + t.tally.failures) as u64,
                    ..old(telemetry)@
                })
            }),
    {
        let ghost t0 = CounterTally {
            idle: old(flush_state)@,
            tally: WriteTally { writer: old(writer)@, points: 0, failures: 0 },
            active: 0,
        };
        let ghost states = counter_states(old(counters)@);
        let ghost gp = self.global_prefix_view();
        let timestamp = self.get_aggregation_timestamp(now_secs);
        let ghost n = keys@.len();
        let ghost tn = counters_fold(t0, keys@, states, gp, timestamp, n as nat);
        let mut active: usize = 0;
        let mut i: usize = 0;
        while i < keys.len()
            invariant
                i <= keys@.len(),
                n == keys@.len(),
                keys@.len() == counters@.len(),
                states == counter_states(old(counters)@),
                states.len() == n,
                gp == self.global_prefix_view(),
                timestamp == spec_aggregation_timestamp(self.spec_config().agg_mode, now_secs),
                tn == counters_fold(t0, keys@, states, gp, timestamp, n as nat),
                t0.active == 0,
                flush_state.wf(),
                writer.wf(),
                forall|j: int| 0 <= j < i ==> (#[trigger] counters@[j])@ == spec_flush(states[j]),
                forall|j: int| i <= j < n ==> (#[trigger] counters@[j])@ == states[j],
                ({
                    let t = counters_fold(t0, keys@, states, gp, timestamp, i as nat);
                    &&& flush_state@ == t.idle
                    &&& writer@ == t.tally.writer
                    &&& active == t.active
                    &&& telemetry@ == (TelemetryCounts {
                        counter_points: (old(telemetry)@.counter_points + t.tally.points) as u64,
                        packets_dropped: (old(telemetry)@.packets_dropped + t.tally.failures) as u64,
                        packets_dropped_serializer: (old(telemetry)@.packets_dropped_serializer
                            + t.tally.failures) as u64,
                        ..old(telemetry)@
                    })
                }),
                old(telemetry)@.counter_contexts + tn.active <= u64::MAX,
                old(telemetry)@.counter_points + tn.tally.points <= u64::MAX,
                old(telemetry)@.packets_dropped + tn.tally.failures <= u64::MAX,
                old(telemetry)@.packets_dropped_serializer + tn.tally.failures <= u64::MAX,
            decreases keys@.len() - i,
        {
            proof {
                lemma_counters_fold_grows(t0, keys@, states, gp, timestamp, (i + 1) as nat, n as nat);
                lemma_counters_fold_grows(t0, keys@, states, gp, timestamp, i as nat, i as nat);
            }
            let mut c = counters[i];
            let (value, points_flushed) = c.flush();
            counters.set(i, c);
            let key = &keys[i];
            let mut skip = false;
            if points_flushed == 0 {
                if flush_state.is_counter_idle(key) {
                    skip = true;
                } else {
                    flush_state.mark_counter_as_idle(key.duplicate());
                }
            } else {
                flush_state.clear_counter_idle(key);
            }
            if !skip {
                active = active + 1;
                let prefix = self.prefix_for(key);
                let result = writer.write_counter(key, value, timestamp, prefix);
                if result.any_failures() {
                    telemetry.track_packet_serializer_failed();
                } else {
                    telemetry.increment_counter_points(points_flushed);
                }
            }
            i = i + 1;
        }
        telemetry.increment_counter_contexts(active);
    }

    /// Flushes the gauges into the writer, in order.
    ///
    /// Telemetry counts every gauge as a context, the points of those that were written
    /// successfully, and one serializer failure for each that was not.
    pub fn flush_gauges(
        &self,
        writer: &mut PayloadWriter,
        telemetry: &mut TelemetryUpdate,
        gauges: &[GaugeSnapshot],
        now_secs: Option<u64>,
    )
        requires
            old(writer).wf(),
            ({
                let t = self.gauge_flush(old(writer)@, gauges@, now_secs);
                &&& old(telemetry)@.gauge_contexts + gauges@.len() <= u64::MAX
                &&& old(telemetry)@.gauge_points + t.points <= u64::MAX
                &&& old(telemetry)@.packets_dropped + t.failures <= u64::MAX
                &&& old(telemetry)@.packets_dropped_serializer + t.failures <= u64::MAX
            }),
        ensures
            final(writer).wf(),
            ({
                let t = self.gauge_flush(old(writer)@, gauges@, now_secs);
                &&& final(writer)@ == t.writer
                &&& final(telemetry)@ == (TelemetryCounts {
                    gauge_contexts: (old(telemetry)@.gauge_contexts + gauges@.len()) as u64,
                    gauge_points: (old(telemetry)@.gauge_points + t.points) as u64,
                    packets_dropped: (old(telemetry)@.packets_dropped + t.failures) as u64,
                    packets_dropped_serializer: (old(telemetry)@.packets_dropped_serializer
                        + t.failures) as u64,
                    ..old(telemetry)@
                })
            }),
    {
        telemetry.increment_gauge_contexts(gauges.len());
        let ghost t0 = WriteTally { writer: old(writer)@, points: 0, failures: 0 };
        let ghost gp = self.global_prefix_view();
        let timestamp = self.get_aggregation_timestamp(now_secs);
        let ghost n = gauges@.len();
        let ghost tn = gauges_fold(t0, gauges@, gp, timestamp, n as nat);
        let ghost tel0 = telemetry@;
        let mut i: usize = 0;
        while i < gauges.len()
            invariant
                i <= gauges@.len(),
                n == gauges@.len(),
                gp == self.global_prefix_view(),
                timestamp == spec_aggregation_timestamp(self.spec_config().agg_mode, now_secs),
                tn == gauges_fold(t0, gauges@, gp, timestamp, n as nat),
                writer.wf(),
                ({
                    let t = gauges_fold(t0, gauges@, gp, timestamp, i as nat);
                    &&& writer@ == t.writer
                    &&& telemetry@ == (TelemetryCounts {
                        gauge_points: (tel0.gauge_points + t.points) as u64,
                        packets_dropped: (tel0.packets_dropped + t.failures) as u64,
                        packets_dropped_serializer: (tel0.packets_dropped_serializer
                            + t.failures) as u64,
                        ..tel0
                    })
                }),
                tel0.gauge_points + tn.points <= u64::MAX,
                tel0.packets_dropped + tn.failures <= u64::MAX,
                tel0.packets_dropped_serializer + tn.failures <= u64::MAX,
            decreases gauges@.len() - i,
        {
            proof {
                lemma_gauges_fold_grows(t0, gauges@, gp, timestamp, (i + 1) as nat, n as nat);
            }
            let g = &gauges[i];
            let prefix = self.prefix_for(&g.key);
            let result = writer.write_gauge(&g.key, g.value.as_slice(), timestamp, prefix);
            if result.any_failures() {
                telemetry.track_packet_serializer_failed();
            } else {
                telemetry.increment_gauge_points(g.points);
            }
            i = i + 1;
        }
    }

    /// Writes the values of one histogram, as a histogram or, if so configured, as a
    /// distribution; a failure to write any of them counts as a serializer failure. The values
    /// and the sample rate are given rendered as text.
    pub fn flush_histogram(
        &self,
        writer: &mut PayloadWriter,
        telemetry: &mut TelemetryUpdate,
        key: &MetricKey,
        values: &[Vec<u8>],
        maybe_sample_rate: Option<&[u8]>,
    ) -> (r: WriteResult)
        requires
            old(writer).wf(),
            values@.len() < u64::MAX,
            old(telemetry)@.packets_dropped + 1 <= u64::MAX,
            old(telemetry)@.packets_dropped_serializer + 1 <= u64::MAX,
        ensures
            final(writer).wf(),
            ({
                let metric_type = if self.spec_config().histograms_as_distributions {
                    MetricType::Distribution
                } else {
                    MetricType::Histogram
                };
                let (st, res) = spec_write_multiple(
                    prepared(
                        old(writer)@,
                        *key,
                        metric_type,
                        None,
                        opt_bytes(maybe_sample_rate),
                        metric_prefix(key.name@, self.global_prefix_view()),
                    ),
                    bytes_view(values@),
                );
                &&& final(writer)@ == st.w
                &&& r@ == res
            }),
            final(telemetry)@ == if r@.1 != 0 {
                TelemetryCounts {
                    packets_dropped: (old(telemetry)@.packets_dropped + 1) as u64,
                    packets_dropped_serializer: (old(telemetry)@.packets_dropped_serializer
                        + 1) as u64,
                    ..old(telemetry)@
                }
            } else {
                old(telemetry)@
            },
    {
        let prefix = self.prefix_for(key);
        let result = if self.config.histograms_as_distributions {
            writer.write_distribution(key, values, maybe_sample_rate, prefix)
        } else {
            writer.write_histogram(key, values, maybe_sample_rate, prefix)
        };
        if result.any_failures() {
            telemetry.track_packet_serializer_failed();
        }
        result
    }
}

} // verus!
