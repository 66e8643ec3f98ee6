//! Client-side aggregated counter storage.
use vstd::prelude::*;

verus! {

/// The state of an aggregated counter.
pub struct CounterState {
    /// Whether the last update was absolute.
    pub is_absolute: bool,
    /// The value at the last flush (or at the first absolute update).
    pub last: u64,
    /// The current value.
    pub current: u64,
    /// Updates since the last flush.
    pub updates: u64,
}

/// `a + b`, wrapping around at 2^64.
pub open spec fn wrap_add(a: u64, b: u64) -> u64 {
    if a as int + b as int <= u64::MAX {
        (a + b) as u64
    } else {
        (a as int + b as int - 0x1_0000_0000_0000_0000) as u64
    }
}

/// `a - b`, wrapping around at 2^64.
pub open spec fn wrap_sub(a: u64, b: u64) -> u64 {
    if a >= b {
        (a - b) as u64
    } else {
        (a as int - b as int + 0x1_0000_0000_0000_0000) as u64
    }
}

/// The state after an incremental update by `value`.
pub open spec fn spec_increment(s: CounterState, value: u64) -> CounterState {
    CounterState {
        is_absolute: false,
        last: s.last,
        current: wrap_add(s.current, value),
        updates: wrap_add(s.updates, 1),
    }
}

/// The state after an absolute update to `value`. Switching from incremental to absolute
/// updates resets `last` to `value`, so that the next flush reports a delta of zero.
pub open spec fn spec_absolute(s: CounterState, value: u64) -> CounterState {
    CounterState {
        is_absolute: true,
        last: if s.is_absolute {
            s.last
        } else {
            value
        },
        current: value,
        updates: wrap_add(s.updates, 1),
    }
}

/// What a flush reports: the delta since the last flush and the number of updates.
pub open spec fn spec_flush_result(s: CounterState) -> (u64, u64) {
    (wrap_sub(s.current, s.last), s.updates)
}

/// The state after a flush.
pub open spec fn spec_flush(s: CounterState) -> CounterState {
    CounterState { is_absolute: s.is_absolute, last: s.current, current: s.current, updates: 0 }
}

/// A counter aggregated on the client side, reporting deltas on each flush.
///
/// Incremental updates add to the counter. Absolute updates set it; when the previous update was
/// incremental, the counter is reset so that the next flush reports a delta of zero: a counter
/// needs two consecutive absolute values before it reports deltas.
#[derive(Clone, Copy)]
pub struct AtomicCounter {
    is_absolute: bool,
    last: u64,
    current: u64,
    updates: u64,
}

impl View for AtomicCounter {
    type V = CounterState;

    closed spec fn view(&self) -> CounterState {
        CounterState {
            is_absolute: self.is_absolute,
            last: self.last,
            current: self.current,
            updates: self.updates,
        }
    }
}

impl AtomicCounter {
    /// Creates a new counter at zero.
    pub fn new() -> (r: AtomicCounter)
        ensures
            r@ == (CounterState { is_absolute: false, last: 0, current: 0, updates: 0 }),
    {
        AtomicCounter { is_absolute: false, last: 0, current: 0, updates: 0 }
    }

    /// Flushes the counter, returning the delta of the counter value and the number of updates
    /// since the last flush.
    pub fn flush(&mut self) -> (r: (u64, u64))
        ensures
            r == spec_flush_result(old(self)@),
            final(self)@ == spec_flush(old(self)@),
    {
        let current = self.current;
        let last = self.last;
        self.last = current;
        let delta = current.wrapping_sub(last);
        let updates = self.updates;
        self.updates = 0;
        (delta, updates)
    }

    /// Increments the counter by `value`.
    pub fn increment(&mut self, value: u64)
        ensures
            final(self)@ == spec_increment(old(self)@, value),
    {
        self.is_absolute = false;
        self.current = self.current.wrapping_add(value);
        self.updates = self.updates.wrapping_add(1);
    }

    /// Sets the counter to the absolute `value`.
    pub fn absolute(&mut self, value: u64)
        ensures
            final(self)@ == spec_absolute(old(self)@, value),
    {
        if !self.is_absolute {
            self.last = value;
        }
        self.is_absolute = true;
        self.current = value;
        self.updates = self.updates.wrapping_add(1);
    }
}

/// The sum of `values`, wrapping around at 2^64.
pub open spec fn wrapping_sum(values: Seq<u64>) -> u64
    decreases values.len(),
{
    if values.len() == 0 {
        0
    } else {
        wrap_add(wrapping_sum(values.drop_last()), values.last())
    }
}

/// The state after applying the increments `values` in order.
pub open spec fn apply_increments(s: CounterState, values: Seq<u64>) -> CounterState
    decreases values.len(),
{
    if values.len() == 0 {
        s
    } else {
        spec_increment(apply_increments(s, values.drop_last()), values.last())
    }
}

/// Counters are aggregated by summing the increments since the last flush: after a flush,
/// any non-empty run of increments is reported by the next flush as their wrapping sum, with
/// one update per increment (as long as fewer than 2^64 increments were made).
pub proof fn lemma_flush_reports_sum_of_increments(s: CounterState, values: Seq<u64>)
    requires
        values.len() > 0,
        values.len() < 0x1_0000_0000_0000_0000,
    ensures
        spec_flush_result(apply_increments(spec_flush(s), values)) == (
            wrapping_sum(values),
            values.len() as u64,
        ),
    decreases values.len(),
{
    lemma_increments_track(spec_flush(s), values);
    lemma_wrap_sub_add(spec_flush(s).current, wrapping_sum(values));
}

proof fn lemma_increments_track(s: CounterState, values: Seq<u64>)
    requires
        s.last == s.current,
        s.updates == 0,
        values.len() < 0x1_0000_0000_0000_0000,
    ensures
        apply_increments(s, values).last == s.last,
        apply_increments(s, values).current == wrap_add(s.current, wrapping_sum(values)),
        apply_increments(s, values).updates == values.len(),
        values.len() > 0 ==> !apply_increments(s, values).is_absolute,
    decreases values.len(),
{
    if values.len() > 0 {
        lemma_increments_track(s, values.drop_last());
        lemma_wrap_add_assoc(s.current, wrapping_sum(values.drop_last()), values.last());
    }
}

proof fn lemma_wrap_add_assoc(a: u64, b: u64, c: u64)
    ensures
        wrap_add(wrap_add(a, b), c) == wrap_add(a, wrap_add(b, c)),
{
}

proof fn lemma_wrap_sub_add(a: u64, b: u64)
    ensures
        wrap_sub(wrap_add(a, b), a) == b,
{
}

/// A flush right after a flush reports nothing.
pub proof fn lemma_flush_twice_reports_nothing(s: CounterState)
    ensures
        spec_flush_result(spec_flush(s)) == (0u64, 0u64),
{
}

/// An absolute update that follows an incremental one (or none) resets the counter: the next
/// flush reports a delta of zero.
pub proof fn lemma_first_absolute_reports_zero(s: CounterState, value: u64)
    requires
        !s.is_absolute,
    ensures
        spec_flush_result(spec_absolute(s, value)).0 == 0,
{
}

/// Once a counter is in absolute mode and flushed, an absolute update to `value` is reported as
/// the (wrapping) difference from the previous absolute value.
pub proof fn lemma_consecutive_absolutes_report_difference(s: CounterState, a: u64, b: u64)
    ensures
        spec_flush_result(spec_absolute(spec_flush(spec_absolute(s, a)), b)) == (
            wrap_sub(b, a),
            1u64,
        ),
{
}

/// How a histogram stores its values until they are flushed.
pub enum HistogramStorage {
    /// Every value is kept.
    Raw,
    /// Values are sampled into a reservoir of this size.
    Sampled(usize),
}

/// Client-side aggregated metrics storage.
///
/// Counters are aggregated by summing the increments since the last flush; gauges keep the
/// latest value; histograms keep their values, all of them or a sample of them.
pub struct ClientSideAggregatedStorage {
    histogram_sampling: bool,
    histogram_reservoir_size: usize,
}

impl ClientSideAggregatedStorage {
    /// Creates a new `ClientSideAggregatedStorage`.
    pub fn new(histogram_sampling: bool, histogram_reservoir_size: usize) -> (r: Self)
        ensures
            r.spec_histogram_storage() == if histogram_sampling {
                HistogramStorage::Sampled(histogram_reservoir_size)
            } else {
                HistogramStorage::Raw
            },
    {
        Self { histogram_sampling, histogram_reservoir_size }
    }

    /// How histograms store their values.
    pub closed spec fn spec_histogram_storage(&self) -> HistogramStorage {
        if self.histogram_sampling {
            HistogramStorage::Sampled(self.histogram_reservoir_size)
        } else {
            HistogramStorage::Raw
        }
    }

    /// Creates a counter.
    pub fn counter(&self) -> (r: AtomicCounter)
        ensures
            r@ == (CounterState { is_absolute: false, last: 0, current: 0, updates: 0 }),
    {
        AtomicCounter::new()
    }

    /// How a new histogram stores its values: sampled into a reservoir of the configured size
    /// when sampling is on, raw otherwise.
    pub fn histogram_storage(&self) -> (r: HistogramStorage)
        ensures
            r == self.spec_histogram_storage(),
    {
        if self.histogram_sampling {
            HistogramStorage::Sampled(self.histogram_reservoir_size)
        } else {
            HistogramStorage::Raw
        }
    }
}

} // verus!
