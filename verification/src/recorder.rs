//! The recorder behind the metrics facade: a slot that accepts one recorder, and hands out the
//! installed recorder, or a no-op one before any is installed.
use crate::labels::MetricKey;
use std::time::Duration;
use vstd::prelude::*;

verus! {

/// Opaque identifier for a metric.
pub struct Identifier(usize);

impl Identifier {
    /// The number behind the identifier.
    pub closed spec fn spec_value(&self) -> usize {
        self.0
    }

    /// Creates an identifier.
    pub fn new(value: usize) -> (r: Identifier)
        ensures
            r.spec_value() == value,
    {
        Identifier(value)
    }
}

impl Default for Identifier {
    fn default() -> (r: Identifier)
        ensures
            r.spec_value() == 0,
    {
        Identifier(0)
    }
}

/// Used to do a nanosecond conversion, from raw integer time values already in nanoseconds as
/// well as from a [`Duration`].
pub trait AsNanoseconds {
    /// The number of nanoseconds that the conversion gives.
    spec fn spec_nanos(&self) -> u64;

    /// Performs the conversion.
    fn as_nanos(&self) -> (r: u64)
        ensures
            r == self.spec_nanos(),
    ;
}

impl AsNanoseconds for u64 {
    /// A raw value is already in nanoseconds.
    open spec fn spec_nanos(&self) -> u64 {
        *self
    }

    fn as_nanos(&self) -> (r: u64) {
        *self
    }
}

/// The whole number of nanoseconds in a duration (`Duration::as_nanos`).
pub uninterp spec fn duration_total_nanos(d: Duration) -> u128;

#[verifier::external_body]
fn duration_as_nanos(d: &Duration) -> (r: u128)
    ensures
        r == duration_total_nanos(*d),
{
    d.as_nanos()
}

/// The whole number of nanoseconds in a duration, truncated to 64 bits.
pub fn duration_nanos(d: &Duration) -> (r: u64)
    ensures
        r as int == duration_total_nanos(*d) % 0x1_0000_0000_0000_0000,
{
    let n: u128 = duration_as_nanos(d);
    proof {
        assert(n as u64 == n % 0x1_0000_0000_0000_0000) by (bit_vector);
    }
    n as u64
}

impl AsNanoseconds for Duration {
    /// The whole number of nanoseconds, truncated to 64 bits.
    open spec fn spec_nanos(&self) -> u64 {
        (duration_total_nanos(*self) % 0x1_0000_0000_0000_0000) as u64
    }

    /// The whole number of nanoseconds, truncated to 64 bits (see [`duration_nanos`]).
    fn as_nanos(&self) -> u64 {
        duration_nanos(self)
    }
}

/// A value that records metrics behind the facade.
pub trait Recorder {
    /// Registers a counter.
    fn register_counter(&self, key: MetricKey) -> Identifier;

    /// Registers a gauge.
    fn register_gauge(&self, key: MetricKey) -> Identifier;

    /// Registers a histogram.
    fn register_histogram(&self, key: MetricKey) -> Identifier;

    /// Records a counter.
    fn increment_counter(&self, id: Identifier, value: u64);

    /// Records a gauge.
    fn update_gauge(&self, id: Identifier, value: i64);

    /// Records a histogram value.
    fn record_histogram(&self, id: Identifier, value: u64);
}

/// A recorder that records nothing and hands out the default identifier.
pub struct NoopRecorder;

impl Recorder for NoopRecorder {
    fn register_counter(&self, _key: MetricKey) -> (r: Identifier)
        ensures
            r.spec_value() == 0,
    {
        Identifier(0)
    }

    fn register_gauge(&self, _key: MetricKey) -> (r: Identifier)
        ensures
            r.spec_value() == 0,
    {
        Identifier(0)
    }

    fn register_histogram(&self, _key: MetricKey) -> (r: Identifier)
        ensures
            r.spec_value() == 0,
    {
        Identifier(0)
    }

    fn increment_counter(&self, _id: Identifier, _value: u64) {
    }

    fn update_gauge(&self, _id: Identifier, _value: i64) {
    }

    fn record_histogram(&self, _id: Identifier, _value: u64) {
    }
}

/// The error returned by [`set_recorder`] if a recorder has already been set.
pub struct SetRecorderError(());

impl SetRecorderError {
    /// The error message.
    pub fn message(&self) -> (r: &'static str)
        ensures
            r@ == "attempted to set a recorder after the metrics system was already initialized"@,
    {
        "attempted to set a recorder after the metrics system was already initialized"
    }
}

/// Where the recorder is installed: empty until a recorder is set, and then set for good.
pub struct RecorderSlot<R> {
    installed: Option<R>,
}

impl<R> RecorderSlot<R> {
    /// The installed recorder, if any.
    pub closed spec fn spec_installed(&self) -> Option<R> {
        self.installed
    }

    /// Creates a slot with no recorder installed.
    pub fn new() -> (r: RecorderSlot<R>)
        ensures
            r.spec_installed() is None,
    {
        RecorderSlot { installed: None }
    }
}

/// The recorder in use: the installed one, or a no-op recorder when none is installed.
pub enum ActiveRecorder<'a, R> {
    Installed(&'a R),
    Noop(NoopRecorder),
}

impl<'a, R: Recorder> Recorder for ActiveRecorder<'a, R> {
    /// The installed recorder registers the counter; with none installed, the no-op recorder
    /// hands out the default identifier.
    fn register_counter(&self, key: MetricKey) -> (r: Identifier)
        ensures
            self is Noop ==> r.spec_value() == 0,
    {
        match self {
            ActiveRecorder::Installed(r) => r.register_counter(key),
            ActiveRecorder::Noop(r) => r.register_counter(key),
        }
    }

    /// The installed recorder registers the gauge; with none installed, the no-op recorder
    /// hands out the default identifier.
    fn register_gauge(&self, key: MetricKey) -> (r: Identifier)
        ensures
            self is Noop ==> r.spec_value() == 0,
    {
        match self {
            ActiveRecorder::Installed(r) => r.register_gauge(key),
            ActiveRecorder::Noop(r) => r.register_gauge(key),
        }
    }

    /// The installed recorder registers the histogram; with none installed, the no-op recorder
    /// hands out the default identifier.
    fn register_histogram(&self, key: MetricKey) -> (r: Identifier)
        ensures
            self is Noop ==> r.spec_value() == 0,
    {
        match self {
            ActiveRecorder::Installed(r) => r.register_histogram(key),
            ActiveRecorder::Noop(r) => r.register_histogram(key),
        }
    }

    fn increment_counter(&self, id: Identifier, value: u64) {
        match self {
            ActiveRecorder::Installed(r) => r.increment_counter(id, value),
            ActiveRecorder::Noop(r) => r.increment_counter(id, value),
        }
    }

    fn update_gauge(&self, id: Identifier, value: i64) {
        match self {
            ActiveRecorder::Installed(r) => r.update_gauge(id, value),
            ActiveRecorder::Noop(r) => r.update_gauge(id, value),
        }
    }

    fn record_histogram(&self, id: Identifier, value: u64) {
        match self {
            ActiveRecorder::Installed(r) => r.record_histogram(id, value),
            ActiveRecorder::Noop(r) => r.record_histogram(id, value),
        }
    }
}

/// Sets the recorder.
///
/// A recorder can be set once: any later attempt fails and leaves the installed recorder in
/// place.
pub fn set_recorder<R>(slot: &mut RecorderSlot<R>, recorder: R) -> (r: Result<(), SetRecorderError>)
    ensures
        r is Ok <==> old(slot).spec_installed() is None,
        r is Ok ==> final(slot).spec_installed() == Some(recorder),
        r is Err ==> final(slot).spec_installed() == old(slot).spec_installed(),
{
    if slot.installed.is_none() {
        slot.installed = Some(recorder);
        Ok(())
    } else {
        Err(SetRecorderError(()))
    }
}

/// Returns the recorder, if one has been set.
pub fn try_recorder<R>(slot: &RecorderSlot<R>) -> (r: Option<&R>)
    ensures
        match slot.spec_installed() {
            Some(x) => r == Some(&x),
            None => r is None,
        },
{
    match &slot.installed {
        Some(x) => Some(x),
        None => None,
    }
}

/// Returns the recorder: the one that has been set, or a no-op recorder if none has.
pub fn recorder<R>(slot: &RecorderSlot<R>) -> (r: ActiveRecorder<'_, R>)
    ensures
        match slot.spec_installed() {
            Some(x) => r == ActiveRecorder::Installed(&x),
            None => r is Noop,
        },
{
    match try_recorder(slot) {
        Some(x) => ActiveRecorder::Installed(x),
        None => ActiveRecorder::Noop(NoopRecorder),
    }
}

} // verus!
