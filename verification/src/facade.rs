//! A lightweight metrics facade: one recorder, set once, receives every recorded value; until
//! it is set, values go to a recorder that drops them.
use crate::recorder::{try_recorder, RecorderSlot};
use vstd::prelude::*;

verus! {

/// A value that records metrics behind the facade.
pub trait MetricsRecorder {
    /// Records a counter value.
    fn record_counter(&self, key: &str, value: u64);

    /// Records a gauge value.
    fn record_gauge(&self, key: &str, value: i64);

    /// Records a histogram value.
    fn record_histogram(&self, key: &str, value: u64);
}

/// A recorder that drops every value.
pub struct NopRecorder;

impl MetricsRecorder for NopRecorder {
    fn record_counter(&self, _key: &str, _value: u64) {
    }

    fn record_gauge(&self, _key: &str, _value: i64) {
    }

    fn record_histogram(&self, _key: &str, _value: u64) {
    }
}

/// The error returned when a recorder is set after one has already been set.
pub struct SetRecorderError(());

impl SetRecorderError {
    /// The error message.
    pub fn message(&self) -> (r: &'static str)
        ensures
            r@ == "attempted to set a recorder after the metrics system was already initialized"@,
    {
        "attempted to set a recorder after the metrics system was already initialized"
    }
}

/// Sets the boxed recorder; this can be done once.
pub fn set_boxed_recorder<R>(slot: &mut RecorderSlot<Box<R>>, recorder: Box<R>) -> (r: Result<
    (),
    SetRecorderError,
>)
    ensures
        r is Ok <==> old(slot).spec_installed() is None,
        r is Ok ==> final(slot).spec_installed() == Some(recorder),
        r is Err ==> final(slot).spec_installed() == old(slot).spec_installed(),
{
    match crate::recorder::set_recorder(slot, recorder) {
        Ok(()) => Ok(()),
        Err(_) => Err(SetRecorderError(())),
    }
}

/// The recorder in use: the one that was set, or the no-op recorder.
pub enum FacadeRecorder<'a, R> {
    Installed(&'a R),
    Nop(NopRecorder),
}

impl<'a, R: MetricsRecorder> MetricsRecorder for FacadeRecorder<'a, R> {
    fn record_counter(&self, key: &str, value: u64) {
        match self {
            FacadeRecorder::Installed(r) => r.record_counter(key, value),
            FacadeRecorder::Nop(r) => r.record_counter(key, value),
        }
    }

    fn record_gauge(&self, key: &str, value: i64) {
        match self {
            FacadeRecorder::Installed(r) => r.record_gauge(key, value),
            FacadeRecorder::Nop(r) => r.record_gauge(key, value),
        }
    }

    fn record_histogram(&self, key: &str, value: u64) {
        match self {
            FacadeRecorder::Installed(r) => r.record_histogram(key, value),
            FacadeRecorder::Nop(r) => r.record_histogram(key, value),
        }
    }
}

/// Returns the recorder that was set, or the no-op recorder if none was.
pub fn recorder<R>(slot: &RecorderSlot<Box<R>>) -> (r: FacadeRecorder<'_, R>)
    ensures
        match slot.spec_installed() {
            Some(x) => r == FacadeRecorder::Installed(&*x),
            None => r is Nop,
        },
{
    match try_recorder(slot) {
        Some(x) => FacadeRecorder::Installed(&**x),
        None => FacadeRecorder::Nop(NopRecorder),
    }
}

} // verus!
