//! Exporting metrics as text through the `log` crate: on each turn, the controller's metrics
//! are observed into an observer, drained as a string, and logged at the configured level.
use crate::labels::MetricKey;
use log::Level;
use std::time::Duration;
use vstd::prelude::*;

verus! {

#[verifier::external_type_specification]
#[verifier::external_body]
pub struct ExLevel(Level);

/// Receives the metrics of a snapshot.
pub trait Observer {
    /// Observes a counter value.
    fn observe_counter(&mut self, key: MetricKey, value: u64);

    /// Observes a gauge value.
    fn observe_gauge(&mut self, key: MetricKey, value: i64);

    /// Observes histogram values.
    fn observe_histogram(&mut self, key: MetricKey, values: &[u64]);
}

/// Hands its metrics to an observer.
///
/// Where `obeys_observe_spec` holds, observing leaves the observer as `spec_observe` says. By
/// default it does not hold, and nothing is known of what observing does.
pub trait Observe {
    /// Whether `observe` follows `spec_observe`.
    open spec fn obeys_observe_spec() -> bool {
        false
    }

    /// The observer after the current metrics were observed into `observer`.
    open spec fn spec_observe<O: Observer>(&self, observer: O) -> O {
        arbitrary()
    }

    /// Observes the current metrics into `observer`.
    fn observe<O: Observer>(&self, observer: &mut O)
        ensures
            Self::obeys_observe_spec() ==> *final(observer) == self.spec_observe(*old(observer)),
    ;
}

/// Turns what an observer has collected into an output, and resets it.
///
/// Where `obeys_drain_spec` holds, draining returns `spec_drained`. By default it does not hold,
/// and nothing is known of what draining returns.
pub trait Drain<T> {
    /// Whether `drain` follows `spec_drained`.
    open spec fn obeys_drain_spec() -> bool {
        false
    }

    /// The output of what the observer has collected.
    open spec fn spec_drained(&self) -> T {
        arbitrary()
    }

    /// Drains the observer's output.
    fn drain(&mut self) -> (r: T)
        ensures
            Self::obeys_drain_spec() ==> r == old(self).spec_drained(),
    ;
}

/// Builds observers.
///
/// Where `obeys_build_spec` holds, building returns `spec_build`. By default it does not hold,
/// and nothing is known of what building returns.
pub trait Builder {
    /// The observer built.
    type Output;

    /// Whether `build` follows `spec_build`.
    open spec fn obeys_build_spec() -> bool {
        false
    }

    /// The observer built.
    open spec fn spec_build(&self) -> Self::Output {
        arbitrary()
    }

    /// Builds an observer.
    fn build(&self) -> (r: Self::Output)
        ensures
            Self::obeys_build_spec() ==> r == self.spec_build(),
    ;
}

/// Exports metrics by converting them to a textual representation and logging them.
pub struct LogExporter<C, O> {
    controller: C,
    observer: O,
    level: Level,
    interval: Duration,
}

impl<C: Observe, O: Observer + Drain<String>> LogExporter<C, O> {
    /// Creates a new exporter that logs at the given level, with an observer built by
    /// `builder`.
    pub fn new<B: Builder<Output = O>>(controller: C, builder: B, level: Level, interval: Duration) -> (r: LogExporter<C, O>)
        ensures
            r.spec_controller() == controller,
            r.spec_level() == level,
            r.spec_interval() == interval,
            B::obeys_build_spec() ==> r.spec_observer() == builder.spec_build(),
    {
        LogExporter { controller, observer: builder.build(), level, interval }
    }

    /// The controller.
    pub closed spec fn spec_controller(&self) -> C {
        self.controller
    }

    /// The observer that the controller's metrics are observed into.
    pub closed spec fn spec_observer(&self) -> O {
        self.observer
    }

    /// The level output is logged at.
    pub closed spec fn spec_level(&self) -> Level {
        self.level
    }

    /// The interval between turns.
    pub closed spec fn spec_interval(&self) -> Duration {
        self.interval
    }

    /// The level output is logged at.
    pub fn level(&self) -> (r: Level)
        ensures
            r == self.spec_level(),
    {
        self.level
    }

    /// The interval between turns.
    pub fn interval(&self) -> (r: Duration)
        ensures
            r == self.spec_interval(),
    {
        self.interval
    }

    /// One turn of the exporter: observes the controller's metrics into the observer and drains
    /// them as text, which is to be logged at the exporter's level.
    pub fn turn(&mut self) -> (r: String)
        ensures
            C::obeys_observe_spec() && O::obeys_drain_spec() ==> r == old(self).spec_controller().spec_observe(
                old(self).spec_observer(),
            ).spec_drained(),
            final(self).spec_controller() == old(self).spec_controller(),
            final(self).spec_level() == old(self).spec_level(),
            final(self).spec_interval() == old(self).spec_interval(),
    {
        self.controller.observe(&mut self.observer);
        self.observer.drain()
    }
}

} // verus!
