//! Exporter telemetry: counts collected during a flush, applied afterwards as metrics.
use vstd::prelude::*;

verus! {

/// The counts held by a [`TelemetryUpdate`].
pub struct TelemetryCounts {
    pub counter_contexts: u64,
    pub gauge_contexts: u64,
    pub histogram_contexts: u64,
    pub counter_points: u64,
    pub gauge_points: u64,
    pub histogram_points: u64,
    pub packets_sent: u64,
    pub packets_dropped: u64,
    pub packets_dropped_writer: u64,
    pub packets_dropped_serializer: u64,
    pub bytes_sent: u64,
    pub bytes_dropped: u64,
    pub bytes_dropped_writer: u64,
}

/// All counts at zero.
pub open spec fn zero_counts() -> TelemetryCounts {
    TelemetryCounts {
        counter_contexts: 0,
        gauge_contexts: 0,
        histogram_contexts: 0,
        counter_points: 0,
        gauge_points: 0,
        histogram_points: 0,
        packets_sent: 0,
        packets_dropped: 0,
        packets_dropped_writer: 0,
        packets_dropped_serializer: 0,
        bytes_sent: 0,
        bytes_dropped: 0,
        bytes_dropped_writer: 0,
    }
}

/// A buffer for collecting telemetry updates.
pub struct TelemetryUpdate {
    counter_contexts: u64,
    gauge_contexts: u64,
    histogram_contexts: u64,
    counter_points: u64,
    gauge_points: u64,
    histogram_points: u64,
    packets_sent: u64,
    packets_dropped: u64,
    packets_dropped_writer: u64,
    packets_dropped_serializer: u64,
    bytes_sent: u64,
    bytes_dropped: u64,
    bytes_dropped_writer: u64,
}

impl View for TelemetryUpdate {
    type V = TelemetryCounts;

    closed spec fn view(&self) -> TelemetryCounts {
        TelemetryCounts {
            counter_contexts: self.counter_contexts,
            gauge_contexts: self.gauge_contexts,
            histogram_contexts: self.histogram_contexts,
            counter_points: self.counter_points,
            gauge_points: self.gauge_points,
            histogram_points: self.histogram_points,
            packets_sent: self.packets_sent,
            packets_dropped: self.packets_dropped,
            packets_dropped_writer: self.packets_dropped_writer,
            packets_dropped_serializer: self.packets_dropped_serializer,
            bytes_sent: self.bytes_sent,
            bytes_dropped: self.bytes_dropped,
            bytes_dropped_writer: self.bytes_dropped_writer,
        }
    }
}

impl TelemetryUpdate {
    /// Creates an empty update buffer.
    pub fn new() -> (r: TelemetryUpdate)
        ensures
            r@ == zero_counts(),
    {
        TelemetryUpdate {
            counter_contexts: 0,
            gauge_contexts: 0,
            histogram_contexts: 0,
            counter_points: 0,
            gauge_points: 0,
            histogram_points: 0,
            packets_sent: 0,
            packets_dropped: 0,
            packets_dropped_writer: 0,
            packets_dropped_serializer: 0,
            bytes_sent: 0,
            bytes_dropped: 0,
            bytes_dropped_writer: 0,
        }
    }

    /// The counts collected so far.
    pub fn counts(&self) -> (r: TelemetryCounts)
        ensures
            r == self@,
    {
        TelemetryCounts {
            counter_contexts: self.counter_contexts,
            gauge_contexts: self.gauge_contexts,
            histogram_contexts: self.histogram_contexts,
            counter_points: self.counter_points,
            gauge_points: self.gauge_points,
            histogram_points: self.histogram_points,
            packets_sent: self.packets_sent,
            packets_dropped: self.packets_dropped,
            packets_dropped_writer: self.packets_dropped_writer,
            packets_dropped_serializer: self.packets_dropped_serializer,
            bytes_sent: self.bytes_sent,
            bytes_dropped: self.bytes_dropped,
            bytes_dropped_writer: self.bytes_dropped_writer,
        }
    }

    /// Clears the update buffer, resetting it back to an empty state.
    pub fn clear(&mut self)
        ensures
            final(self)@ == zero_counts(),
    {
        self.counter_contexts = 0;
        self.gauge_contexts = 0;
        self.histogram_contexts = 0;
        self.counter_points = 0;
        self.gauge_points = 0;
        self.histogram_points = 0;
        self.packets_sent = 0;
        self.packets_dropped = 0;
        self.packets_dropped_writer = 0;
        self.packets_dropped_serializer = 0;
        self.bytes_sent = 0;
        self.bytes_dropped = 0;
        self.bytes_dropped_writer = 0;
    }

    /// Returns `true` if any points have been recorded.
    pub fn had_updates(&self) -> (r: bool)
        ensures
            r == (self@.counter_points > 0 || self@.gauge_points > 0 || self@.histogram_points > 0),
    {
        self.counter_points > 0 || self.gauge_points > 0 || self.histogram_points > 0
    }

    /// Increments the number of counter contexts collected.
    pub fn increment_counter_contexts(&mut self, value: usize)
        requires
            old(self)@.counter_contexts + value <= u64::MAX,
        ensures
            final(self)@ == (TelemetryCounts {
                counter_contexts: (old(self)@.counter_contexts + value) as u64,
                ..old(self)@
            }),
    {
        self.counter_contexts = self.counter_contexts + value as u64;
    }

    /// Increments the number of gauge contexts collected.
    pub fn increment_gauge_contexts(&mut self, value: usize)
        requires
            old(self)@.gauge_contexts + value <= u64::MAX,
        ensures
            final(self)@ == (TelemetryCounts {
                gauge_contexts: (old(self)@.gauge_contexts + value) as u64,
                ..old(self)@
            }),
    {
        self.gauge_contexts = self.gauge_contexts + value as u64;
    }

    /// Increments the number of histogram contexts collected.
    pub fn increment_histogram_contexts(&mut self, value: usize)
        requires
            old(self)@.histogram_contexts + value <= u64::MAX,
        ensures
            final(self)@ == (TelemetryCounts {
                histogram_contexts: (old(self)@.histogram_contexts + value) as u64,
                ..old(self)@
            }),
    {
        self.histogram_contexts = self.histogram_contexts + value as u64;
    }

    /// Increments the number of counter points collected.
    pub fn increment_counter_points(&mut self, value: u64)
        requires
            old(self)@.counter_points + value <= u64::MAX,
        ensures
            final(self)@ == (TelemetryCounts {
                counter_points: (old(self)@.counter_points + value) as u64,
                ..old(self)@
            }),
    {
        self.counter_points = self.counter_points + value;
    }

    /// Increments the number of gauge points collected.
    pub fn increment_gauge_points(&mut self, value: u64)
        requires
            old(self)@.gauge_points + value <= u64::MAX,
        ensures
            final(self)@ == (TelemetryCounts {
                gauge_points: (old(self)@.gauge_points + value) as u64,
                ..old(self)@
            }),
    {
        self.gauge_points = self.gauge_points + value;
    }

    /// Increments the number of histogram points collected.
    pub fn increment_histogram_points(&mut self, value: u64)
        requires
            old(self)@.histogram_points + value <= u64::MAX,
        ensures
            final(self)@ == (TelemetryCounts {
                histogram_points: (old(self)@.histogram_points + value) as u64,
                ..old(self)@
            }),
    {
        self.histogram_points = self.histogram_points + value;
    }

    /// Tracks a successful packet send of `bytes_len` bytes.
    pub fn track_packet_send_succeeded(&mut self, bytes_len: usize)
        requires
            old(self)@.packets_sent + 1 <= u64::MAX,
            old(self)@.bytes_sent + bytes_len <= u64::MAX,
        ensures
            final(self)@ == (TelemetryCounts {
                packets_sent: (old(self)@.packets_sent + 1) as u64,
                bytes_sent: (old(self)@.bytes_sent + bytes_len) as u64,
                ..old(self)@
            }),
    {
        self.packets_sent = self.packets_sent + 1;
        self.bytes_sent = self.bytes_sent + bytes_len as u64;
    }

    /// Tracks a failed packet send of `bytes_len` bytes.
    pub fn track_packet_send_failed(&mut self, bytes_len: usize)
        requires
            old(self)@.packets_dropped + 1 <= u64::MAX,
            old(self)@.packets_dropped_writer + 1 <= u64::MAX,
            old(self)@.bytes_dropped + bytes_len <= u64::MAX,
            old(self)@.bytes_dropped_writer + bytes_len <= u64::MAX,
        ensures
            final(self)@ == (TelemetryCounts {
                packets_dropped: (old(self)@.packets_dropped + 1) as u64,
                packets_dropped_writer: (old(self)@.packets_dropped_writer + 1) as u64,
                bytes_dropped: (old(self)@.bytes_dropped + bytes_len) as u64,
                bytes_dropped_writer: (old(self)@.bytes_dropped_writer + bytes_len) as u64,
                ..old(self)@
            }),
    {
        self.packets_dropped = self.packets_dropped + 1;
        self.packets_dropped_writer = self.packets_dropped_writer + 1;
        self.bytes_dropped = self.bytes_dropped + bytes_len as u64;
        self.bytes_dropped_writer = self.bytes_dropped_writer + bytes_len as u64;
    }

    /// Tracks a failed packet serialization.
    pub fn track_packet_serializer_failed(&mut self)
        requires
            old(self)@.packets_dropped + 1 <= u64::MAX,
            old(self)@.packets_dropped_serializer + 1 <= u64::MAX,
        ensures
            final(self)@ == (TelemetryCounts {
                packets_dropped: (old(self)@.packets_dropped + 1) as u64,
                packets_dropped_serializer: (old(self)@.packets_dropped_serializer + 1) as u64,
                ..old(self)@
            }),
    {
        self.packets_dropped = self.packets_dropped + 1;
        self.packets_dropped_serializer = self.packets_dropped_serializer + 1;
    }

    /// The totals that telemetry reports for this update: points of all kinds together, and
    /// aggregated contexts of all kinds together.
    pub fn totals(&self) -> (r: (u64, u64))
        requires
            self@.counter_points + self@.gauge_points + self@.histogram_points <= u64::MAX,
            self@.counter_contexts + self@.gauge_contexts + self@.histogram_contexts <= u64::MAX,
        ensures
            r.0 == self@.counter_points + self@.gauge_points + self@.histogram_points,
            r.1 == self@.counter_contexts + self@.gauge_contexts + self@.histogram_contexts,
    {
        (
            self.counter_points + self.gauge_points + self.histogram_points,
            self.counter_contexts + self.gauge_contexts + self.histogram_contexts,
        )
    }
}

} // verus!
