//! Configuring a DogStatsD exporter.
use crate::dogstatsd::forwarder::{spec_parse_remote_addr, ForwarderConfiguration, RemoteAddr, RemoteAddrView};
use crate::dogstatsd::state::{AggregationMode, StateConfiguration};
use crate::labels::to_string;
use std::time::Duration;
use vstd::prelude::*;

verus! {

/// The duration of a whole number of seconds (`Duration::from_secs`).
pub uninterp spec fn seconds(secs: u64) -> Duration;

#[verifier::external_body]
fn duration_from_secs(secs: u64) -> (r: Duration)
    ensures
        r == seconds(secs),
{
    Duration::from_secs(secs)
}

/// The default maximum payload length.
pub const DEFAULT_MAX_PAYLOAD_LEN: usize = 8192;

/// The default reservoir size for histogram sampling.
pub const DEFAULT_HISTOGRAM_RESERVOIR_SIZE: usize = 1024;

/// Errors that could occur while building or installing a DogStatsD recorder/exporter.
pub enum BuildError {
    /// Failed to parse the remote address.
    InvalidRemoteAddress {
        /// Details about the parsing failure.
        reason: String,
    },
    /// Failed to spawn the background thread in synchronous mode.
    Backend,
    /// Failed to install the recorder due to an existing global recorder already being
    /// installed.
    FailedToInstall,
}

/// Builder for a DogStatsD exporter.
pub struct DogStatsDBuilder {
    pub remote_addr: RemoteAddr,
    pub write_timeout: Duration,
    pub max_payload_len: usize,
    pub flush_interval: Duration,
    pub synchronous: bool,
    pub agg_mode: AggregationMode,
    pub telemetry: bool,
    pub histogram_sampling: bool,
    pub histogram_reservoir_size: usize,
    pub histograms_as_distributions: bool,
}

impl DogStatsDBuilder {
    /// The defaults: UDP to `127.0.0.1:8125`, a write timeout of 1 second, payloads of at most
    /// 8192 bytes, a flush every 3 seconds, the synchronous backend, conservative aggregation,
    /// telemetry on, no histogram sampling with a reservoir of 1024, and histograms sent as
    /// distributions.
    pub fn default() -> (r: DogStatsDBuilder)
        ensures
            r.remote_addr@ == RemoteAddrView::Udp("127.0.0.1:8125"@),
            r.write_timeout == seconds(1),
            r.max_payload_len == DEFAULT_MAX_PAYLOAD_LEN,
            r.flush_interval == seconds(3),
            r.synchronous,
            r.agg_mode == AggregationMode::Conservative,
            r.telemetry,
            !r.histogram_sampling,
            r.histogram_reservoir_size == DEFAULT_HISTOGRAM_RESERVOIR_SIZE,
            r.histograms_as_distributions,
    {
        DogStatsDBuilder {
            remote_addr: RemoteAddr::Udp(to_string("127.0.0.1:8125")),
            write_timeout: duration_from_secs(1),
            max_payload_len: DEFAULT_MAX_PAYLOAD_LEN,
            flush_interval: duration_from_secs(3),
            synchronous: true,
            agg_mode: AggregationMode::Conservative,
            telemetry: true,
            histogram_sampling: false,
            histogram_reservoir_size: DEFAULT_HISTOGRAM_RESERVOIR_SIZE,
            histograms_as_distributions: true,
        }
    }

    /// Sets the remote address to forward metrics to: `<host>:<port>` for UDP, or
    /// `<scheme>://<path>` with the scheme `unix` or `unixgram` for a Unix stream or datagram
    /// socket (see [`RemoteAddr::try_from`]).
    ///
    /// # Errors
    ///
    /// If the address cannot be read, the reason is returned.
    pub fn with_remote_address(self, addr: &str) -> (r: Result<DogStatsDBuilder, BuildError>)
        ensures
            match spec_parse_remote_addr(addr@) {
                Ok(a) => r matches Ok(b) && b.remote_addr@ == a && b == (DogStatsDBuilder {
                    remote_addr: b.remote_addr,
                    ..self
                }),
                Err(reason) => r matches Err(BuildError::InvalidRemoteAddress { reason: e })
                    && e@ == reason,
            },
    {
        match RemoteAddr::try_from(addr) {
            Ok(remote_addr) => Ok(DogStatsDBuilder { remote_addr, ..self }),
            Err(reason) => Err(BuildError::InvalidRemoteAddress { reason }),
        }
    }

    /// Checks the remote address against the outcome of resolving it: a UDP address that did not
    /// resolve is refused with the resolver's message; any other address is kept as it is.
    ///
    /// # Errors
    ///
    /// If the remote address is a UDP address and `resolution_error` holds a message.
    pub fn check_remote_address(self, resolution_error: Option<String>) -> (r: Result<DogStatsDBuilder, BuildError>)
        ensures
            match (self.remote_addr, resolution_error) {
                (RemoteAddr::Udp(_), Some(e)) => r matches Err(BuildError::InvalidRemoteAddress { reason })
                    && reason@ == e@,
                _ => r == Ok::<DogStatsDBuilder, BuildError>(self),
            },
    {
        match (&self.remote_addr, resolution_error) {
            (RemoteAddr::Udp(_), Some(reason)) => Err(BuildError::InvalidRemoteAddress { reason }),
            _ => Ok(self),
        }
    }

    /// Sets the write timeout for forwarding metrics.
    pub fn with_write_timeout(self, timeout: Duration) -> (r: DogStatsDBuilder)
        ensures
            r == (DogStatsDBuilder { write_timeout: timeout, ..self }),
    {
        DogStatsDBuilder { write_timeout: timeout, ..self }
    }

    /// Sets the maximum payload length for forwarding metrics.
    pub fn with_maximum_payload_length(self, max_payload_len: usize) -> (r: DogStatsDBuilder)
        ensures
            r == (DogStatsDBuilder { max_payload_len, ..self }),
    {
        DogStatsDBuilder { max_payload_len, ..self }
    }

    /// Uses a synchronous backend for forwarding metrics.
    pub fn with_synchronous_backend(self) -> (r: DogStatsDBuilder)
        ensures
            r == (DogStatsDBuilder { synchronous: true, ..self }),
    {
        DogStatsDBuilder { synchronous: true, ..self }
    }

    /// Sets the aggregation mode.
    pub fn with_aggregation_mode(self, mode: AggregationMode) -> (r: DogStatsDBuilder)
        ensures
            r == (DogStatsDBuilder { agg_mode: mode, ..self }),
    {
        DogStatsDBuilder { agg_mode: mode, ..self }
    }

    /// Sets the flush interval of the aggregator.
    pub fn with_flush_interval(self, flush_interval: Duration) -> (r: DogStatsDBuilder)
        ensures
            r == (DogStatsDBuilder { flush_interval, ..self }),
    {
        DogStatsDBuilder { flush_interval, ..self }
    }

    /// Sets whether or not to enable telemetry for the exporter.
    pub fn with_telemetry(self, telemetry: bool) -> (r: DogStatsDBuilder)
        ensures
            r == (DogStatsDBuilder { telemetry, ..self }),
    {
        DogStatsDBuilder { telemetry, ..self }
    }

    /// Sets whether or not to enable histogram sampling.
    pub fn with_histogram_sampling(self, histogram_sampling: bool) -> (r: DogStatsDBuilder)
        ensures
            r == (DogStatsDBuilder { histogram_sampling, ..self }),
    {
        DogStatsDBuilder { histogram_sampling, ..self }
    }

    /// Sets the reservoir size for histogram sampling.
    pub fn with_histogram_reservoir_size(self, reservoir_size: usize) -> (r: DogStatsDBuilder)
        ensures
            r == (DogStatsDBuilder { histogram_reservoir_size: reservoir_size, ..self }),
    {
        DogStatsDBuilder { histogram_reservoir_size: reservoir_size, ..self }
    }

    /// Sets whether or not to send histograms as distributions.
    pub fn send_histograms_as_distributions(self, histograms_as_distributions: bool) -> (r:
        DogStatsDBuilder)
        ensures
            r == (DogStatsDBuilder { histograms_as_distributions, ..self }),
    {
        DogStatsDBuilder { histograms_as_distributions, ..self }
    }

    /// The configurations the exporter is built from: the state configuration (with no global
    /// labels or prefix) and the forwarder configuration. The recorder and the forwarder's
    /// thread are then built from these.
    pub fn into_configurations(self) -> (r: (StateConfiguration, ForwarderConfiguration))
        ensures
            r.0.agg_mode == self.agg_mode,
            r.0.telemetry == self.telemetry,
            r.0.histogram_sampling == self.histogram_sampling,
            r.0.histogram_reservoir_size == self.histogram_reservoir_size,
            r.0.histograms_as_distributions == self.histograms_as_distributions,
            r.0.global_labels@.len() == 0,
            r.0.global_prefix is None,
            r.1 == (ForwarderConfiguration {
                remote_addr: self.remote_addr,
                max_payload_len: self.max_payload_len,
                flush_interval: self.flush_interval,
                write_timeout: self.write_timeout,
            }),
    {
        let state_config = StateConfiguration {
            agg_mode: self.agg_mode,
            telemetry: self.telemetry,
            histogram_sampling: self.histogram_sampling,
            histogram_reservoir_size: self.histogram_reservoir_size,
            histograms_as_distributions: self.histograms_as_distributions,
            global_labels: Vec::new(),
            global_prefix: None,
        };
        let forwarder_config = ForwarderConfiguration {
            remote_addr: self.remote_addr,
            max_payload_len: self.max_payload_len,
            flush_interval: self.flush_interval,
            write_timeout: self.write_timeout,
        };
        (state_config, forwarder_config)
    }
}

} // verus!
