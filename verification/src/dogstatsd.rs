//! DogStatsD exporter: client-side aggregation, payload building and forwarding decisions.
pub mod builder;
pub mod forwarder;
pub mod state;
pub mod storage;
pub mod telemetry;
pub mod writer;
