//! Verified core logic of a family of metrics exporters.
pub mod distribution;
pub mod dogstatsd;
pub mod exposition;
pub mod facade;
pub mod formatting;
pub mod http_listener;
pub mod labels;
pub mod log_exporter;
pub mod observer;
pub mod push_gateway;
pub mod recorder;
pub mod remote_write;
pub mod render;
pub mod rolling;
pub mod snapshot;
pub mod tcp;
