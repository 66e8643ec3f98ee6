[package]
name = "metrics_exporters"
version = "0.1.0"
edition = "2021"
publish = false

[dependencies]
indexmap = "=2.14.2"
itoa = "=1.0.18"
base64 = "=0.22.1"
ryu = "=1.0.23"
metrics = "=0.24.6"
log = "=0.4.35"
metrics-util = "=0.20.4"
mime = "=0.3.17"
hdrhistogram = { version = "=7.6.0", default-features = false }
quanta = "=0.12.6"
