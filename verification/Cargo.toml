[package]
name = "statsd_export"
version = "0.1.0"
edition = "2021"
publish = false

[dependencies]
metrics = "0.12"
metrics-core = "0.5"
metrics-runtime = "0.13"
