[package]
name = "grafeo-metrics"
version = "0.1.0"
edition = "2021"
publish = false

[dependencies]
grafeo-common = "=0.5.44"
