[package]
name = "fleet_scheduler"
version = "0.1.0"
edition = "2021"
publish = false

[dependencies]
flate2 = "=1.1.10"
futures = "=0.3.34"
tokio = { version = "=1.54.1", features = ["rt", "rt-multi-thread", "macros", "time"] }
redis = { version = "=1.8.0", features = ["tokio-comp"] }
tonic = "=0.14.6"
tonic-prost = "0.14"
prost = "0.14"
