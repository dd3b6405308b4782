[package]
name = "hydro"
version = "0.1.0"
edition = "2021"
publish = false

[dependencies]
slotmap = "=1.1.1"
hdrhistogram = "=7.6.0"
flate2 = "=1.1.10"
serde = { version = "=1.0.229", features = ["derive"] }
tokio = { version = "=1.54.1", features = ["time", "rt", "macros", "sync"] }
tokio-stream = { version = "=0.1.19", features = ["time"] }
tokio-util = { version = "=0.7.20", features = ["codec"] }
futures = "=0.3.34"
bytes = "=1.12.1"
syn = { version = "=2.0.119", features = ["full"] }
quote = "=1.0.47"
proc-macro2 = "=1.0.107"
stageleft = "=0.16.0"
