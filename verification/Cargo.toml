[package]
name = "aprs_stream"
version = "0.1.0"
edition = "2021"
publish = false

[dependencies]
aprs-decode = { version = "=0.1.2", features = ["serde"] }
aprs-rtp = "=0.2.0"
ciborium = "=0.2.2"
num-complex = "=0.4.6"
rtl-sdr-rs = "=0.4.3"
rustfft = "=6.4.1"
serde = { version = "=1.0.229", features = ["derive"] }
serde_bytes = "=0.11.19"
serde_json = "=1.0.154"
socket2 = { version = "=0.6.5", features = ["all"] }
thiserror = "=2.0.21"
tokio = { version = "=1.54.1", features = ["full"] }
toml = "=1.1.8"
tracing = "=0.1.44"
tracing-subscriber = { version = "=0.3.23", features = ["env-filter"] }
