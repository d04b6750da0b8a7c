[package]
name = "sensor_beam"
version = "0.1.0"
edition = "2021"
publish = false

[dependencies]
clap = "=2.34.0"
futures = "=0.3.34"
sensehat = { version = "=1.1.0", default-features = false }
serde = { version = "=1.0.229", features = ["derive"] }
serde_json = "=1.0.154"
tokio = { version = "=1.54.1", features = ["macros", "rt-multi-thread", "time", "sync", "signal"] }
