[package]
name = "anomaly_detection"
version = "0.1.0"
edition = "2021"
publish = false

[dependencies]
csv = "1"
ndarray = "0.15"
plotters = "0.3"
serde = { version = "1", features = ["derive"] }
