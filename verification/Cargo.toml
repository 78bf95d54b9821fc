[package]
name = "openlogi_inventory"
version = "0.1.0"
edition = "2021"
publish = false

[dependencies]
tokio = { version = "1", features = ["rt", "sync", "time"] }
tracing = "0.1"
