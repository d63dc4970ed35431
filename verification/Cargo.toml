[package]
name = "hummock_version"
version = "0.1.0"
edition = "2021"
publish = false

[dependencies]
async-trait = "=0.1.92"
bytes = "=1.12.1"
serde = { version = "=1.0.229", features = ["derive"] }
thiserror-ext = "=0.3.0"
tokio = { version = "=1.54.1", features = ["sync", "rt"] }
tokio-stream = "=0.1.19"
tonic = { version = "=0.12.3", default-features = false }
tracing = "=0.1.44"
