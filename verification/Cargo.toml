[package]
name = "llm_engine"
version = "0.1.0"
edition = "2021"
publish = false

[dependencies]
anyhow = "1"
async-stream = "0.3"
axum = "0.8"
clap = { version = "4", features = ["derive"] }
cudarc = { version = "0.17", default-features = false, features = ["std", "driver", "nvrtc", "cuda-13000", "dynamic-loading"] }
half = "2"
serde = { version = "1", features = ["derive"] }
serde_json = "1"
tokio = { version = "1", features = ["rt-multi-thread", "macros", "net", "sync", "time"] }
