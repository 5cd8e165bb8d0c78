[package]
name = "parallax"
version = "0.1.0"
edition = "2021"
publish = false

[dependencies]
axum = "0.7"
crossbeam-queue = "0.3"
rand = "0.8"
rand_pcg = "0.3"
serde = { version = "1", features = ["derive"] }
serde_json = "1"
thiserror = "1"
tokio = { version = "1", features = ["macros", "rt-multi-thread", "net", "signal", "sync", "time"] }
tower = { version = "0.4", features = ["limit", "timeout", "util"] }
tracing = "0.1"
tracing-subscriber = { version = "0.3", features = ["env-filter"] }
