[package]
name = "resonate_sdk_taquba"
version = "0.1.0"
edition = "2021"
publish = false

[dependencies]
async-trait = "*"
chrono = "*"
croner = "=2.2.0"
futures-util = "*"
resonate-sdk = "*"
serde = { version = "1", features = ["derive"] }
serde_json = "1"
taquba = "0.13"
thiserror = "*"
tokio = { version = "1", features = ["macros", "rt-multi-thread", "sync", "time"] }
tokio-util = "*"
tracing = "*"
url = "2"
