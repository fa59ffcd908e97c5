[package]
name = "resp_store"
version = "0.1.0"
edition = "2021"
publish = false

[dependencies]
anyhow = "1"
bytes = "1"
thiserror = "1"
tokio = { version = "1", features = ["full"] }
