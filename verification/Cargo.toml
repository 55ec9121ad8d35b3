[package]
name = "mocket_host"
version = "0.1.0"
edition = "2021"
publish = false

[dependencies]
chrono = "=0.4.45"
tokio = { version = "=1.53.2", features = ["full"] }
wasmtime = "=47.0.4"
clap = "=4.6.7"
anyhow = "=1.0.104"
