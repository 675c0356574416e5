[package]
name = "memstore"
version = "0.1.0"
edition = "2021"
publish = false

[dependencies]
anyhow = "=1.0.104"
clap = { version = "=4.6.7", features = ["derive"] }
dirs = "=7.0.0"
ndarray = "=0.17.2"
openai-api-rs = "=10.0.2"
tokio = { version = "=1.53.2", features = ["rt"] }
