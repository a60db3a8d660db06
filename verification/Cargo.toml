[package]
name = "resp_store"
version = "0.1.0"
edition = "2021"
publish = false

[dependencies]
num-bigint = "0.4"
tokio = { version = "1", features = ["full"] }
futures = "0.3"
