[package]
name = "load_balancer"
version = "0.1.0"
edition = "2021"
publish = false

[dependencies]
bytes = "0.4"
futures = "0.1"
tokio = "0.1"
serde = "1"
serde_derive = "1"
serde_json = "1"
failure = "0.1"
