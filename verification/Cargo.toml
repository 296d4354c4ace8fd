[package]
name = "outbound_networking"
version = "0.1.0"
edition = "2021"
publish = false

[dependencies]
anyhow = "1"
futures-util = "0.3"

[dev-dependencies]
futures = "0.3"
