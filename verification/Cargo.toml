[package]
name = "peta"
version = "0.1.0"
edition = "2021"
publish = false

[dependencies]
bytes = "0.4"
hashbrown = "0.1"
httparse = "1"
tokio = "0.1"
futures = "0.1"
