[package]
name = "ruchei"
version = "0.1.0"
edition = "2021"
publish = false

[dependencies]
futures-util = { version = "=0.3.34", features = ["sink"] }
futures-sink = "=0.3.34"
pin-project = "=1.1.13"
slab = "=0.4.12"
linked-hash-map = "=0.5.6"
multimap = { version = "0.10", default-features = false }
flume = "0.11"
