[package]
name = "shard_query"
version = "0.1.0"
edition = "2021"
publish = false

[dependencies]
futures = "0.3"
itertools = "0.13"
log = "0.4"
rand = "0.8"
serde_json = "1"
tokio = { version = "1", features = ["rt", "time"] }
