[package]
name = "shard_sink"
version = "0.1.0"
edition = "2021"
publish = false

[dependencies]
hash_ring = "*"
rand = "0.7"
rusoto_core = "0.42"
rusoto_credential = "0.42"
rusoto_s3 = "0.42"
serde = { version = "1", features = ["derive"] }
serde_derive = "1"
serde_json = "1"
tokio = "0.1"
