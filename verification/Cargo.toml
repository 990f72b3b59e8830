[package]
name = "redis_cluster"
version = "0.1.0"
edition = "2021"
publish = false

[dependencies]
arcstr = "1"
xxhash-rust = { version = "0.8", features = ["xxh3"] }
