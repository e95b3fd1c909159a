[package]
name = "redisxann"
version = "0.1.0"
edition = "2021"
publish = false

[dependencies]
rand = "0.8"
redis-module = "2.0"
serde = { version = "1", features = ["derive"] }
serde_json = "1"
lazy_static = "1.4"
sonyflake = "*"
cpu-time = "1"
hnsw_rs = "*"
num-traits = "0.2"
