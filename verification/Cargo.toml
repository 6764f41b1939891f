[package]
name = "my_redis"
version = "0.1.0"
edition = "2021"
publish = false

[dependencies]
anyhow = "*"
bytes = "*"
tokio = { version = "*", features = ["full"] }
