[package]
name = "ferrumc_nbt"
version = "0.1.0"
edition = "2021"
publish = false

[dependencies]
serde = "1"
thiserror = "1"
tokio = { version = "1", features = ["io-util"] }
