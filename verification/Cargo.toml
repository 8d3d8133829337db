[package]
name = "peachdb"
version = "0.1.0"
edition = "2021"
publish = false

[dependencies]
crc = "3"
thiserror = "2"
tokio = { version = "1", features = ["full"] }
