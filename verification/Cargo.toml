[package]
name = "logban"
version = "0.1.0"
edition = "2021"
publish = false

[dependencies]
chrono = "0.4"
md5 = "0.7"
memchr = "2"
memmap = "0.7"
regex = "1"
serde = { version = "1", features = ["derive"] }
serde_derive = "1"
toml = "0.5"
