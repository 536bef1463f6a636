[package]
name = "lzzzz"
version = "0.1.0"
edition = "2021"
publish = false

[dependencies]
lz4_flex = "*"
twox-hash = "*"
tokio = { version = "*", features = ["io-util"] }
pin-project = "*"
