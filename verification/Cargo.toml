[package]
name = "slang_rs"
version = "0.1.0"
edition = "2021"
publish = false

[dependencies]
serde_json = "*"
tempfile = "*"
which = "*"

[dev-dependencies]
num-bigint = "*"
