[package]
name = "sqjson"
version = "0.1.0"
edition = "2021"
publish = false

[dependencies]
memmap2 = "*"
serde_json = "*"
indexmap = { version = "*", features = ["serde"] }
