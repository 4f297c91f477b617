[package]
name = "raw_map"
version = "0.1.0"
edition = "2021"
publish = false

[dependencies]
colorous = "1"
serde_json = "1"
