[package]
name = "inline_config"
version = "0.1.0"
edition = "2021"
publish = false

[dependencies]
serde_json = "1"
toml = "*"
yaml-rust2 = "*"
const-fnv1a-hash = "*"
