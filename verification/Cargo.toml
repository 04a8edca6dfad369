[package]
name = "configstack"
version = "0.1.0"
edition = "2021"
publish = false

[dependencies]
serde_json = "1"
serde-hjson = "*"
serde_yaml = "*"
