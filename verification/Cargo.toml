[package]
name = "flosskeeper"
version = "1.2.0"
edition = "2021"
publish = false

[dependencies]
chrono = "0.4"
dirs = "5"
rfd = "0.14"
serde_json = "1"
