[package]
name = "secret_santa"
version = "0.1.0"
edition = "2021"
publish = false

[dependencies]
tide = "0.16"
serde_json = "1"
futures = "0.3"
