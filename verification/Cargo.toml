[package]
name = "auto_write"
version = "0.1.0"
edition = "2021"
publish = false

[dependencies]
crossbeam-channel = "0.5"
directories = "*"
rand = "0.9"
serde = { version = "1", features = ["derive"] }
serde_json = "1"
