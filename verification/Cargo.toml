[package]
name = "snap"
version = "1.0.1"
edition = "2021"
publish = false

[dependencies]
sha1 = "=0.10.7"
flate2 = "=1.1.10"
serde_json = "=1.0.154"
chrono = "=0.4.45"
