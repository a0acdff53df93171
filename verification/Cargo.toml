[package]
name = "scryer_core"
version = "0.3.0"
edition = "2021"
publish = false

[dependencies]
base64 = "0.22"
flate2 = "1"
glob = "0.3"
ignore = "0.4"
schemars = "*"
serde = { version = "1", features = ["derive"] }
serde_json = "1"

[dev-dependencies]
tempfile = "3"
