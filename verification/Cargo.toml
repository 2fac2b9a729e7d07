[package]
name = "kichi"
version = "0.1.0"
edition = "2021"
publish = false

[dependencies]
sha1 = "0.10"
hmac = "0.12"
base64 = "0.22"
serde = { version = "1", features = ["derive"] }
serde_json = "1"
dirs = "5"
httpdate = "1"
