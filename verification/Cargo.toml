[package]
name = "destream_json"
version = "0.1.0"
edition = "2021"
publish = false

[dependencies]
async-recursion = "=1.2.0"
async-trait = "=0.1.92"
base64 = "=0.21.7"
bytes = "=1.12.1"
destream = "=0.10.1"
futures = "=0.3.34"
number-general = { version = "=0.14.0", features = ["stream"] }
pin-project = "=1.1.13"
tokio = { version = "=1.54.1", features = ["io-util"] }
uuid = "=1.29.0"
