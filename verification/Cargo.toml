[package]
name = "xray_rs"
version = "0.1.0"
edition = "2021"
publish = false

[dependencies]
base64 = "*"
blake2 = "*"
bstr = "*"
bytes = "*"
rand = "*"
sha2 = "*"
urlencoding = "*"
wide = "*"
serde_json = "*"
url = "*"
anyhow = "*"
tracing = "*"
tokio = { version = "*", features = ["rt", "sync"] }
reqwest = { version = "*", default-features = false }
