[package]
name = "tspine"
version = "1.0.0"
edition = "2021"
publish = false

[dependencies]
aes = "0.8"
cbc = { version = "0.1", features = ["alloc"] }
hmac = "0.12"
sha2 = "0.10"
base64 = "0.22"
rand = "0.8"
zstd = "0.13"
colored = "2"
hound = "3.5"
rustfft = "6"
image = { version = "0.25", default-features = false, features = ["png", "jpeg", "bmp", "webp"] }
thiserror = "1"
serde = { version = "1", features = ["derive"] }
serde_json = "1"
axum = { version = "0.7", features = ["ws", "multipart"] }
tokio = { version = "1", features = ["full"] }
tower-http = { version = "0.5", features = ["cors"] }
futures-util = { version = "0.3", features = ["sink"] }
regex = "1"
tempfile = "3"
rsmpeg = "*"
