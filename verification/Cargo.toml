[package]
name = "librespot"
version = "0.1.0"
edition = "2021"
publish = false

[dependencies]
aes = "=0.6.0"
base64 = "=0.13.1"
byteorder = "=1.5.0"
hmac = "=0.11.0"
pbkdf2 = { version = "=0.8.0", default-features = false }
sha-1 = "=0.9.8"
serde = { version = "=1.0.229", features = ["derive"] }
tokio = { version = "=1.54.1", features = ["sync"] }
tempfile = "=3.27.0"
bytes = "=1.12.1"
futures-util = "=0.3.34"
log = "=0.4.35"
