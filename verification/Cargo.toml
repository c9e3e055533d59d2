[package]
name = "media_parser"
version = "0.1.0"
edition = "2021"
publish = false

[dependencies]
async-trait = "=0.1.92"
base64 = "=0.22.1"
futures = "=0.3.34"
image = { version = "=0.24.9", default-features = false, features = ["jpeg"] }
openh264 = "0.9"
rayon = "=1.12.0"
reqwest = { version = "=0.12.28", default-features = false, features = ["stream", "rustls-tls"] }
serde = { version = "=1.0.229", features = ["derive"] }
serde_json = "=1.0.154"
thiserror = "=1.0.69"
tokio = { version = "=1.54.1", features = ["fs", "io-util", "rt", "rt-multi-thread", "macros", "time", "sync"] }
url = "=2.5.8"
webpki-root-certs = "1"
